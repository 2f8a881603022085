use rs_namin::mesh::{
    chunk_triangles, MeshBuilder, MAX_INDICES_PER_MESH, MAX_TRIANGLE_INDICES, MAX_VERTICES_PER_MESH,
};

fn v(x: f32) -> f32 {
    x
}

#[test]
fn single_quad_is_one_mesh() {
    let mut mb = MeshBuilder::new();
    mb.quad([v(0.0), v(1.0), v(2.0), v(3.0)]);
    let meshes = mb.build();
    assert_eq!(meshes.len(), 1);
    assert_eq!(meshes[0].vertices.len(), 4);
    assert_eq!(meshes[0].indices, vec![0, 1, 2, 0, 2, 3]);
}

#[test]
fn empty_builder_builds_no_meshes() {
    assert!(MeshBuilder::<f32>::new().build().is_empty());
}

#[test]
fn chunks_when_indices_exceed_limit() {
    // Each quad is 4 vertices / 6 indices; 5000/6 = 833 quads per mesh.
    let mut mb = MeshBuilder::new();
    for _ in 0..834 {
        mb.quad([v(0.0), v(1.0), v(2.0), v(3.0)]);
    }
    let meshes = mb.build();
    assert_eq!(meshes.len(), 2);
    assert_eq!(meshes[0].indices.len(), 833 * 6);
    assert_eq!(meshes[1].vertices.len(), 4);
}

#[test]
fn chunks_when_vertices_exceed_limit() {
    // 100-vertex primitives with few indices: 10000/100 = 100 per mesh.
    let vertices: Vec<f32> = (0..100).map(|i| v(i as f32)).collect();
    let mut mb = MeshBuilder::new();
    for _ in 0..101 {
        mb.primitive(&vertices, &[0, 1, 2]);
    }
    let meshes = mb.build();
    assert_eq!(meshes.len(), 2);
    assert_eq!(meshes[0].vertices.len(), 10_000);
    assert_eq!(meshes[1].vertices.len(), 100);
}

#[test]
fn indices_are_rebased_per_mesh() {
    let mut mb = MeshBuilder::new();
    mb.quad([v(0.0), v(1.0), v(2.0), v(3.0)]);
    mb.quad([v(4.0), v(5.0), v(6.0), v(7.0)]);
    let meshes = mb.build();
    assert_eq!(meshes[0].indices, vec![0, 1, 2, 0, 2, 3, 4, 5, 6, 4, 6, 7]);
}

#[test]
fn fan_closed_wraps() {
    let mut mb = MeshBuilder::new();
    mb.fan(v(0.0), &[v(1.0), v(2.0), v(3.0)], true);
    let meshes = mb.build();
    assert_eq!(meshes[0].vertices.len(), 4);
    // 3 triangles, last one wraps back to rim[0]
    assert_eq!(meshes[0].indices, vec![0, 1, 2, 0, 2, 3, 0, 3, 1]);
}

#[test]
fn fan_open_does_not_wrap() {
    let mut mb = MeshBuilder::new();
    mb.fan(v(0.0), &[v(1.0), v(2.0), v(3.0)], false);
    let meshes = mb.build();
    assert_eq!(meshes[0].indices, vec![0, 1, 2, 0, 2, 3]);
}

#[test]
fn fan_with_short_rim_adds_nothing() {
    let mut mb = MeshBuilder::new();
    mb.fan(v(0.0), &[v(1.0)], true);
    assert!(mb.build().is_empty());
}

#[test]
fn strip_connects_rows() {
    let mut mb = MeshBuilder::new();
    mb.strip(&[v(0.0), v(1.0), v(2.0)], &[v(3.0), v(4.0), v(5.0)]);
    let meshes = mb.build();
    // 2 quads of 4 vertices each
    assert_eq!(meshes[0].vertices.len(), 8);
    assert_eq!(meshes[0].indices.len(), 12);
    assert_eq!(meshes[0].vertices, vec![0.0, 1.0, 4.0, 3.0, 1.0, 2.0, 5.0, 4.0]);
}

#[test]
fn meshes_respect_limits_and_keep_all_vertices() {
    let vertices: Vec<f32> = (0..333).map(|i| i as f32).collect();
    let indices: Vec<u16> = (0..300).map(|i| (i % 333) as u16).collect();
    let mut mb = MeshBuilder::new();
    for _ in 0..50 {
        mb.primitive(&vertices, &indices);
    }
    let meshes = mb.build();
    let mut total = 0;
    for m in &meshes {
        assert!(!m.vertices.is_empty());
        assert!(m.vertices.len() <= MAX_VERTICES_PER_MESH);
        assert!(m.indices.len() <= MAX_INDICES_PER_MESH);
        assert!(m.indices.iter().all(|i| (*i as usize) < m.vertices.len()));
        total += m.vertices.len();
    }
    assert_eq!(total, 333 * 50);
    // 5000 / 300 = 16 primitives per mesh by indices
    assert_eq!(meshes[0].indices.len(), 16 * 300);
}

#[test]
fn small_tessellations_stay_whole() {
    assert!(chunk_triangles::<u32>(&[], &[0, 1, 2]).is_empty());
    assert!(chunk_triangles(&[1u32, 2, 3], &[]).is_empty());
    let meshes = chunk_triangles(&[10u32, 11, 12, 13], &[0, 1, 2, 2, 3, 0, 1]);
    assert_eq!(meshes.len(), 1);
    assert_eq!(meshes[0].vertices, vec![10, 11, 12, 13]);
    // The fast path keeps the index list as it is, trailing index included.
    assert_eq!(meshes[0].indices, vec![0, 1, 2, 2, 3, 0, 1]);
}

#[test]
fn large_tessellations_split_into_whole_triangles() {
    // A fan of 3000 triangles around vertex 0: 9000 indices.
    let all: Vec<u32> = (0..3002).collect();
    let mut indices: Vec<u16> = Vec::new();
    for t in 0..3000u16 {
        indices.extend_from_slice(&[0, t + 1, t + 2]);
    }
    indices.push(5); // a partial triangle at the end is dropped
    let meshes = chunk_triangles(&all, &indices);
    let per_chunk = MAX_TRIANGLE_INDICES / 3;
    assert_eq!(MAX_TRIANGLE_INDICES, 4998);
    assert_eq!(meshes.len(), 2);
    assert_eq!(meshes[0].indices.len(), MAX_TRIANGLE_INDICES);
    assert_eq!(meshes[1].indices.len(), 9000 - MAX_TRIANGLE_INDICES);
    // Each chunk copies in the vertices it uses, in first-use order.
    assert_eq!(meshes[0].vertices.len(), per_chunk + 2);
    assert_eq!(&meshes[0].vertices[..4], &[0, 1, 2, 3]);
    assert_eq!(&meshes[0].indices[..6], &[0, 1, 2, 0, 2, 3]);
    assert_eq!(meshes[1].vertices[0], 0);
    assert_eq!(meshes[1].vertices[1], per_chunk as u32 + 1);
    assert_eq!(&meshes[1].indices[..3], &[0, 1, 2]);
    let mut drawn = 0;
    for m in &meshes {
        assert!(m.vertices.len() <= MAX_VERTICES_PER_MESH);
        assert!(m.indices.len() <= MAX_INDICES_PER_MESH);
        assert_eq!(m.indices.len() % 3, 0);
        for tri in m.indices.chunks(3) {
            // Every chunk triangle is the next source triangle.
            let src = &indices[drawn * 3..drawn * 3 + 3];
            for k in 0..3 {
                assert_eq!(m.vertices[tri[k] as usize], all[src[k] as usize]);
            }
            drawn += 1;
        }
    }
    assert_eq!(drawn, 3000);
}

#[test]
fn distinct_vertices_chunk_by_index_budget() {
    // 12000 distinct vertices in separate triangles: 4000 triangles.
    let all: Vec<u32> = (0..12000).collect();
    let indices: Vec<u16> = (0..12000u16).collect();
    let meshes = chunk_triangles(&all, &indices);
    for m in &meshes {
        assert!(m.vertices.len() <= MAX_VERTICES_PER_MESH);
        assert!(m.indices.len() <= MAX_INDICES_PER_MESH);
    }
    // Index budget closes chunks first: 1666 triangles each.
    assert_eq!(meshes.len(), 3);
    assert_eq!(meshes[0].vertices.len(), 4998);
    assert_eq!(meshes[2].vertices.len(), 12000 - 2 * 4998);
}

#[test]
fn primitives_pack_greedily() {
    let mut mb: MeshBuilder<u32> = MeshBuilder::new();
    let big: Vec<u32> = (0..9000).collect();
    mb.primitive(&big, &[0, 1, 2]);
    mb.quad([1, 2, 3, 4]); // 9004 vertices: still fits
    let mid: Vec<u32> = (0..1000).collect();
    assert!(mb.accepts(mid.len(), &[0, 999, 5]));
    mb.primitive(&mid, &[0, 999, 5]); // 10004 would not fit: a new mesh
    mb.quad([5, 6, 7, 8]);
    let meshes = mb.build();
    assert_eq!(meshes.len(), 2);
    assert_eq!(meshes[0].vertices.len(), 9004);
    assert_eq!(meshes[0].indices, vec![0, 1, 2, 9000, 9001, 9002, 9000, 9002, 9003]);
    assert_eq!(meshes[1].vertices.len(), 1004);
    assert_eq!(meshes[1].indices, vec![0, 999, 5, 1000, 1001, 1002, 1000, 1002, 1003]);
}

#[test]
fn accepts_checks_the_shifted_indices() {
    let mut mb: MeshBuilder<u32> = MeshBuilder::new();
    let many: Vec<u32> = (0..5000).collect();
    mb.primitive(&many, &[]);
    // Appended after 5000 vertices, index 60536 would become 65536.
    assert!(mb.accepts(1, &[60535]));
    assert!(!mb.accepts(1, &[60536]));
    // Too many indices for one mesh on its own.
    let too_many = vec![0u16; MAX_INDICES_PER_MESH + 1];
    assert!(!mb.accepts(1, &too_many));
    assert!(!mb.accepts(MAX_VERTICES_PER_MESH + 1, &[]));
}
