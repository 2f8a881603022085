//! Mesh assembly under draw-call limits. A renderer that silently clamps any
//! draw call above 10,000 vertices or 5,000 indices would drop geometry; the
//! builder owns those limits in one place. Primitives are appended whole and
//! a new mesh is started first whenever the next primitive would not fit.

use std::collections::HashMap;

use vstd::prelude::*;

verus! {

pub const MAX_VERTICES_PER_MESH: usize = 10000;

pub const MAX_INDICES_PER_MESH: usize = 5000;

/// One finished mesh: its vertices and triangle indices into them.
#[derive(Debug, Clone)]
pub struct MeshData<V> {
    pub vertices: Vec<V>,
    pub indices: Vec<u16>,
}

/// Accumulates primitives into meshes that respect the draw-call limits.
pub struct MeshBuilder<V> {
    vertices: Vec<V>,
    indices: Vec<u16>,
    meshes: Vec<MeshData<V>>,
}

/// The model of a builder: the finished meshes, then the vertices and indices
/// of the mesh being filled.
pub struct MeshState<V> {
    pub done: Seq<(Seq<V>, Seq<u16>)>,
    pub vertices: Seq<V>,
    pub indices: Seq<u16>,
}

pub open spec fn mesh_view<V>(m: MeshData<V>) -> (Seq<V>, Seq<u16>) {
    (m.vertices@, m.indices@)
}

impl<V> View for MeshBuilder<V> {
    type V = MeshState<V>;

    closed spec fn view(&self) -> MeshState<V> {
        MeshState {
            done: self.meshes@.map_values(|m: MeshData<V>| mesh_view(m)),
            vertices: self.vertices@,
            indices: self.indices@,
        }
    }
}

/// Close the mesh being filled, unless it has no vertex.
pub open spec fn flushed<V>(st: MeshState<V>) -> MeshState<V> {
    if st.vertices.len() == 0 {
        st
    } else {
        MeshState {
            done: st.done.push((st.vertices, st.indices)),
            vertices: Seq::empty(),
            indices: Seq::empty(),
        }
    }
}

/// Whether a primitive of `nv` vertices and `ni` indices opens a new mesh.
pub open spec fn needs_new_mesh<V>(st: MeshState<V>, nv: int, ni: int) -> bool {
    st.vertices.len() + nv > MAX_VERTICES_PER_MESH || st.indices.len() + ni > MAX_INDICES_PER_MESH
}

/// The state a primitive is appended to.
pub open spec fn before_primitive<V>(st: MeshState<V>, nv: int, ni: int) -> MeshState<V> {
    if needs_new_mesh(st, nv, ni) {
        flushed(st)
    } else {
        st
    }
}

/// Relative indices shifted by `base`.
pub open spec fn rebased(rel: Seq<u16>, base: int) -> Seq<u16> {
    rel.map_values(|i: u16| (base + i) as u16)
}

/// The state after appending a primitive.
pub open spec fn with_primitive<V>(st: MeshState<V>, vs: Seq<V>, rel: Seq<u16>) -> MeshState<V> {
    let s = before_primitive(st, vs.len() as int, rel.len() as int);
    MeshState {
        done: s.done,
        vertices: s.vertices + vs,
        indices: s.indices + rebased(rel, s.vertices.len() as int),
    }
}

/// A primitive the builder accepts in state `st`: within the limits on its
/// own, and with every shifted index still a `u16`.
pub open spec fn primitive_fits<V>(st: MeshState<V>, nv: int, rel: Seq<u16>) -> bool {
    &&& nv <= MAX_VERTICES_PER_MESH
    &&& rel.len() <= MAX_INDICES_PER_MESH
    &&& forall|k: int| 0 <= k < rel.len() ==>
        before_primitive(st, nv, rel.len() as int).vertices.len() + #[trigger] rel[k] <= u16::MAX
}

/// The indices of a triangle fan over a rim of `n` vertices placed after the
/// center vertex: triangles (0, i+1, (i+1) mod n + 1).
pub open spec fn fan_indices(n: int, closed: bool) -> Seq<u16> {
    let segments = if closed { n } else { n - 1 };
    Seq::new(
        (3 * segments) as nat,
        |k: int|
            if k % 3 == 0 {
                0u16
            } else if k % 3 == 1 {
                (k / 3 + 1) as u16
            } else {
                ((k / 3 + 1) % n + 1) as u16
            },
    )
}

/// The indices of a quad: two triangles over its corners in winding order.
pub open spec fn quad_indices() -> Seq<u16> {
    seq![0u16, 1, 2, 0, 2, 3]
}

/// The state after the quads that connect columns `0..n` of two rows.
pub open spec fn with_strip<V>(st: MeshState<V>, a: Seq<V>, b: Seq<V>, n: int) -> MeshState<V>
    decreases n,
{
    if n <= 0 {
        st
    } else {
        let j = n - 1;
        with_primitive(with_strip(st, a, b, j), seq![a[j], a[j + 1], b[j + 1], b[j]], quad_indices())
    }
}

/// Every mesh, finished or being filled, within the limits, every finished
/// mesh non-empty, and every index pointing at a vertex of its own mesh.
pub open spec fn well_formed<V>(st: MeshState<V>) -> bool {
    &&& forall|m: int| 0 <= m < st.done.len() ==> {
        &&& 0 < (#[trigger] st.done[m]).0.len() <= MAX_VERTICES_PER_MESH
        &&& st.done[m].1.len() <= MAX_INDICES_PER_MESH
        &&& forall|k: int| 0 <= k < st.done[m].1.len() ==> (#[trigger] st.done[m].1[k]) < st.done[m].0.len()
    }
    &&& st.vertices.len() <= MAX_VERTICES_PER_MESH
    &&& st.indices.len() <= MAX_INDICES_PER_MESH
    &&& forall|k: int| 0 <= k < st.indices.len() ==> (#[trigger] st.indices[k]) < st.vertices.len()
}

/// All vertices handed to the builder, in order, finished meshes first.
pub open spec fn all_vertices<V>(st: MeshState<V>) -> Seq<V> {
    st.done.map_values(|m: (Seq<V>, Seq<u16>)| m.0).flatten() + st.vertices
}

impl<V: Copy> MeshBuilder<V> {
    /// An empty builder.
    pub fn new() -> (b: Self)
        ensures
            b@.done == Seq::<(Seq<V>, Seq<u16>)>::empty(),
            b@.vertices == Seq::<V>::empty(),
            b@.indices == Seq::<u16>::empty(),
    {
        let b = MeshBuilder { vertices: Vec::new(), indices: Vec::new(), meshes: Vec::new() };
        assert(b@.done =~= Seq::<(Seq<V>, Seq<u16>)>::empty());
        b
    }

    fn flush(&mut self)
        ensures
            final(self)@ == flushed(old(self)@),
    {
        if self.vertices.len() == 0 {
            return;
        }
        let mut vertices: Vec<V> = Vec::new();
        let mut indices: Vec<u16> = Vec::new();
        std::mem::swap(&mut vertices, &mut self.vertices);
        std::mem::swap(&mut indices, &mut self.indices);
        let ghost before = self.meshes@;
        self.meshes.push(MeshData { vertices, indices });
        proof {
            assert(self@.done =~= old(self)@.done.push((old(self)@.vertices, old(self)@.indices)));
        }
    }

    /// Whether a primitive of `nv` vertices and relative indices `rel` can be
    /// appended now: within the limits on its own, and with every index
    /// still a `u16` once shifted to where the primitive would land.
    pub fn accepts(&self, nv: usize, rel: &[u16]) -> (ok: bool)
        ensures
            ok == primitive_fits(self@, nv as int, rel@),
    {
        if nv > MAX_VERTICES_PER_MESH || rel.len() > MAX_INDICES_PER_MESH {
            return false;
        }
        let base: usize = if self.vertices.len() > MAX_VERTICES_PER_MESH - nv
            || self.indices.len() > MAX_INDICES_PER_MESH - rel.len() {
            0
        } else {
            self.vertices.len()
        };
        assert(base == before_primitive(self@, nv as int, rel@.len() as int).vertices.len());
        let mut k: usize = 0;
        while k < rel.len()
            invariant
                k <= rel.len(),
                base <= MAX_VERTICES_PER_MESH,
                base == before_primitive(self@, nv as int, rel@.len() as int).vertices.len(),
                forall|j: int| 0 <= j < k ==> base + #[trigger] rel@[j] <= u16::MAX,
            decreases rel.len() - k,
        {
            if base + rel[k] as usize > 65535 {
                return false;
            }
            k = k + 1;
        }
        true
    }

    /// Append a primitive: vertices plus indices relative to its first
    /// vertex. The primitive lands whole in one mesh; a new mesh is started
    /// first when it would not fit in the current one.
    pub fn primitive(&mut self, vertices: &[V], rel_indices: &[u16])
        requires
            primitive_fits(old(self)@, vertices@.len() as int, rel_indices@),
        ensures
            final(self)@ == with_primitive(old(self)@, vertices@, rel_indices@),
    {
        if self.vertices.len() > MAX_VERTICES_PER_MESH - vertices.len()
            || self.indices.len() > MAX_INDICES_PER_MESH - rel_indices.len() {
            self.flush();
        }
        let ghost mid = self@;
        let base = self.vertices.len();
        let mut k: usize = 0;
        while k < vertices.len()
            invariant
                k <= vertices.len(),
                mid.vertices.len() + vertices@.len() <= MAX_VERTICES_PER_MESH,
                self@.done == mid.done,
                self@.indices == mid.indices,
                self@.vertices == mid.vertices + vertices@.take(k as int),
            decreases vertices.len() - k,
        {
            self.vertices.push(vertices[k]);
            proof {
                assert(self@.vertices =~= mid.vertices + vertices@.take(k + 1));
            }
            k = k + 1;
        }
        let mut k: usize = 0;
        while k < rel_indices.len()
            invariant
                k <= rel_indices.len(),
                base == mid.vertices.len(),
                forall|j: int| 0 <= j < rel_indices@.len() ==> base + #[trigger] rel_indices@[j] <= u16::MAX,
                self@.done == mid.done,
                self@.vertices == mid.vertices + vertices@,
                self@.indices == mid.indices + rebased(rel_indices@.take(k as int), base as int),
            decreases rel_indices.len() - k,
        {
            let shifted = (base + rel_indices[k] as usize) as u16;
            self.indices.push(shifted);
            proof {
                assert(self@.indices =~= mid.indices + rebased(rel_indices@.take(k + 1), base as int));
            }
            k = k + 1;
        }
        proof {
            assert(vertices@.take(vertices@.len() as int) =~= vertices@);
            assert(rel_indices@.take(rel_indices@.len() as int) =~= rel_indices@);
        }
    }

    /// Append a quad from four corners in winding order (two triangles).
    pub fn quad(&mut self, corners: [V; 4])
        requires
            primitive_fits(old(self)@, 4, quad_indices()),
        ensures
            final(self)@ == with_primitive(
                old(self)@,
                seq![corners[0], corners[1], corners[2], corners[3]],
                quad_indices(),
            ),
    {
        let vs: Vec<V> = vec![corners[0], corners[1], corners[2], corners[3]];
        let is: Vec<u16> = vec![0, 1, 2, 0, 2, 3];
        assert(vs@ =~= seq![corners[0], corners[1], corners[2], corners[3]]);
        assert(is@ =~= quad_indices());
        self.primitive(vs.as_slice(), is.as_slice());
    }

    /// Append a triangle fan: the center joined to consecutive rim vertices;
    /// `closed` also joins the last rim vertex back to the first. A rim of
    /// fewer than two vertices adds nothing.
    pub fn fan(&mut self, center: V, rim: &[V], closed: bool)
        requires
            rim@.len() >= 2 ==> primitive_fits(
                old(self)@,
                rim@.len() + 1int,
                fan_indices(rim@.len() as int, closed),
            ),
        ensures
            rim@.len() < 2 ==> final(self)@ == old(self)@,
            rim@.len() >= 2 ==> final(self)@ == with_primitive(
                old(self)@,
                seq![center] + rim@,
                fan_indices(rim@.len() as int, closed),
            ),
    {
        let n = rim.len();
        if n < 2 {
            return;
        }
        let mut vertices: Vec<V> = Vec::new();
        vertices.push(center);
        let mut k: usize = 0;
        while k < n
            invariant
                k <= n == rim@.len(),
                vertices@ == seq![center] + rim@.take(k as int),
            decreases n - k,
        {
            vertices.push(rim[k]);
            proof {
                assert(vertices@ =~= seq![center] + rim@.take(k + 1));
            }
            k = k + 1;
        }
        proof {
            assert(rim@.take(n as int) =~= rim@);
        }
        let ghost want = fan_indices(n as int, closed);
        let segments = if closed { n } else { n - 1 };
        assert(want.len() == 3 * segments);
        let mut indices: Vec<u16> = Vec::new();
        let mut i: usize = 0;
        while i < segments
            invariant
                2 <= n == rim@.len(),
                n + 1 <= MAX_VERTICES_PER_MESH,
                segments <= n,
                want == fan_indices(n as int, closed),
                want.len() == 3 * segments,
                i <= segments,
                indices@ == want.take(3 * i),
            decreases segments - i,
        {
            let next = (i + 1) % n;
            indices.push(0);
            indices.push((i + 1) as u16);
            indices.push((next + 1) as u16);
            proof {
                assert((3 * i) % 3 == 0 && (3 * i) / 3 == i) by (nonlinear_arith);
                assert((3 * i + 1) % 3 == 1 && (3 * i + 1) / 3 == i) by (nonlinear_arith);
                assert((3 * i + 2) % 3 == 2 && (3 * i + 2) / 3 == i) by (nonlinear_arith);
                assert(indices@ =~= want.take(3 * i + 3));
            }
            i = i + 1;
        }
        proof {
            assert(want.take(3 * segments as int) =~= want);
        }
        self.primitive(vertices.as_slice(), indices.as_slice());
    }

    /// Append the quads joining two rows of equal length, one per pair of
    /// adjacent columns.
    pub fn strip(&mut self, row_a: &[V], row_b: &[V])
        requires
            row_a@.len() == row_b@.len(),
        ensures
            final(self)@ == with_strip(old(self)@, row_a@, row_b@, row_a@.len() - 1),
    {
        let n = row_a.len();
        let mut j: usize = 0;
        while j + 1 < n
            invariant
                n == row_a@.len() == row_b@.len(),
                j < n || j == 0,
                self@ == with_strip(old(self)@, row_a@, row_b@, j as int),
            decreases n - j,
        {
            proof {
                lemma_quad_always_fits(self@);
            }
            self.quad([row_a[j], row_a[j + 1], row_b[j + 1], row_b[j]]);
            j = j + 1;
        }
    }

    /// Finish: close the mesh being filled and return all meshes in order.
    pub fn build(self) -> (meshes: Vec<MeshData<V>>)
        ensures
            meshes@.map_values(|m: MeshData<V>| mesh_view(m)) == flushed(self@).done,
    {
        let mut b = self;
        b.flush();
        b.meshes
    }
}

/// A quad fits any builder state: it needs only four vertices and six small
/// indices, and a new mesh is opened when the current one is too full.
pub proof fn lemma_quad_always_fits<V>(st: MeshState<V>)
    ensures
        primitive_fits(st, 4, quad_indices()),
{
    let s = before_primitive(st, 4, 6);
    assert(s.vertices.len() + 4 <= MAX_VERTICES_PER_MESH);
}

/// Closing the current mesh keeps every vertex, in order.
pub proof fn lemma_flush_keeps_vertices<V>(st: MeshState<V>)
    ensures
        all_vertices(flushed(st)) == all_vertices(st),
{
    if st.vertices.len() > 0 {
        let f = |m: (Seq<V>, Seq<u16>)| m.0;
        st.done.lemma_push_map_commute(f, (st.vertices, st.indices));
        st.done.map_values(f).lemma_flatten_push(st.vertices);
        assert(all_vertices(flushed(st)) =~= all_vertices(st));
    }
}

/// No geometry is dropped: appending a primitive appends exactly its
/// vertices to everything the builder holds, in order.
pub proof fn lemma_primitive_keeps_vertices<V>(st: MeshState<V>, vs: Seq<V>, rel: Seq<u16>)
    ensures
        all_vertices(with_primitive(st, vs, rel)) == all_vertices(st) + vs,
{
    let s = before_primitive(st, vs.len() as int, rel.len() as int);
    lemma_flush_keeps_vertices(st);
    assert(all_vertices(s) == all_vertices(st));
    assert(all_vertices(with_primitive(st, vs, rel)) =~= all_vertices(s) + vs);
}

/// An empty builder is well formed.
pub proof fn lemma_empty_well_formed<V>()
    ensures
        well_formed(MeshState::<V> { done: Seq::empty(), vertices: Seq::empty(), indices: Seq::empty() }),
{
}

/// Closing the current mesh keeps the builder well formed.
pub proof fn lemma_flush_well_formed<V>(st: MeshState<V>)
    requires
        well_formed(st),
    ensures
        well_formed(flushed(st)),
{
    if st.vertices.len() > 0 {
        let f = flushed(st);
        assert forall|m: int| 0 <= m < f.done.len() implies {
            &&& 0 < (#[trigger] f.done[m]).0.len() <= MAX_VERTICES_PER_MESH
            &&& f.done[m].1.len() <= MAX_INDICES_PER_MESH
            &&& forall|k: int| 0 <= k < f.done[m].1.len() ==> (#[trigger] f.done[m].1[k]) < f.done[m].0.len()
        } by {
            if m < st.done.len() {
                assert(f.done[m] == st.done[m]);
            }
        }
    }
}

/// Appending a primitive whose relative indices all point at its own
/// vertices keeps the builder well formed: no mesh ever exceeds the limits,
/// and every index stays inside its mesh.
pub proof fn lemma_primitive_well_formed<V>(st: MeshState<V>, vs: Seq<V>, rel: Seq<u16>)
    requires
        well_formed(st),
        primitive_fits(st, vs.len() as int, rel),
        forall|k: int| 0 <= k < rel.len() ==> (#[trigger] rel[k]) < vs.len(),
    ensures
        well_formed(with_primitive(st, vs, rel)),
{
    let s = before_primitive(st, vs.len() as int, rel.len() as int);
    if needs_new_mesh(st, vs.len() as int, rel.len() as int) {
        lemma_flush_well_formed(st);
    }
    assert(well_formed(s));
    let w = with_primitive(st, vs, rel);
    let base = s.vertices.len() as int;
    assert(s.vertices.len() + vs.len() <= MAX_VERTICES_PER_MESH);
    assert(s.indices.len() + rel.len() <= MAX_INDICES_PER_MESH) by {
        if !needs_new_mesh(st, vs.len() as int, rel.len() as int) {
        } else if st.vertices.len() == 0 {
            // indices never outnumber an empty mesh's vertices in a
            // well-formed state, so the current mesh has no index
            if st.indices.len() > 0 {
                assert(st.indices[0] < st.vertices.len());
            }
        }
    }
    assert forall|k: int| 0 <= k < w.indices.len() implies (#[trigger] w.indices[k]) < w.vertices.len() by {
        if k < s.indices.len() {
            assert(w.indices[k] == s.indices[k]);
        } else {
            let j = k - s.indices.len();
            assert(w.indices[k] == rebased(rel, base)[j]);
            assert(base + rel[j] <= u16::MAX);
        }
    }
}

// ---------------------------------------------------------------- triangle chunking

/// Index budget of a chunk of whole triangles.
pub const MAX_TRIANGLE_INDICES: usize = (MAX_INDICES_PER_MESH / 3) * 3;

/// The model of a chunking pass: the finished chunks, the chunk being filled
/// (its vertices and indices), and where each source vertex landed in it.
pub struct ChunkState<V> {
    pub done: Seq<(Seq<V>, Seq<u16>)>,
    pub vertices: Seq<V>,
    pub indices: Seq<u16>,
    pub map: Map<u16, u16>,
}

pub open spec fn empty_chunks<V>() -> ChunkState<V> {
    ChunkState { done: Seq::empty(), vertices: Seq::empty(), indices: Seq::empty(), map: Map::empty() }
}

/// How many corners of a triangle name a source vertex the chunk lacks (a
/// repeated corner counts each time).
pub open spec fn unmapped_count(map: Map<u16, u16>, tri: Seq<u16>) -> int {
    (if map.contains_key(tri[0]) { 0int } else { 1int }) + (if map.contains_key(tri[1]) {
        0int
    } else {
        1int
    }) + (if map.contains_key(tri[2]) { 0int } else { 1int })
}

/// Add one corner: reuse the chunk's copy of the source vertex, or copy it
/// in at the end of the chunk.
pub open spec fn chunk_corner<V>(st: ChunkState<V>, all: Seq<V>, idx: u16) -> ChunkState<V> {
    if st.map.contains_key(idx) {
        ChunkState { indices: st.indices.push(st.map[idx]), ..st }
    } else {
        let n = st.vertices.len() as u16;
        ChunkState {
            vertices: st.vertices.push(all[idx as int]),
            indices: st.indices.push(n),
            map: st.map.insert(idx, n),
            ..st
        }
    }
}

/// Add one triangle, first closing the chunk when the triangle's new
/// vertices or its three indices would not fit.
pub open spec fn chunk_triangle<V>(st: ChunkState<V>, all: Seq<V>, tri: Seq<u16>) -> ChunkState<V> {
    let s = if st.vertices.len() + unmapped_count(st.map, tri) > MAX_VERTICES_PER_MESH
        || st.indices.len() + 3 > MAX_TRIANGLE_INDICES {
        ChunkState {
            done: st.done.push((st.vertices, st.indices)),
            vertices: Seq::empty(),
            indices: Seq::empty(),
            map: Map::empty(),
        }
    } else {
        st
    };
    chunk_corner(chunk_corner(chunk_corner(s, all, tri[0]), all, tri[1]), all, tri[2])
}

/// The chunking pass after the first `t` triangles.
pub open spec fn chunk_run<V>(all: Seq<V>, indices: Seq<u16>, t: nat) -> ChunkState<V>
    decreases t,
{
    if t == 0 {
        empty_chunks()
    } else {
        let k = (t - 1) as int;
        chunk_triangle(chunk_run(all, indices, (t - 1) as nat), all, indices.subrange(3 * k, 3 * k + 3))
    }
}

/// The meshes that a tessellation (`all` vertices, triangle `indices`)
/// becomes: nothing when either is empty, one mesh when it fits the limits,
/// and otherwise chunks of whole triangles (a trailing partial triangle is
/// dropped), each with its own copies of the vertices it uses.
pub open spec fn chunked<V>(all: Seq<V>, indices: Seq<u16>) -> Seq<(Seq<V>, Seq<u16>)> {
    if all.len() == 0 || indices.len() == 0 {
        Seq::empty()
    } else if all.len() <= MAX_VERTICES_PER_MESH && indices.len() <= MAX_INDICES_PER_MESH {
        seq![(all, indices)]
    } else {
        let st = chunk_run(all, indices, indices.len() / 3);
        if st.indices.len() > 0 {
            st.done.push((st.vertices, st.indices))
        } else {
            st.done
        }
    }
}

/// The chunk state is consistent: the chunk being filled is within the
/// vertex limit, and every mapped source vertex has its copy in the chunk.
pub open spec fn chunk_consistent<V>(st: ChunkState<V>, all: Seq<V>) -> bool {
    &&& st.vertices.len() <= MAX_VERTICES_PER_MESH
    &&& forall|k: u16| #[trigger] st.map.contains_key(k) ==> {
        &&& st.map[k] < st.vertices.len()
        &&& 0 <= k < all.len()
        &&& st.vertices[st.map[k] as int] == all[k as int]
    }
}

proof fn lemma_chunk_corner_consistent<V>(st: ChunkState<V>, all: Seq<V>, idx: u16)
    requires
        chunk_consistent(st, all),
        idx < all.len(),
        st.map.contains_key(idx) || st.vertices.len() < MAX_VERTICES_PER_MESH,
    ensures
        chunk_consistent(chunk_corner(st, all, idx), all),
        chunk_corner(st, all, idx).vertices.len() == st.vertices.len() + if st.map.contains_key(idx) {
            0int
        } else {
            1int
        },
        forall|k: u16| st.map.contains_key(k) ==> #[trigger] chunk_corner(st, all, idx).map.contains_key(k),
{
    let r = chunk_corner(st, all, idx);
    if !st.map.contains_key(idx) {
        assert forall|k: u16| #[trigger] r.map.contains_key(k) implies {
            &&& r.map[k] < r.vertices.len()
            &&& 0 <= k < all.len()
            &&& r.vertices[r.map[k] as int] == all[k as int]
        } by {
            if k != idx {
                assert(st.map.contains_key(k));
            }
        }
    }
}

proof fn lemma_chunk_triangle_consistent<V>(st: ChunkState<V>, all: Seq<V>, tri: Seq<u16>)
    requires
        chunk_consistent(st, all),
        tri.len() == 3,
        forall|k: int| 0 <= k < 3 ==> #[trigger] tri[k] < all.len(),
    ensures
        chunk_consistent(chunk_triangle(st, all, tri), all),
{
    let s = if st.vertices.len() + unmapped_count(st.map, tri) > MAX_VERTICES_PER_MESH
        || st.indices.len() + 3 > MAX_TRIANGLE_INDICES {
        ChunkState {
            done: st.done.push((st.vertices, st.indices)),
            vertices: Seq::<V>::empty(),
            indices: Seq::<u16>::empty(),
            map: Map::<u16, u16>::empty(),
        }
    } else {
        st
    };
    assert(s.vertices.len() + unmapped_count(s.map, tri) <= MAX_VERTICES_PER_MESH);
    assert(tri[0] < all.len() && tri[1] < all.len() && tri[2] < all.len());
    lemma_chunk_corner_consistent(s, all, tri[0]);
    let s1 = chunk_corner(s, all, tri[0]);
    lemma_chunk_corner_consistent(s1, all, tri[1]);
    let s2 = chunk_corner(s1, all, tri[1]);
    lemma_chunk_corner_consistent(s2, all, tri[2]);
}

/// The vertices a mesh draws, corner by corner.
pub open spec fn resolved<V>(vertices: Seq<V>, indices: Seq<u16>) -> Seq<V> {
    indices.map_values(|j: u16| vertices[j as int])
}

/// Everything drawn by the chunks of a state, corner by corner, in order.
pub open spec fn drawn<V>(st: ChunkState<V>) -> Seq<V> {
    st.done.map_values(|m: (Seq<V>, Seq<u16>)| resolved(m.0, m.1)).flatten() + resolved(
        st.vertices,
        st.indices,
    )
}

/// A mesh within the limits for triangle chunks, non-empty, and with every
/// index inside it.
pub open spec fn chunk_ok<V>(vertices: Seq<V>, indices: Seq<u16>) -> bool {
    &&& vertices.len() <= MAX_VERTICES_PER_MESH
    &&& indices.len() <= MAX_TRIANGLE_INDICES
    &&& forall|k: int| 0 <= k < indices.len() ==> #[trigger] indices[k] < vertices.len()
}

pub open spec fn chunk_sound<V>(st: ChunkState<V>, all: Seq<V>) -> bool {
    &&& chunk_consistent(st, all)
    &&& chunk_ok(st.vertices, st.indices)
    &&& st.vertices.len() <= st.indices.len()
    &&& forall|m: int| 0 <= m < st.done.len() ==> chunk_ok((#[trigger] st.done[m]).0, st.done[m].1)
        && st.done[m].1.len() > 0
}

proof fn lemma_resolved_extend<V>(vs: Seq<V>, is: Seq<u16>, x: V)
    requires
        forall|k: int| 0 <= k < is.len() ==> #[trigger] is[k] < vs.len(),
    ensures
        resolved(vs.push(x), is) == resolved(vs, is),
{
    assert(resolved(vs.push(x), is) =~= resolved(vs, is));
}

proof fn lemma_corner_drawn<V>(st: ChunkState<V>, all: Seq<V>, idx: u16)
    requires
        chunk_sound(st, all),
        st.indices.len() < MAX_TRIANGLE_INDICES,
        idx < all.len(),
        st.map.contains_key(idx) || st.vertices.len() < MAX_VERTICES_PER_MESH,
    ensures
        chunk_sound(chunk_corner(st, all, idx), all),
        drawn(chunk_corner(st, all, idx)) == drawn(st).push(all[idx as int]),
        chunk_corner(st, all, idx).done == st.done,
        chunk_corner(st, all, idx).indices.len() == st.indices.len() + 1,
{
    let r = chunk_corner(st, all, idx);
    lemma_chunk_corner_consistent(st, all, idx);
    if st.map.contains_key(idx) {
        assert(resolved(r.vertices, r.indices) =~= resolved(st.vertices, st.indices).push(all[idx as int]));
    } else {
        lemma_resolved_extend(st.vertices, st.indices, all[idx as int]);
        assert(resolved(r.vertices, r.indices) =~= resolved(st.vertices, st.indices).push(all[idx as int]));
    }
    assert(drawn(r) =~= drawn(st).push(all[idx as int]));
    assert forall|k: int| 0 <= k < r.indices.len() implies #[trigger] r.indices[k] < r.vertices.len() by {
        if k < st.indices.len() {
            assert(r.indices[k] == st.indices[k]);
        }
    }
}

proof fn lemma_triangle_drawn<V>(st: ChunkState<V>, all: Seq<V>, tri: Seq<u16>)
    requires
        chunk_sound(st, all),
        tri.len() == 3,
        forall|k: int| 0 <= k < 3 ==> #[trigger] tri[k] < all.len(),
    ensures
        chunk_sound(chunk_triangle(st, all, tri), all),
        drawn(chunk_triangle(st, all, tri)) == drawn(st) + seq![
            all[tri[0] as int],
            all[tri[1] as int],
            all[tri[2] as int],
        ],
{
    let full = st.vertices.len() + unmapped_count(st.map, tri) > MAX_VERTICES_PER_MESH
        || st.indices.len() + 3 > MAX_TRIANGLE_INDICES;
    let s = if full {
        ChunkState {
            done: st.done.push((st.vertices, st.indices)),
            vertices: Seq::<V>::empty(),
            indices: Seq::<u16>::empty(),
            map: Map::<u16, u16>::empty(),
        }
    } else {
        st
    };
    assert(tri[0] < all.len() && tri[1] < all.len() && tri[2] < all.len());
    if full {
        let f = |m: (Seq<V>, Seq<u16>)| resolved(m.0, m.1);
        st.done.lemma_push_map_commute(f, (st.vertices, st.indices));
        st.done.map_values(f).lemma_flatten_push(resolved(st.vertices, st.indices));
        assert(resolved(s.vertices, s.indices) =~= Seq::<V>::empty());
        assert(drawn(s) =~= drawn(st));
        // a chunk is only closed when it holds something
        assert(st.indices.len() > 0);
        assert forall|m: int| 0 <= m < s.done.len() implies chunk_ok((#[trigger] s.done[m]).0, s.done[m].1)
            && s.done[m].1.len() > 0 by {
            if m < st.done.len() {
                assert(s.done[m] == st.done[m]);
            }
        }
    }
    assert(chunk_sound(s, all));
    assert(s.vertices.len() + unmapped_count(s.map, tri) <= MAX_VERTICES_PER_MESH);
    assert(s.indices.len() + 3 <= MAX_TRIANGLE_INDICES);
    lemma_corner_drawn(s, all, tri[0]);
    let s1 = chunk_corner(s, all, tri[0]);
    lemma_corner_drawn(s1, all, tri[1]);
    let s2 = chunk_corner(s1, all, tri[1]);
    lemma_corner_drawn(s2, all, tri[2]);
    assert(drawn(chunk_triangle(st, all, tri)) =~= drawn(st) + seq![
        all[tri[0] as int],
        all[tri[1] as int],
        all[tri[2] as int],
    ]);
}

/// After `t` triangles the chunking pass is sound and has drawn exactly
/// those triangles' corners, in order.
pub proof fn lemma_chunk_run_sound<V>(all: Seq<V>, indices: Seq<u16>, t: nat)
    requires
        3 * t <= indices.len(),
        forall|k: int| 0 <= k < 3 * t ==> #[trigger] indices[k] < all.len(),
    ensures
        chunk_sound(chunk_run(all, indices, t), all),
        drawn(chunk_run(all, indices, t)) == indices.take(3 * t as int).map_values(|i: u16| all[i as int]),
    decreases t,
{
    let g = |i: u16| all[i as int];
    if t == 0 {
        let e = empty_chunks::<V>();
        assert(e.done.map_values(|m: (Seq<V>, Seq<u16>)| resolved(m.0, m.1)) =~= Seq::<Seq<V>>::empty());
        assert(drawn(e) =~= indices.take(0).map_values(g));
    } else {
        let k = (t - 1) as int;
        lemma_chunk_run_sound(all, indices, (t - 1) as nat);
        let tri = indices.subrange(3 * k, 3 * k + 3);
        assert(tri[0] == indices[3 * k] && tri[1] == indices[3 * k + 1] && tri[2] == indices[3 * k + 2]);
        lemma_triangle_drawn(chunk_run(all, indices, (t - 1) as nat), all, tri);
        assert(indices.take(3 * t as int).map_values(g) =~= indices.take(3 * k).map_values(g) + seq![
            all[tri[0] as int],
            all[tri[1] as int],
            all[tri[2] as int],
        ]);
    }
}

/// Chunking a valid tessellation loses nothing and respects the limits:
/// every mesh is non-empty, within 10,000 vertices and 5,000 indices, every
/// index points inside its own mesh, and the meshes together draw exactly
/// the input triangles, corner by corner and in order (a trailing partial
/// triangle is dropped when the input must be split).
pub proof fn lemma_chunked_draws_same_triangles<V>(all: Seq<V>, indices: Seq<u16>)
    requires
        forall|k: int| 0 <= k < indices.len() ==> #[trigger] indices[k] < all.len(),
    ensures
        forall|m: int| 0 <= m < chunked(all, indices).len() ==> {
            &&& (#[trigger] chunked(all, indices)[m]).0.len() <= MAX_VERTICES_PER_MESH
            &&& chunked(all, indices)[m].1.len() <= MAX_INDICES_PER_MESH
            &&& chunked(all, indices)[m].1.len() > 0
            &&& forall|j: int| 0 <= j < chunked(all, indices)[m].1.len() ==>
                (#[trigger] chunked(all, indices)[m].1[j]) < chunked(all, indices)[m].0.len()
        },
        chunked(all, indices).map_values(|m: (Seq<V>, Seq<u16>)| resolved(m.0, m.1)).flatten()
            == indices.take(
            if all.len() <= MAX_VERTICES_PER_MESH && indices.len() <= MAX_INDICES_PER_MESH {
                indices.len() as int
            } else {
                3 * (indices.len() / 3) as int
            },
        ).map_values(|i: u16| all[i as int]),
{
    let f = |m: (Seq<V>, Seq<u16>)| resolved(m.0, m.1);
    let g = |i: u16| all[i as int];
    let c = chunked(all, indices);
    if all.len() == 0 || indices.len() == 0 {
        if indices.len() > 0 {
            assert(indices[0] < all.len());
        }
        assert(c.map_values(f) =~= Seq::<Seq<V>>::empty());
        assert(indices.take(0) =~= indices);
        assert(indices.take(3 * (indices.len() / 3) as int) =~= indices);
        assert(indices.map_values(g) =~= Seq::<V>::empty());
    } else if all.len() <= MAX_VERTICES_PER_MESH && indices.len() <= MAX_INDICES_PER_MESH {
        assert(c.map_values(f) =~= seq![resolved(all, indices)]);
        seq![resolved(all, indices)].lemma_flatten_one_element();
        assert(indices.take(indices.len() as int) =~= indices);
        assert(resolved(all, indices) =~= indices.map_values(g));
    } else {
        let t = indices.len() / 3;
        assert(3 * t <= indices.len());
        lemma_chunk_run_sound(all, indices, t);
        let st = chunk_run(all, indices, t);
        let sf = st.done.map_values(f);
        if st.indices.len() > 0 {
            st.done.lemma_push_map_commute(f, (st.vertices, st.indices));
            sf.lemma_flatten_push(resolved(st.vertices, st.indices));
            assert forall|m: int| 0 <= m < c.len() implies {
                &&& (#[trigger] c[m]).0.len() <= MAX_VERTICES_PER_MESH
                &&& c[m].1.len() <= MAX_INDICES_PER_MESH
                &&& c[m].1.len() > 0
                &&& forall|j: int| 0 <= j < c[m].1.len() ==> (#[trigger] c[m].1[j]) < c[m].0.len()
            } by {
                if m < st.done.len() {
                    assert(c[m] == st.done[m]);
                    assert(chunk_ok(st.done[m].0, st.done[m].1));
                }
            }
        } else {
            assert(resolved(st.vertices, st.indices) =~= Seq::<V>::empty());
            assert(drawn(st) =~= sf.flatten());
            assert forall|m: int| 0 <= m < c.len() implies {
                &&& (#[trigger] c[m]).0.len() <= MAX_VERTICES_PER_MESH
                &&& c[m].1.len() <= MAX_INDICES_PER_MESH
                &&& c[m].1.len() > 0
                &&& forall|j: int| 0 <= j < c[m].1.len() ==> (#[trigger] c[m].1[j]) < c[m].0.len()
            } by {
                assert(chunk_ok(st.done[m].0, st.done[m].1));
            }
        }
    }
}

/// Split a tessellation into meshes within the draw-call limits.
pub fn chunk_triangles<V: Copy>(all: &[V], indices: &[u16]) -> (meshes: Vec<MeshData<V>>)
    requires
        !(all@.len() == 0 || indices@.len() == 0 || (all@.len() <= MAX_VERTICES_PER_MESH
            && indices@.len() <= MAX_INDICES_PER_MESH)) ==> forall|k: int|
            0 <= k < 3 * (indices@.len() / 3) ==> #[trigger] indices@[k] < all@.len(),
    ensures
        meshes@.map_values(|m: MeshData<V>| mesh_view(m)) == chunked(all@, indices@),
{
    broadcast use vstd::std_specs::hash::group_hash_axioms;

    if all.len() == 0 || indices.len() == 0 {
        let meshes: Vec<MeshData<V>> = Vec::new();
        assert(meshes@.map_values(|m: MeshData<V>| mesh_view(m)) =~= chunked(all@, indices@));
        return meshes;
    }
    if all.len() <= MAX_VERTICES_PER_MESH && indices.len() <= MAX_INDICES_PER_MESH {
        let mut meshes: Vec<MeshData<V>> = Vec::new();
        meshes.push(MeshData { vertices: copy_slice(all), indices: copy_slice(indices) });
        assert(meshes@.map_values(|m: MeshData<V>| mesh_view(m)) =~= chunked(all@, indices@));
        return meshes;
    }
    let triangles = indices.len() / 3;
    let mut meshes: Vec<MeshData<V>> = Vec::new();
    let mut map: HashMap<u16, u16> = HashMap::new();
    let mut chunk_vertices: Vec<V> = Vec::new();
    let mut chunk_indices: Vec<u16> = Vec::new();
    let mut t: usize = 0;
    proof {
        assert(meshes@.map_values(|m: MeshData<V>| mesh_view(m)) =~= Seq::<(Seq<V>, Seq<u16>)>::empty());
        assert(map@ =~= Map::<u16, u16>::empty());
    }
    while t < triangles
        invariant
            t <= triangles == indices@.len() / 3,
            forall|k: int| 0 <= k < 3 * (indices@.len() / 3) ==> #[trigger] indices@[k] < all@.len(),
            chunk_run(all@, indices@, t as nat) == (ChunkState {
                done: meshes@.map_values(|m: MeshData<V>| mesh_view(m)),
                vertices: chunk_vertices@,
                indices: chunk_indices@,
                map: map@,
            }),
            chunk_consistent(chunk_run(all@, indices@, t as nat), all@),
        decreases triangles - t,
    {
        assert(3 * t + 3 <= indices.len()) by (nonlinear_arith)
            requires
                t < triangles,
                triangles == indices.len() / 3,
        ;
        let ghost st = chunk_run(all@, indices@, t as nat);
        let ghost tri = indices@.subrange(3 * t as int, 3 * t + 3);
        proof {
            assert(tri[0] == indices@[3 * t as int]);
            assert(tri[1] == indices@[3 * t + 1]);
            assert(tri[2] == indices@[3 * t + 2]);
            lemma_chunk_triangle_consistent(st, all@, tri);
        }
        let a = indices[3 * t];
        let b = indices[3 * t + 1];
        let c = indices[3 * t + 2];
        let mut fresh: usize = 0;
        if !map.contains_key(&a) {
            fresh = fresh + 1;
        }
        if !map.contains_key(&b) {
            fresh = fresh + 1;
        }
        if !map.contains_key(&c) {
            fresh = fresh + 1;
        }
        assert(fresh == unmapped_count(st.map, tri));
        if chunk_vertices.len() + fresh > MAX_VERTICES_PER_MESH || chunk_indices.len() + 3 > MAX_TRIANGLE_INDICES {
            let mut v: Vec<V> = Vec::new();
            let mut i: Vec<u16> = Vec::new();
            std::mem::swap(&mut v, &mut chunk_vertices);
            std::mem::swap(&mut i, &mut chunk_indices);
            let ghost before = meshes@;
            meshes.push(MeshData { vertices: v, indices: i });
            map.clear();
            proof {
                assert(meshes@.map_values(|m: MeshData<V>| mesh_view(m)) =~= st.done.push((st.vertices, st.indices)));
            }
        }
        let ghost s0 = ChunkState {
            done: meshes@.map_values(|m: MeshData<V>| mesh_view(m)),
            vertices: chunk_vertices@,
            indices: chunk_indices@,
            map: map@,
        };
        proof {
            lemma_chunk_corner_consistent(s0, all@, a);
        }
        add_corner(all, &mut chunk_vertices, &mut chunk_indices, &mut map, a);
        proof {
            lemma_chunk_corner_consistent(chunk_corner(s0, all@, a), all@, b);
        }
        add_corner(all, &mut chunk_vertices, &mut chunk_indices, &mut map, b);
        proof {
            lemma_chunk_corner_consistent(chunk_corner(chunk_corner(s0, all@, a), all@, b), all@, c);
        }
        add_corner(all, &mut chunk_vertices, &mut chunk_indices, &mut map, c);
        proof {
            assert(indices@.subrange(3 * t as int, 3 * t + 3) == tri);
            assert((t + 1 - 1) as int == t as int);
        }
        t = t + 1;
    }
    if chunk_indices.len() > 0 {
        let ghost before = meshes@;
        meshes.push(MeshData { vertices: chunk_vertices, indices: chunk_indices });
        proof {
            assert(meshes@.map_values(|m: MeshData<V>| mesh_view(m)) =~= before.map_values(
                |m: MeshData<V>| mesh_view(m),
            ).push((chunk_vertices@, chunk_indices@)));
        }
    }
    meshes
}

/// Add one corner to the chunk being filled (see `chunk_corner`).
fn add_corner<V: Copy>(
    all: &[V],
    vertices: &mut Vec<V>,
    indices: &mut Vec<u16>,
    map: &mut HashMap<u16, u16>,
    idx: u16,
)
    requires
        idx < all@.len(),
        old(map)@.contains_key(idx) || old(vertices)@.len() < MAX_VERTICES_PER_MESH,
    ensures
        ({
            let r = chunk_corner(
                ChunkState {
                    done: Seq::<(Seq<V>, Seq<u16>)>::empty(),
                    vertices: old(vertices)@,
                    indices: old(indices)@,
                    map: old(map)@,
                },
                all@,
                idx,
            );
            &&& final(vertices)@ == r.vertices
            &&& final(indices)@ == r.indices
            &&& final(map)@ == r.map
        }),
{
    broadcast use vstd::std_specs::hash::group_hash_axioms;

    match map.get(&idx) {
        Some(m) => {
            indices.push(*m);
        },
        None => {
            let n = vertices.len() as u16;
            vertices.push(all[idx as usize]);
            indices.push(n);
            map.insert(idx, n);
        },
    }
}

/// A copy of a slice of `Copy` values.
fn copy_slice<T: Copy>(s: &[T]) -> (v: Vec<T>)
    ensures
        v@ == s@,
{
    let mut v: Vec<T> = Vec::new();
    let mut i: usize = 0;
    while i < s.len()
        invariant
            i <= s.len(),
            v@ == s@.take(i as int),
        decreases s.len() - i,
    {
        v.push(s[i]);
        proof {
            assert(v@ =~= s@.take(i + 1));
        }
        i = i + 1;
    }
    assert(s@.take(s.len() as int) =~= s@);
    v
}

} // verus!
