//! The packing law of the mesh builder over a whole sequence of primitives:
//! meshes are runs of consecutive primitives, a new mesh starts exactly when
//! the next primitive would not fit the current one, and every mesh holds
//! its primitives' vertices with their indices shifted by their offsets.

use vstd::prelude::*;

use crate::mesh::{
    flushed, needs_new_mesh, rebased, with_primitive, MeshState, MAX_INDICES_PER_MESH,
    MAX_VERTICES_PER_MESH,
};

verus! {

/// A primitive as handed to the builder: its vertices and the indices
/// relative to its first vertex.
pub type Primitive<V> = (Seq<V>, Seq<u16>);

/// A primitive with at least one vertex, within the limits on its own. (Its
/// relative indices may be anything; a primitive without vertices is left
/// out, as closing a mesh that has no vertex keeps its indices pending.)
pub open spec fn drawable<V>(p: Primitive<V>) -> bool {
    &&& 1 <= p.0.len() <= MAX_VERTICES_PER_MESH
    &&& p.1.len() <= MAX_INDICES_PER_MESH
}

/// The builder state after appending `prims` in order to a new builder.
pub open spec fn packed<V>(prims: Seq<Primitive<V>>) -> MeshState<V>
    decreases prims.len(),
{
    if prims.len() == 0 {
        MeshState { done: Seq::empty(), vertices: Seq::empty(), indices: Seq::empty() }
    } else {
        let p = prims.last();
        with_primitive(packed(prims.drop_last()), p.0, p.1)
    }
}

/// The vertices of a run of primitives, one after the other.
pub open spec fn group_vertices<V>(g: Seq<Primitive<V>>) -> Seq<V>
    decreases g.len(),
{
    if g.len() == 0 {
        Seq::empty()
    } else {
        group_vertices(g.drop_last()) + g.last().0
    }
}

/// The indices of a run of primitives: each primitive's relative indices
/// shifted by the number of vertices before it in the run.
pub open spec fn group_indices<V>(g: Seq<Primitive<V>>) -> Seq<u16>
    decreases g.len(),
{
    if g.len() == 0 {
        Seq::empty()
    } else {
        group_indices(g.drop_last()) + rebased(g.last().1, group_vertices(g.drop_last()).len() as int)
    }
}

/// The mesh a run of primitives makes.
pub open spec fn group_mesh<V>(g: Seq<Primitive<V>>) -> (Seq<V>, Seq<u16>) {
    (group_vertices(g), group_indices(g))
}

/// Whether a run of primitives fits one mesh.
pub open spec fn group_fits<V>(g: Seq<Primitive<V>>) -> bool {
    group_vertices(g).len() <= MAX_VERTICES_PER_MESH && group_indices(g).len() <= MAX_INDICES_PER_MESH
}

/// The run of primitives `cuts[j]..cuts[j + 1]`.
pub open spec fn run_of<V>(prims: Seq<Primitive<V>>, cuts: Seq<int>, j: int) -> Seq<Primitive<V>> {
    prims.subrange(cuts[j], cuts[j + 1])
}

/// `cuts` splits `prims` greedily into runs: consecutive, non-empty, each
/// fitting one mesh, and each (but the last) closed exactly because the
/// next primitive would not fit.
pub open spec fn greedy_cuts<V>(prims: Seq<Primitive<V>>, cuts: Seq<int>) -> bool {
    &&& cuts.len() >= 1
    &&& cuts[0] == 0
    &&& cuts.last() == prims.len()
    &&& forall|j: int| 0 <= j < cuts.len() ==> 0 <= #[trigger] cuts[j] <= prims.len()
    &&& forall|j: int| 0 <= j < cuts.len() - 1 ==> #[trigger] cuts[j] < cuts[j + 1]
    &&& forall|j: int| 0 <= j < cuts.len() - 1 ==> group_fits(#[trigger] run_of(prims, cuts, j))
    &&& forall|j: int|
        0 <= j < cuts.len() - 2 ==> !group_fits(prims.subrange(cuts[j], #[trigger] cuts[j + 1] + 1))
}

proof fn lemma_group_push<V>(g: Seq<Primitive<V>>, p: Primitive<V>)
    ensures
        group_vertices(g.push(p)) == group_vertices(g) + p.0,
        group_indices(g.push(p)) == group_indices(g) + rebased(p.1, group_vertices(g).len() as int),
        group_indices(g.push(p)).len() == group_indices(g).len() + p.1.len(),
{
    assert(g.push(p).drop_last() =~= g);
}

/// `cuts` splits `prims` greedily and the builder state after `prims` is
/// the finished runs, then the last run being filled.
spec fn packed_as_runs<V>(prims: Seq<Primitive<V>>, cuts: Seq<int>) -> bool {
    &&& greedy_cuts(prims, cuts)
    &&& prims.len() == 0 ==> cuts.len() == 1 && packed(prims).vertices.len() == 0
        && packed(prims).done.len() == 0
    &&& prims.len() > 0 ==> cuts.len() >= 2 && packed(prims).done == Seq::new(
        (cuts.len() - 2) as nat,
        |j: int| group_mesh(run_of(prims, cuts, j)),
    ) && packed(prims).vertices == group_vertices(run_of(prims, cuts, cuts.len() - 2))
        && packed(prims).indices == group_indices(run_of(prims, cuts, cuts.len() - 2))
    &&& forall|j: int| 0 <= j < cuts.len() - 1 ==> group_vertices(#[trigger] run_of(prims, cuts, j)).len() > 0
}

/// Runs that end inside a prefix are the same in the whole sequence.
proof fn lemma_prefix_runs<V>(prims: Seq<Primitive<V>>, cuts: Seq<int>)
    requires
        prims.len() >= 1,
        greedy_cuts(prims.drop_last(), cuts),
    ensures
        forall|j: int|
            0 <= j < cuts.len() - 1 ==> #[trigger] run_of(prims, cuts, j) == run_of(prims.drop_last(), cuts, j),
        forall|j: int|
            0 <= j < cuts.len() - 2 ==> prims.subrange(cuts[j], #[trigger] cuts[j + 1] + 1)
                == prims.drop_last().subrange(cuts[j], cuts[j + 1] + 1),
{
    let q = prims.drop_last();
    assert forall|j: int| 0 <= j < cuts.len() - 1 implies #[trigger] run_of(prims, cuts, j) == run_of(q, cuts, j) by {
        assert(cuts[j] < cuts[j + 1]);
        assert(0 <= cuts[j] && cuts[j + 1] <= q.len());
        assert(run_of(prims, cuts, j) =~= run_of(q, cuts, j));
    }
    assert forall|j: int| 0 <= j < cuts.len() - 2 implies prims.subrange(cuts[j], #[trigger] cuts[j + 1] + 1)
        == q.subrange(cuts[j], cuts[j + 1] + 1) by {
        assert(cuts[j] < cuts[j + 1]);
        assert(cuts[j + 1] < cuts[j + 2]);
        assert(0 <= cuts[j] && cuts[j + 2] <= q.len());
        assert(prims.subrange(cuts[j], cuts[j + 1] + 1) =~= q.subrange(cuts[j], cuts[j + 1] + 1));
    }
}

proof fn lemma_first_run<V>(prims: Seq<Primitive<V>>)
    requires
        prims.len() == 1,
        drawable(prims[0]),
    ensures
        packed_as_runs(prims, seq![0int, 1int]),
{
    let p = prims[0];
    let cuts = seq![0int, 1int];
    let e = Seq::<Primitive<V>>::empty();
    assert(prims.drop_last() =~= e);
    assert(prims.last() == p);
    let st0 = packed(e);
    assert(st0.vertices.len() == 0 && st0.indices.len() == 0 && st0.done.len() == 0);
    assert(!needs_new_mesh(st0, p.0.len() as int, p.1.len() as int));
    assert(packed(prims) == with_primitive(st0, p.0, p.1));
    lemma_group_push(e, p);
    assert(run_of(prims, cuts, 0) =~= e.push(p));
    assert(group_vertices(e) =~= Seq::<V>::empty());
    assert(group_indices(e) =~= Seq::<u16>::empty());
    assert(packed(prims).vertices =~= group_vertices(run_of(prims, cuts, 0)));
    assert(packed(prims).indices =~= group_indices(run_of(prims, cuts, 0)));
    assert(packed(prims).done =~= Seq::new(
        (cuts.len() - 2) as nat,
        |j: int| group_mesh(run_of(prims, cuts, j)),
    ));
}

#[verifier::rlimit(40)]
proof fn lemma_new_run<V>(prims: Seq<Primitive<V>>, old_cuts: Seq<int>)
    requires
        prims.len() >= 2,
        packed_as_runs(prims.drop_last(), old_cuts),
        drawable(prims.last()),
        needs_new_mesh(
            packed(prims.drop_last()),
            prims.last().0.len() as int,
            prims.last().1.len() as int,
        ),
        !group_fits(run_of(prims.drop_last(), old_cuts, old_cuts.len() - 2).push(prims.last())),
    ensures
        packed_as_runs(prims, old_cuts.push(prims.len() as int)),
{
    let q = prims.drop_last();
    let p = prims.last();
    let k = q.len() as int;
    let m = old_cuts.len() - 1;
    let c = old_cuts[m - 1];
    let cuts = old_cuts.push(k + 1);
    lemma_prefix_runs(prims, old_cuts);
    lemma_group_push(Seq::<Primitive<V>>::empty(), p);
    assert(run_of(prims, cuts, m) =~= Seq::<Primitive<V>>::empty().push(p));
    assert(group_vertices(Seq::<Primitive<V>>::empty()) =~= Seq::<V>::empty());
    assert forall|j: int| 0 <= j < m implies #[trigger] run_of(prims, cuts, j) == run_of(q, old_cuts, j) by {
        assert(run_of(prims, cuts, j) == run_of(prims, old_cuts, j));
    }
    assert(prims.subrange(c, k + 1) =~= run_of(q, old_cuts, m - 1).push(p));
    assert(packed(prims).done =~= Seq::new(
        (cuts.len() - 2) as nat,
        |j: int| group_mesh(run_of(prims, cuts, j)),
    ));
    assert(packed(prims).vertices =~= group_vertices(run_of(prims, cuts, m)));
    assert(packed(prims).indices =~= group_indices(run_of(prims, cuts, m)));
    assert forall|j: int| 0 <= j < cuts.len() - 1 implies #[trigger] cuts[j] < cuts[j + 1] by {
        if j < m {
            assert(cuts[j] == old_cuts[j] && cuts[j + 1] == old_cuts[j + 1]);
        }
    }
    assert forall|j: int| 0 <= j < cuts.len() - 1 implies group_fits(#[trigger] run_of(prims, cuts, j))
        && group_vertices(run_of(prims, cuts, j)).len() > 0 by {
        if j < m {
            assert(run_of(prims, cuts, j) == run_of(q, old_cuts, j));
        }
    }
    assert forall|j: int| 0 <= j < cuts.len() - 2 implies !group_fits(
        prims.subrange(cuts[j], #[trigger] cuts[j + 1] + 1),
    ) by {
        assert(cuts[j] == old_cuts[j] && cuts[j + 1] == old_cuts[j + 1]);
    }
}

#[verifier::rlimit(40)]
proof fn lemma_same_run<V>(prims: Seq<Primitive<V>>, old_cuts: Seq<int>)
    requires
        prims.len() >= 2,
        packed_as_runs(prims.drop_last(), old_cuts),
        drawable(prims.last()),
        !needs_new_mesh(
            packed(prims.drop_last()),
            prims.last().0.len() as int,
            prims.last().1.len() as int,
        ),
        group_fits(run_of(prims.drop_last(), old_cuts, old_cuts.len() - 2).push(prims.last())),
    ensures
        packed_as_runs(prims, old_cuts.update(old_cuts.len() - 1, prims.len() as int)),
{
    let q = prims.drop_last();
    let p = prims.last();
    let k = q.len() as int;
    let m = old_cuts.len() - 1;
    let c = old_cuts[m - 1];
    let cuts = old_cuts.update(m, k + 1);
    lemma_prefix_runs(prims, old_cuts);
    let g = run_of(q, old_cuts, m - 1);
    lemma_group_push(g, p);
    assert(run_of(prims, cuts, m - 1) =~= g.push(p));
    assert forall|j: int| 0 <= j < m - 1 implies #[trigger] run_of(prims, cuts, j) == run_of(q, old_cuts, j) by {
        assert(run_of(prims, cuts, j) == run_of(prims, old_cuts, j));
    }
    assert(packed(prims).done =~= Seq::new(
        (cuts.len() - 2) as nat,
        |j: int| group_mesh(run_of(prims, cuts, j)),
    ));
    assert forall|j: int| 0 <= j < cuts.len() - 1 implies #[trigger] cuts[j] < cuts[j + 1] by {
        if j < m - 1 {
            assert(cuts[j] == old_cuts[j] && cuts[j + 1] == old_cuts[j + 1]);
        } else {
            assert(old_cuts[m - 1] < old_cuts[m]);
        }
    }
    assert forall|j: int| 0 <= j < cuts.len() - 1 implies group_fits(#[trigger] run_of(prims, cuts, j))
        && group_vertices(run_of(prims, cuts, j)).len() > 0 by {
        if j < m - 1 {
            assert(run_of(prims, cuts, j) == run_of(q, old_cuts, j));
        }
    }
    assert forall|j: int| 0 <= j < cuts.len() - 2 implies !group_fits(
        prims.subrange(cuts[j], #[trigger] cuts[j + 1] + 1),
    ) by {
        assert(cuts[j] == old_cuts[j] && cuts[j + 1] == old_cuts[j + 1]);
    }
}

proof fn lemma_packed_runs<V>(prims: Seq<Primitive<V>>) -> (cuts: Seq<int>)
    requires
        forall|i: int| 0 <= i < prims.len() ==> drawable(#[trigger] prims[i]),
    ensures
        packed_as_runs(prims, cuts),
    decreases prims.len(),
{
    if prims.len() == 0 {
        let cuts = seq![0int];
        assert(packed_as_runs(prims, cuts));
        cuts
    } else if prims.len() == 1 {
        lemma_first_run(prims);
        seq![0int, 1int]
    } else {
        let q = prims.drop_last();
        let p = prims.last();
        assert(forall|i: int| 0 <= i < q.len() ==> q[i] == prims[i]);
        assert(drawable(prims[prims.len() - 1]));
        let old_cuts = lemma_packed_runs(q);
        let g = run_of(q, old_cuts, old_cuts.len() - 2);
        lemma_group_push(g, p);
        if needs_new_mesh(packed(q), p.0.len() as int, p.1.len() as int) {
            lemma_new_run(prims, old_cuts);
            old_cuts.push(prims.len() as int)
        } else {
            lemma_same_run(prims, old_cuts);
            old_cuts.update(old_cuts.len() - 1, prims.len() as int)
        }
    }
}

/// Greedy packing: appending primitives `prims` in order (each with at
/// least one vertex and within the limits on its own, whatever its relative
/// indices) and then building gives one mesh per run
/// of consecutive primitives. The runs are found greedily: each fits the
/// limits, and a new one starts exactly when the next primitive would not
/// fit the current one. Each mesh holds its primitives' vertices in order
/// and their relative indices shifted by the vertices before them in the
/// mesh, and no mesh is empty.
pub proof fn lemma_build_packs_greedily<V>(prims: Seq<Primitive<V>>) -> (cuts: Seq<int>)
    requires
        forall|i: int| 0 <= i < prims.len() ==> drawable(#[trigger] prims[i]),
    ensures
        greedy_cuts(prims, cuts),
        flushed(packed(prims)).done == Seq::new(
            (cuts.len() - 1) as nat,
            |j: int| group_mesh(run_of(prims, cuts, j)),
        ),
        forall|j: int| 0 <= j < cuts.len() - 1 ==> group_vertices(#[trigger] run_of(prims, cuts, j)).len() > 0,
{
    let cuts = lemma_packed_runs(prims);
    assert(packed_as_runs(prims, cuts));
    if prims.len() == 0 {
        assert(flushed(packed(prims)).done =~= Seq::new(
            (cuts.len() - 1) as nat,
            |j: int| group_mesh(run_of(prims, cuts, j)),
        ));
    } else {
        assert(group_vertices(run_of(prims, cuts, cuts.len() - 2)).len() > 0);
        assert(flushed(packed(prims)).done =~= Seq::new(
            (cuts.len() - 1) as nat,
            |j: int| group_mesh(run_of(prims, cuts, j)),
        ));
    }
    cuts
}

} // verus!
