//! Laws over whole histories of scene calls: which ids hold objects, which
//! object and visibility each holds, and how many objects there are.

use vstd::prelude::*;

use crate::scene::{
    lemma_add_counts, lemma_remove_counts, lemma_visibility_keeps_objects, live_indices, occupied,
};

verus! {

// ---------------------------------------------------------------- histories

/// A call that changes a scene: `add`/`add_boxed` of an object, `remove`,
/// `set_visible`, or a write of a new object through `get_mut`.
pub enum SceneOp<T> {
    Add(T),
    Remove(nat),
    SetVisible(nat, bool),
    Write(nat, T),
}

/// The scene model after one call, as that call's contract states it.
pub open spec fn scene_step<T>(slots: Seq<Option<(T, bool)>>, op: SceneOp<T>) -> Seq<Option<(T, bool)>> {
    match op {
        SceneOp::Add(o) => slots.push(Some((o, true))),
        SceneOp::Remove(i) => if occupied(slots, i as int) {
            slots.update(i as int, None)
        } else {
            slots
        },
        SceneOp::SetVisible(i, v) => if occupied(slots, i as int) {
            slots.update(i as int, Some((slots[i as int].unwrap().0, v)))
        } else {
            slots
        },
        SceneOp::Write(i, o) => if occupied(slots, i as int) {
            slots.update(i as int, Some((o, slots[i as int].unwrap().1)))
        } else {
            slots
        },
    }
}

/// The scene model after a history of calls on a new scene.
pub open spec fn scene_run<T>(ops: Seq<SceneOp<T>>) -> Seq<Option<(T, bool)>>
    decreases ops.len(),
{
    if ops.len() == 0 {
        Seq::empty()
    } else {
        scene_step(scene_run(ops.drop_last()), ops.last())
    }
}

/// Number of adds in a history: the ids handed out are `0..add_count`.
pub open spec fn add_count<T>(ops: Seq<SceneOp<T>>) -> nat
    decreases ops.len(),
{
    if ops.len() == 0 {
        0
    } else {
        add_count(ops.drop_last()) + if ops.last() is Add { 1nat } else { 0nat }
    }
}

/// Whether the object with id `i` was removed after it was added.
pub open spec fn removed<T>(ops: Seq<SceneOp<T>>, i: int) -> bool
    decreases ops.len(),
{
    if ops.len() == 0 {
        false
    } else {
        let p = ops.drop_last();
        removed(p, i) || (ops.last() matches SceneOp::Remove(j) && j == i && i < add_count(p))
    }
}

/// Number of removes in a history that took an object out (returned it).
pub open spec fn remove_count<T>(ops: Seq<SceneOp<T>>) -> nat
    decreases ops.len(),
{
    if ops.len() == 0 {
        0
    } else {
        let p = ops.drop_last();
        remove_count(p) + if ops.last() matches SceneOp::Remove(j) && j < add_count(p) && !removed(p, j as int) {
            1nat
        } else {
            0nat
        }
    }
}

/// The object with id `i`: the one added as the `i`-th object, or the last
/// one written in its place while it was in the scene.
pub open spec fn object_of<T>(ops: Seq<SceneOp<T>>, i: int) -> T
    decreases ops.len(),
{
    let p = ops.drop_last();
    if ops.len() == 0 {
        arbitrary()
    } else if ops.last() matches SceneOp::Add(o) && add_count(p) == i {
        ops.last()->Add_0
    } else if ops.last() matches SceneOp::Write(j, o) && j == i && i < add_count(p) && !removed(p, i) {
        ops.last()->Write_1
    } else {
        object_of(p, i)
    }
}

/// Whether the object with id `i` is visible: objects start visible, and
/// the last `set_visible` on it while it was in the scene decides.
pub open spec fn visibility_of<T>(ops: Seq<SceneOp<T>>, i: int) -> bool
    decreases ops.len(),
{
    let p = ops.drop_last();
    if ops.len() == 0 {
        true
    } else if ops.last() is Add && add_count(p) == i {
        true
    } else if ops.last() matches SceneOp::SetVisible(j, v) && j == i && i < add_count(p) && !removed(p, i) {
        ops.last()->SetVisible_1
    } else {
        visibility_of(p, i)
    }
}

/// Over any history of calls on a new scene: the slots are the ids handed
/// out by the adds; an id holds an object exactly when it was added and not
/// removed since; and that object is the one added or last written through
/// `get_mut`, with the visibility of the last `set_visible` on it (visible
/// when there was none). So `get` finds exactly the objects added and not
/// removed, and `is_visible` reports the last visibility set.
pub proof fn lemma_history_slots<T>(ops: Seq<SceneOp<T>>)
    ensures
        scene_run(ops).len() == add_count(ops),
        forall|i: int|
            #![trigger occupied(scene_run(ops), i)]
            0 <= i ==> (occupied(scene_run(ops), i) <==> (i < add_count(ops) && !removed(ops, i))),
        forall|i: int|
            #![trigger occupied(scene_run(ops), i)]
            occupied(scene_run(ops), i) ==> scene_run(ops)[i] == Some((object_of(ops, i), visibility_of(ops, i))),
    decreases ops.len(),
{
    if ops.len() > 0 {
        let p = ops.drop_last();
        lemma_history_slots(p);
        let before = scene_run(p);
        let after = scene_run(ops);
        assert(after == scene_step(before, ops.last()));
        assert forall|i: int| 0 <= i implies (#[trigger] occupied(after, i) <==> (i < add_count(ops) && !removed(ops, i))) by {
            if i < before.len() {
                assert(occupied(before, i) <==> (i < add_count(p) && !removed(p, i)));
            }
            lemma_removed_below(p, i);
            match ops.last() {
                SceneOp::Add(o) => {
                    assert(removed(ops, i) == removed(p, i));
                },
                SceneOp::Remove(j) => {
                    if j == i && i < add_count(p) {
                        assert(removed(ops, i));
                    } else {
                        assert(removed(ops, i) == removed(p, i));
                    }
                },
                SceneOp::SetVisible(j, v) => {
                    assert(removed(ops, i) == removed(p, i));
                },
                SceneOp::Write(j, o) => {
                    assert(removed(ops, i) == removed(p, i));
                },
            }
        }
        assert forall|i: int| #[trigger] occupied(after, i) implies after[i] == Some((object_of(ops, i), visibility_of(ops, i))) by {
            if i < before.len() {
                assert(occupied(before, i) <==> (i < add_count(p) && !removed(p, i)));
            }
        }
    }
}

/// Over any history of calls on a new scene, the number of objects (what
/// `len` returns) is the number of adds less the number of removes that took
/// an object out.
pub proof fn lemma_history_len<T>(ops: Seq<SceneOp<T>>)
    ensures
        live_indices(scene_run(ops)).len() + remove_count(ops) == add_count(ops),
    decreases ops.len(),
{
    if ops.len() > 0 {
        let p = ops.drop_last();
        lemma_history_len(p);
        lemma_history_slots(p);
        let before = scene_run(p);
        match ops.last() {
            SceneOp::Add(o) => {
                lemma_add_counts(before, (o, true));
            },
            SceneOp::Remove(j) => {
                if occupied(before, j as int) {
                    lemma_remove_counts(before, j as int);
                } else {
                    assert(!(j < add_count(p) && !removed(p, j as int)));
                }
            },
            SceneOp::SetVisible(j, v) => {
                if occupied(before, j as int) {
                    lemma_visibility_keeps_objects(before, j as int, v);
                }
            },
            SceneOp::Write(j, o) => {
                if occupied(before, j as int) {
                    lemma_replace_keeps_objects(before, j as int, (o, before[j as int].unwrap().1));
                }
            },
        }
    }
}

proof fn lemma_removed_below<T>(ops: Seq<SceneOp<T>>, i: int)
    ensures
        removed(ops, i) ==> i < add_count(ops),
    decreases ops.len(),
{
    if ops.len() > 0 {
        lemma_removed_below(ops.drop_last(), i);
    }
}

proof fn lemma_replace_keeps_objects<T>(slots: Seq<Option<(T, bool)>>, i: int, entry: (T, bool))
    requires
        occupied(slots, i),
    ensures
        live_indices(slots.update(i, Some(entry))) == live_indices(slots),
    decreases slots.len(),
{
    let u = slots.update(i, Some(entry));
    if i == slots.len() - 1 {
        assert(u.drop_last() =~= slots.drop_last());
    } else {
        lemma_replace_keeps_objects(slots.drop_last(), i, entry);
        assert(u.drop_last() =~= slots.drop_last().update(i, Some(entry)));
    }
}

} // verus!
