//! The scene: an ordered store of objects addressed by stable ids. Removing
//! an object frees its slot for good, so an id never refers to a later object.
//! Hidden objects skip both draw passes but stay fully addressable.

use vstd::prelude::*;

use crate::scene_history::{scene_step, SceneOp};

verus! {

/// Identifies an object in a [`Scene`]: the index of the slot it was added in.
#[derive(Debug, Clone, Copy, PartialEq, Eq, Hash, Structural)]
pub struct ObjectId(usize);

impl View for ObjectId {
    type V = nat;

    closed spec fn view(&self) -> nat {
        self.0 as nat
    }
}

impl ObjectId {
    /// The id of slot `index`.
    pub fn test_id(index: usize) -> (id: ObjectId)
        ensures
            id@ == index,
    {
        ObjectId(index)
    }

    /// The slot index this id names.
    pub fn index(&self) -> (i: usize)
        ensures
            i == self@,
    {
        self.0
    }
}

/// A handle on an object that a scene builder added, for attaching
/// animations to it.
#[derive(Debug, Clone, Copy)]
pub struct ObjRef {
    pub id: ObjectId,
}

/// What a scene needs from its objects to draw them.
pub trait SceneNode {
    /// Draw the object.
    fn draw(&self);

    /// Whether the object is drawn in screen space (after the camera pass)
    /// rather than in world space.
    fn is_screen_space(&self) -> bool;

    /// The object's depth as an order key: an object with a smaller key is
    /// farther back and is drawn before one with a larger key.
    fn depth(&self) -> i64;
}

struct Entry<T> {
    object: T,
    visible: bool,
}

/// An ordered collection of objects with a visibility flag each.
pub struct Scene<T> {
    objects: Vec<Option<Entry<T>>>,
}

/// The model of one slot: the object and its visibility, or nothing once the
/// object was removed.
spec fn slot_view<T>(o: Option<Entry<T>>) -> Option<(T, bool)> {
    match o {
        Some(e) => Some((e.object, e.visible)),
        None => None,
    }
}

impl<T> View for Scene<T> {
    type V = Seq<Option<(T, bool)>>;

    closed spec fn view(&self) -> Seq<Option<(T, bool)>> {
        self.objects@.map_values(|o: Option<Entry<T>>| slot_view(o))
    }
}

/// Whether slot `i` of the model holds an object.
pub open spec fn occupied<T>(slots: Seq<Option<(T, bool)>>, i: int) -> bool {
    0 <= i < slots.len() && slots[i] is Some
}

/// The indices of the occupied slots, in increasing order.
pub open spec fn live_indices<T>(slots: Seq<Option<(T, bool)>>) -> Seq<int>
    decreases slots.len(),
{
    if slots.len() == 0 {
        Seq::empty()
    } else {
        let rest = live_indices(slots.drop_last());
        if slots.last() is Some {
            rest.push(slots.len() - 1)
        } else {
            rest
        }
    }
}

/// The indices of the occupied slots whose object is visible, in order.
pub open spec fn visible_indices<T>(slots: Seq<Option<(T, bool)>>) -> Seq<int>
    decreases slots.len(),
{
    if slots.len() == 0 {
        Seq::empty()
    } else {
        let rest = visible_indices(slots.drop_last());
        if slots.last() matches Some((_, true)) {
            rest.push(slots.len() - 1)
        } else {
            rest
        }
    }
}

impl<T> Scene<T> {
    proof fn lemma_view_index(&self, i: int)
        requires
            0 <= i < self.objects.len(),
        ensures
            self@.len() == self.objects.len(),
            self@[i] == slot_view(self.objects@[i]),
    {
    }

    /// An empty scene.
    pub fn new() -> (s: Self)
        ensures
            s@ == Seq::<Option<(T, bool)>>::empty(),
    {
        let s = Scene { objects: Vec::new() };
        assert(s@ =~= Seq::<Option<(T, bool)>>::empty());
        s
    }

    /// Add an object, visible; its id is the next slot index.
    pub fn add(&mut self, object: T) -> (id: ObjectId)
        ensures
            id@ == old(self)@.len(),
            final(self)@ == old(self)@.push(Some((object, true))),
            final(self)@ == scene_step(old(self)@, SceneOp::Add(object)),
    {
        self.add_boxed(object)
    }

    /// Add an object that the caller has already boxed (or otherwise built
    /// at run time); the same as [`add`](Self::add).
    pub fn add_boxed(&mut self, object: T) -> (id: ObjectId)
        ensures
            id@ == old(self)@.len(),
            final(self)@ == old(self)@.push(Some((object, true))),
            final(self)@ == scene_step(old(self)@, SceneOp::Add(object)),
    {
        let id = ObjectId(self.objects.len());
        let ghost before = self.objects@;
        self.objects.push(Some(Entry { object, visible: true }));
        proof {
            assert(self@ =~= old(self)@.push(Some((object, true))));
        }
        id
    }

    /// Take the object out of the scene; its slot stays empty.
    pub fn remove(&mut self, id: ObjectId) -> (r: Option<T>)
        ensures
            occupied(old(self)@, id@ as int) ==> r == Some(old(self)@[id@ as int].unwrap().0)
                && final(self)@ == old(self)@.update(id@ as int, None),
            !occupied(old(self)@, id@ as int) ==> r is None && final(self)@ == old(self)@,
            final(self)@ == scene_step(old(self)@, SceneOp::Remove(id@)),
    {
        let i = id.0;
        if i >= self.objects.len() {
            return None;
        }
        proof {
            self.lemma_view_index(i as int);
        }
        let taken = self.objects[i].take();
        proof {
            assert(self@ =~= old(self)@.update(i as int, None));
        }
        match taken {
            Some(entry) => Some(entry.object),
            None => {
                assert(self@ =~= old(self)@);
                None
            },
        }
    }

    /// The object with this id, if it is still in the scene.
    pub fn get(&self, id: ObjectId) -> (r: Option<&T>)
        ensures
            occupied(self@, id@ as int) ==> (r matches Some(o) && *o == self@[id@ as int].unwrap().0),
            !occupied(self@, id@ as int) ==> r is None,
    {
        let i = id.0;
        if i >= self.objects.len() {
            return None;
        }
        proof {
            self.lemma_view_index(i as int);
        }
        match &self.objects[i] {
            Some(entry) => Some(&entry.object),
            None => None,
        }
    }

    /// Mutable access to the object with this id, if it is still in the
    /// scene; what is written through it replaces the object in its slot.
    pub fn get_mut(&mut self, id: ObjectId) -> (r: Option<&mut T>)
        ensures
            occupied(old(self)@, id@ as int) ==> (r matches Some(m) && *m == old(self)@[id@ as int].unwrap().0
                && final(self)@ == old(self)@.update(
                id@ as int,
                Some((*final(m), old(self)@[id@ as int].unwrap().1)),
            )),
            !occupied(old(self)@, id@ as int) ==> r is None && final(self)@ == old(self)@,
            r matches Some(m) ==> final(self)@ == scene_step(old(self)@, SceneOp::Write(id@, *final(m))),
    {
        let i = id.0;
        if i >= self.objects.len() {
            return None;
        }
        proof {
            self.lemma_view_index(i as int);
        }
        let slot = &mut self.objects[i];
        match slot {
            Some(entry) => Some(&mut entry.object),
            None => None,
        }
    }

    /// Show or hide the object with this id; no effect when it is not in the
    /// scene.
    pub fn set_visible(&mut self, id: ObjectId, visible: bool)
        ensures
            occupied(old(self)@, id@ as int) ==> final(self)@ == old(self)@.update(
                id@ as int,
                Some((old(self)@[id@ as int].unwrap().0, visible)),
            ),
            !occupied(old(self)@, id@ as int) ==> final(self)@ == old(self)@,
            final(self)@ == scene_step(old(self)@, SceneOp::SetVisible(id@, visible)),
    {
        let i = id.0;
        if i >= self.objects.len() {
            return;
        }
        proof {
            self.lemma_view_index(i as int);
        }
        let slot = &mut self.objects[i];
        match slot {
            Some(entry) => {
                entry.visible = visible;
            },
            None => {},
        }
        proof {
            if occupied(old(self)@, id@ as int) {
                assert(self@ =~= old(self)@.update(
                    id@ as int,
                    Some((old(self)@[id@ as int].unwrap().0, visible)),
                ));
            } else {
                assert(self@ =~= old(self)@);
            }
        }
    }

    /// Whether the object with this id is in the scene and visible.
    pub fn is_visible(&self, id: ObjectId) -> (v: bool)
        ensures
            v == (occupied(self@, id@ as int) && self@[id@ as int].unwrap().1),
    {
        let i = id.0;
        if i >= self.objects.len() {
            return false;
        }
        proof {
            self.lemma_view_index(i as int);
        }
        match &self.objects[i] {
            Some(entry) => entry.visible,
            None => false,
        }
    }

    /// The objects still in the scene with their ids, in slot order.
    pub fn iter(&self) -> (r: Vec<(ObjectId, &T)>)
        ensures
            r.len() == live_indices(self@).len(),
            forall|k: int| 0 <= k < r.len() ==> {
                &&& (#[trigger] r[k]).0@ == live_indices(self@)[k]
                &&& *r[k].1 == self@[live_indices(self@)[k]].unwrap().0
            },
    {
        let mut r: Vec<(ObjectId, &T)> = Vec::new();
        let mut i: usize = 0;
        proof {
            assert(self@.take(0) =~= Seq::<Option<(T, bool)>>::empty());
        }
        while i < self.objects.len()
            invariant
                i <= self.objects.len(),
                self@.len() == self.objects.len(),
                r.len() == live_indices(self@.take(i as int)).len(),
                forall|k: int| 0 <= k < r.len() ==> {
                    &&& (#[trigger] r[k]).0@ == live_indices(self@.take(i as int))[k]
                    &&& 0 <= live_indices(self@.take(i as int))[k] < i
                    &&& *r[k].1 == self@[live_indices(self@.take(i as int))[k]].unwrap().0
                },
            decreases self.objects.len() - i,
        {
            proof {
                self.lemma_view_index(i as int);
                assert(self@.take(i + 1).drop_last() =~= self@.take(i as int));
                assert(self@.take(i + 1).last() == self@[i as int]);
            }
            match &self.objects[i] {
                Some(entry) => {
                    r.push((ObjectId(i), &entry.object));
                },
                None => {},
            }
            i = i + 1;
        }
        proof {
            assert(self@.take(self.objects.len() as int) =~= self@);
        }
        r
    }

    /// Number of objects in the scene.
    pub fn len(&self) -> (n: usize)
        ensures
            n == live_indices(self@).len(),
    {
        let mut n: usize = 0;
        let mut i: usize = 0;
        proof {
            assert(self@.take(0) =~= Seq::<Option<(T, bool)>>::empty());
        }
        while i < self.objects.len()
            invariant
                i <= self.objects.len(),
                self@.len() == self.objects.len(),
                n == live_indices(self@.take(i as int)).len(),
                n <= i,
            decreases self.objects.len() - i,
        {
            proof {
                self.lemma_view_index(i as int);
                assert(self@.take(i + 1).drop_last() =~= self@.take(i as int));
                assert(self@.take(i + 1).last() == self@[i as int]);
            }
            if self.objects[i].is_some() {
                n = n + 1;
            }
            i = i + 1;
        }
        proof {
            assert(self@.take(self.objects.len() as int) =~= self@);
        }
        n
    }

    /// Whether the scene holds no object.
    pub fn is_empty(&self) -> (e: bool)
        ensures
            e == (live_indices(self@).len() == 0),
            e == (forall|i: int| 0 <= i < self@.len() ==> !occupied(self@, i)),
    {
        let n = self.len();
        proof {
            lemma_live_indices_complete(self@);
            let l = live_indices(self@);
            if n > 0 {
                assert(occupied(self@, l[0]));
            } else {
                assert forall|i: int| 0 <= i < self@.len() implies !occupied(self@, i) by {
                    if occupied(self@, i) {
                        assert(l.contains(i));
                    }
                }
            }
        }
        n == 0
    }
}

/// Whether the object at position `a` with depth key `ka` is drawn before the
/// one at position `b` with key `kb`: farther back first, and in position
/// order among equal depths.
pub open spec fn draws_before(ka: int, a: int, kb: int, b: int) -> bool {
    ka < kb || (ka == kb && a < b)
}

/// Whether the positions in `order` go back to front by their `keys`.
pub open spec fn in_draw_order(keys: Seq<i64>, order: Seq<usize>) -> bool {
    forall|i: int, j: int|
        #![trigger order[i], order[j]]
        0 <= i < j < order.len() ==> draws_before(
            keys[order[i] as int] as int,
            order[i] as int,
            keys[order[j] as int] as int,
            order[j] as int,
        )
}

/// Whether position `x` occurs in `order`.
pub open spec fn lists(order: Seq<usize>, x: int) -> bool {
    exists|k: int| 0 <= k < order.len() && order[k] == x
}

/// Inserting position `p` (larger than every listed position) before the
/// first listed position with a larger key keeps the list in drawing order.
proof fn lemma_insert_in_order(keys: Seq<i64>, order: Seq<usize>, q: int, p: usize) -> (n: Seq<usize>)
    requires
        order.len() == p < keys.len(),
        0 <= q <= p,
        forall|i: int| 0 <= i < order.len() ==> order[i] < p,
        forall|x: int| 0 <= x < p ==> #[trigger] lists(order, x),
        in_draw_order(keys, order),
        forall|i: int| 0 <= i < q ==> keys[order[i] as int] <= keys[p as int],
        q < p ==> keys[order[q] as int] > keys[p as int],
    ensures
        n == order.insert(q, p),
        forall|i: int| 0 <= i < n.len() ==> #[trigger] n[i] < p + 1,
        forall|x: int| 0 <= x < p + 1 ==> #[trigger] lists(n, x),
        in_draw_order(keys, n),
{
    let n = order.insert(q, p);
    order.insert_ensures(q, p);
    let k = keys[p as int];
    assert forall|x: int| 0 <= x < p + 1 implies #[trigger] lists(n, x) by {
        if x == p {
            assert(n[q] == x);
        } else {
            assert(lists(order, x));
            let w = choose|w: int| 0 <= w < order.len() && order[w] == x;
            if w < q {
                assert(n[w] == x);
            } else {
                assert(n[w + 1] == x);
            }
        }
    }
    assert forall|i: int, j: int| 0 <= i < j < n.len() implies draws_before(
        keys[n[i] as int] as int,
        n[i] as int,
        keys[n[j] as int] as int,
        n[j] as int,
    ) by {
        if j < q {
        } else if j == q {
            assert(keys[order[i] as int] <= k);
        } else if i < q {
            assert(n[j] == order[j - 1]);
        } else if i == q {
            assert(n[j] == order[j - 1]);
            assert(keys[order[q] as int] > k);
            if j - 1 > q {
                assert(draws_before(
                    keys[order[q] as int] as int,
                    order[q] as int,
                    keys[order[j - 1] as int] as int,
                    order[j - 1] as int,
                ));
            }
        } else {
            assert(n[i] == order[i - 1]);
            assert(n[j] == order[j - 1]);
        }
    }
    n
}

/// The positions `0..keys.len()` in drawing order, back to front: by
/// increasing depth key, equal keys keeping their position order.
pub fn back_to_front(keys: &Vec<i64>) -> (order: Vec<usize>)
    ensures
        order.len() == keys.len(),
        forall|i: int| 0 <= i < order.len() ==> order[i] < keys.len(),
        forall|x: int| 0 <= x < keys.len() ==> #[trigger] lists(order@, x),
        in_draw_order(keys@, order@),
{
    let mut order: Vec<usize> = Vec::new();
    let mut p: usize = 0;
    while p < keys.len()
        invariant
            p <= keys.len(),
            order.len() == p,
            forall|i: int| 0 <= i < order.len() ==> order[i] < p,
            forall|x: int| 0 <= x < p ==> #[trigger] lists(order@, x),
            in_draw_order(keys@, order@),
        decreases keys.len() - p,
    {
        let k = keys[p];
        let mut q: usize = 0;
        while q < order.len() && keys[order[q]] <= k
            invariant
                q <= order.len() == p < keys.len(),
                forall|i: int| 0 <= i < order.len() ==> order[i] < p,
                forall|i: int| 0 <= i < q ==> keys[order[i] as int] <= k,
            decreases order.len() - q,
        {
            q = q + 1;
        }
        let ghost old_order = order@;
        order.insert(q, p);
        proof {
            let _ = lemma_insert_in_order(keys@, old_order, q as int, p);
        }
        p = p + 1;
    }
    order
}

/// Whether slot `i` holds an object that is visible.
pub open spec fn shown<T>(slots: Seq<Option<(T, bool)>>, i: int) -> bool {
    occupied(slots, i) && slots[i].unwrap().1
}

/// Whether a call of `o.is_screen_space()` can return `r`.
pub open spec fn reports_screen_space<T: SceneNode>(o: T, r: bool) -> bool {
    call_ensures(T::is_screen_space, (&o,), r)
}

/// Whether a call of `o.depth()` can return `d`.
pub open spec fn reports_depth<T: SceneNode>(o: T, d: i64) -> bool {
    call_ensures(T::depth, (&o,), d)
}

/// Whether id `i` occurs in `order`.
pub open spec fn lists_id(order: Seq<ObjectId>, i: int) -> bool {
    exists|k: int| 0 <= k < order.len() && order[k]@ == i
}

/// The ids in `order` go back to front by the depths `depths` that their
/// objects reported, equal depths in slot order.
pub open spec fn ordered_by_reports<T: SceneNode>(
    slots: Seq<Option<(T, bool)>>,
    order: Seq<ObjectId>,
    depths: Seq<i64>,
) -> bool {
    &&& depths.len() == order.len()
    &&& forall|k: int| 0 <= k < order.len() ==> reports_depth(slots[order[k]@ as int].unwrap().0, #[trigger] depths[k])
    &&& forall|a: int, b: int|
        #![trigger depths[a], depths[b]]
        0 <= a < b < order.len() ==> draws_before(depths[a] as int, order[a]@ as int, depths[b] as int, order[b]@ as int)
}

impl<T: SceneNode> Scene<T> {
    /// The ids of the visible world-space objects in the order the world pass
    /// draws them: back to front by depth, objects of equal depth in the
    /// order they were added. Each visible object is asked once whether it
    /// is in screen space, and each world-space one once for its depth; the
    /// result lists exactly the visible objects that answered "world space",
    /// each once, ordered by the depths they gave.
    pub fn world_draw_order(&self) -> (order: Vec<ObjectId>)
        ensures
            forall|k: int|
                0 <= k < order.len() ==> shown(self@, (#[trigger] order[k])@ as int) && reports_screen_space(
                    self@[order[k]@ as int].unwrap().0,
                    false,
                ),
            forall|i: int|
                shown(self@, i) && !#[trigger] lists_id(order@, i) ==> reports_screen_space(
                    self@[i].unwrap().0,
                    true,
                ),
            forall|a: int, b: int| 0 <= a < b < order.len() ==> order[a]@ != order[b]@,
            exists|depths: Seq<i64>| #[trigger] ordered_by_reports(self@, order@, depths),
    {
        let mut ids: Vec<usize> = Vec::new();
        let mut keys: Vec<i64> = Vec::new();
        let mut i: usize = 0;
        while i < self.objects.len()
            invariant
                i <= self.objects.len(),
                ids.len() == keys.len(),
                forall|k: int|
                    0 <= k < ids.len() ==> ids[k] < i && shown(self@, #[trigger] ids[k] as int)
                        && reports_screen_space(self@[ids[k] as int].unwrap().0, false)
                        && reports_depth(self@[ids[k] as int].unwrap().0, keys[k]),
                forall|a: int, b: int| 0 <= a < b < ids.len() ==> ids[a] < ids[b],
                forall|j: int|
                    0 <= j < i && shown(self@, j) && !#[trigger] lists(ids@, j) ==> reports_screen_space(
                        self@[j].unwrap().0,
                        true,
                    ),
            decreases self.objects.len() - i,
        {
            proof {
                self.lemma_view_index(i as int);
            }
            let ghost old_ids = ids@;
            match &self.objects[i] {
                Some(entry) => {
                    if entry.visible {
                        let screen = entry.object.is_screen_space();
                        if !screen {
                            let d = entry.object.depth();
                            ids.push(i);
                            keys.push(d);
                            proof {
                                assert(ids[old_ids.len() as int] == i);
                                assert(lists(ids@, i as int));
                            }
                        }
                    }
                },
                None => {},
            }
            proof {
                assert forall|j: int|
                    0 <= j < i + 1 && shown(self@, j) && !#[trigger] lists(ids@, j) implies reports_screen_space(
                    self@[j].unwrap().0,
                    true,
                ) by {
                    if j < i {
                        if lists(old_ids, j) {
                            let w = choose|w: int| 0 <= w < old_ids.len() && old_ids[w] == j;
                            assert(ids[w] == j);
                        }
                    }
                }
            }
            i = i + 1;
        }
        let order = back_to_front(&keys);
        let mut out: Vec<ObjectId> = Vec::new();
        let mut q: usize = 0;
        while q < order.len()
            invariant
                q <= order.len() == keys.len() == ids.len(),
                out.len() == q,
                forall|k: int| 0 <= k < order.len() ==> order[k] < keys.len(),
                forall|k: int| 0 <= k < q ==> (#[trigger] out[k])@ == ids[order[k] as int],
            decreases order.len() - q,
        {
            out.push(ObjectId(ids[order[q]]));
            q = q + 1;
        }
        proof {
            assert forall|a: int, b: int| 0 <= a < b < out.len() implies out[a]@ != out[b]@ by {
                assert(draws_before(
                    keys[order[a] as int] as int,
                    order[a] as int,
                    keys[order[b] as int] as int,
                    order[b] as int,
                ));
                if order[a] < order[b] {
                    assert(ids[order[a] as int] < ids[order[b] as int]);
                } else {
                    assert(ids[order[b] as int] < ids[order[a] as int]);
                }
            }
            assert forall|k: int| 0 <= k < out.len() implies shown(self@, (#[trigger] out[k])@ as int)
                && reports_screen_space(self@[out[k]@ as int].unwrap().0, false) by {
                assert(shown(self@, ids[order[k] as int] as int));
            }
            assert forall|i: int| shown(self@, i) && !#[trigger] lists_id(out@, i) implies reports_screen_space(
                self@[i].unwrap().0,
                true,
            ) by {
                if lists(ids@, i) {
                    let m = choose|m: int| 0 <= m < ids.len() && ids[m] == i;
                    assert(lists(order@, m));
                    let k = choose|k: int| 0 <= k < order.len() && order[k] == m;
                    assert(out[k]@ == i);
                    assert(lists_id(out@, i));
                }
            }
            let depths = Seq::new(out.len() as nat, |k: int| keys[order[k] as int]);
            assert forall|k: int| 0 <= k < out.len() implies reports_depth(
                self@[out[k]@ as int].unwrap().0,
                #[trigger] depths[k],
            ) by {
                assert(out[k]@ == ids[order[k] as int]);
            }
            assert forall|a: int, b: int| 0 <= a < b < out.len() implies draws_before(
                depths[a] as int,
                out[a]@ as int,
                depths[b] as int,
                out[b]@ as int,
            ) by {
                assert(draws_before(
                    keys[order[a] as int] as int,
                    order[a] as int,
                    keys[order[b] as int] as int,
                    order[b] as int,
                ));
                if keys[order[a] as int] == keys[order[b] as int] {
                    assert(ids[order[a] as int] < ids[order[b] as int]);
                }
            }
            assert(ordered_by_reports(self@, out@, depths));
        }
        out
    }

    /// Draw the visible world-space objects, back to front (see
    /// `world_draw_order`).
    pub fn draw_world(&self) {
        let order = self.world_draw_order();
        let mut k: usize = 0;
        while k < order.len()
            invariant
                k <= order.len(),
                forall|j: int|
                    0 <= j < order.len() ==> occupied(self@, (#[trigger] order[j])@ as int),
            decreases order.len() - k,
        {
            let i = order[k].0;
            proof {
                assert(occupied(self@, order[k as int]@ as int));
                self.lemma_view_index(i as int);
            }
            match &self.objects[i] {
                Some(entry) => entry.object.draw(),
                None => {},
            }
            k = k + 1;
        }
    }

    /// The ids of the visible screen-space objects in the order the screen
    /// pass draws them: slot order. Each visible object is asked once
    /// whether it is in screen space; the result lists exactly the visible
    /// objects that answered "screen space".
    pub fn screen_draw_order(&self) -> (order: Vec<ObjectId>)
        ensures
            forall|k: int|
                0 <= k < order.len() ==> shown(self@, (#[trigger] order[k])@ as int) && reports_screen_space(
                    self@[order[k]@ as int].unwrap().0,
                    true,
                ),
            forall|i: int|
                shown(self@, i) && !#[trigger] lists_id(order@, i) ==> reports_screen_space(
                    self@[i].unwrap().0,
                    false,
                ),
            forall|a: int, b: int| 0 <= a < b < order.len() ==> order[a]@ < order[b]@,
    {
        let mut out: Vec<ObjectId> = Vec::new();
        let mut i: usize = 0;
        while i < self.objects.len()
            invariant
                i <= self.objects.len(),
                forall|k: int|
                    0 <= k < out.len() ==> (#[trigger] out[k])@ < i && shown(self@, out[k]@ as int)
                        && reports_screen_space(self@[out[k]@ as int].unwrap().0, true),
                forall|a: int, b: int| 0 <= a < b < out.len() ==> out[a]@ < out[b]@,
                forall|j: int|
                    0 <= j < i && shown(self@, j) && !#[trigger] lists_id(out@, j) ==> reports_screen_space(
                        self@[j].unwrap().0,
                        false,
                    ),
            decreases self.objects.len() - i,
        {
            proof {
                self.lemma_view_index(i as int);
            }
            let ghost before = out@;
            match &self.objects[i] {
                Some(entry) => {
                    if entry.visible {
                        if entry.object.is_screen_space() {
                            out.push(ObjectId(i));
                            proof {
                                assert(out[before.len() as int]@ == i);
                                assert(lists_id(out@, i as int));
                            }
                        }
                    }
                },
                None => {},
            }
            proof {
                assert forall|j: int|
                    0 <= j < i + 1 && shown(self@, j) && !#[trigger] lists_id(out@, j) implies reports_screen_space(
                    self@[j].unwrap().0,
                    false,
                ) by {
                    if j < i && lists_id(before, j) {
                        let w = choose|w: int| 0 <= w < before.len() && before[w]@ == j;
                        assert(out[w]@ == j);
                    }
                }
            }
            i = i + 1;
        }
        out
    }

    /// Draw the visible screen-space objects, in slot order (see
    /// `screen_draw_order`).
    pub fn draw_screen(&self) {
        let order = self.screen_draw_order();
        let mut k: usize = 0;
        while k < order.len()
            invariant
                k <= order.len(),
                forall|j: int| 0 <= j < order.len() ==> shown(self@, (#[trigger] order[j])@ as int),
            decreases order.len() - k,
        {
            let i = order[k].0;
            proof {
                assert(shown(self@, order[k as int]@ as int));
                self.lemma_view_index(i as int);
            }
            match &self.objects[i] {
                Some(entry) => entry.object.draw(),
                None => {},
            }
            k = k + 1;
        }
    }
}

/// The occupied slots are exactly those listed by `live_indices`, each once
/// and in increasing order.
pub proof fn lemma_live_indices_complete<T>(slots: Seq<Option<(T, bool)>>)
    ensures
        forall|k: int| 0 <= k < live_indices(slots).len() ==> occupied(slots, #[trigger] live_indices(slots)[k]),
        forall|i: int| #[trigger] occupied(slots, i) ==> live_indices(slots).contains(i),
        forall|a: int, b: int| 0 <= a < b < live_indices(slots).len() ==>
            #[trigger] live_indices(slots)[a] < #[trigger] live_indices(slots)[b],
    decreases slots.len(),
{
    if slots.len() > 0 {
        let p = slots.drop_last();
        lemma_live_indices_complete(p);
        let lp = live_indices(p);
        let l = live_indices(slots);
        assert forall|k: int| 0 <= k < l.len() implies occupied(slots, #[trigger] l[k]) by {
            if k < lp.len() {
                assert(l[k] == lp[k]);
                assert(occupied(p, lp[k]));
            }
        }
        assert forall|i: int| #[trigger] occupied(slots, i) implies l.contains(i) by {
            if i < p.len() {
                assert(occupied(p, i));
                let k = choose|k: int| 0 <= k < lp.len() && lp[k] == i;
                assert(l[k] == i);
            } else {
                assert(l[l.len() - 1] == i);
            }
        }
        assert forall|a: int, b: int| 0 <= a < b < l.len() implies
            #[trigger] l[a] < #[trigger] l[b] by {
            if b < lp.len() {
                assert(l[a] == lp[a] && l[b] == lp[b]);
            } else {
                assert(l[a] == lp[a]);
                assert(occupied(p, lp[a]));
            }
        }
    }
}

/// Adding an object appends one live slot: the object count grows by one
/// and the new object is listed last.
pub proof fn lemma_add_counts<T>(slots: Seq<Option<(T, bool)>>, entry: (T, bool))
    ensures
        live_indices(slots.push(Some(entry))) == live_indices(slots).push(slots.len() as int),
{
    assert(slots.push(Some(entry)).drop_last() =~= slots);
}

/// Removing an object that is in the scene lowers the object count by one;
/// every other slot keeps its object.
pub proof fn lemma_remove_counts<T>(slots: Seq<Option<(T, bool)>>, i: int)
    requires
        occupied(slots, i),
    ensures
        live_indices(slots.update(i, None)).len() + 1 == live_indices(slots).len(),
        forall|j: int| j != i ==> occupied(slots.update(i, None), j) == occupied(slots, j),
    decreases slots.len(),
{
    let u = slots.update(i, None);
    if i == slots.len() - 1 {
        assert(u.drop_last() =~= slots.drop_last());
    } else {
        lemma_remove_counts(slots.drop_last(), i);
        assert(u.drop_last() =~= slots.drop_last().update(i, None));
    }
}

/// Changing the visibility of one object leaves the set of objects as it is.
pub proof fn lemma_visibility_keeps_objects<T>(slots: Seq<Option<(T, bool)>>, i: int, visible: bool)
    requires
        occupied(slots, i),
    ensures
        live_indices(slots.update(i, Some((slots[i].unwrap().0, visible)))) == live_indices(slots),
    decreases slots.len(),
{
    let u = slots.update(i, Some((slots[i].unwrap().0, visible)));
    if i == slots.len() - 1 {
        assert(u.drop_last() =~= slots.drop_last());
    } else {
        lemma_visibility_keeps_objects(slots.drop_last(), i, visible);
        assert(u.drop_last() =~= slots.drop_last().update(
            i,
            Some((slots.drop_last()[i].unwrap().0, visible)),
        ));
    }
}

/// Ids are never reused: after an object is removed, the next object added
/// gets an id different from every id handed out before, and the removed id
/// stays empty.
pub proof fn lemma_ids_not_reused<T>(slots: Seq<Option<(T, bool)>>, i: int, entry: (T, bool))
    requires
        occupied(slots, i),
    ensures
        ({
            let after = slots.update(i, None).push(Some(entry));
            &&& slots.update(i, None).len() == slots.len()
            &&& forall|j: int| #[trigger] occupied(slots, j) ==> j != slots.len()
            &&& !occupied(after, i)
            &&& occupied(after, slots.len() as int)
        }),
{
}

} // verus!

