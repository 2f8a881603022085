use rs_namin::scene::{back_to_front, ObjRef, ObjectId, Scene, SceneNode};

/// A stand-in scene object: a depth key and whether it draws in screen space.
#[derive(Debug, Clone, Copy, PartialEq)]
struct Obj {
    depth: i64,
    screen: bool,
}

impl SceneNode for Obj {
    fn draw(&self) {}

    fn is_screen_space(&self) -> bool {
        self.screen
    }

    fn depth(&self) -> i64 {
        self.depth
    }
}

/// An order key for a depth `z` (larger is nearer), ordering as
/// `f32::total_cmp` does with both zeros equal.
fn depth_key(z: f32) -> i64 {
    let z = if z == 0.0 { 0.0 } else { z };
    let bits = z.to_bits() as i32;
    i64::from(if bits < 0 { bits ^ i32::MAX } else { bits })
}

/// A world-space object at depth `z`.
fn disk(z: f32) -> Obj {
    Obj { depth: depth_key(z), screen: false }
}


#[test]
fn add_get_remove() {
    let mut scene: Scene<&str> = Scene::new();
    assert!(scene.is_empty());
    let a = scene.add("a");
    let b = scene.add_boxed("b");
    assert_eq!(a, ObjectId::test_id(0));
    assert_eq!(b, ObjectId::test_id(1));
    assert_eq!(scene.len(), 2);
    assert_eq!(scene.get(a), Some(&"a"));
    assert_eq!(scene.remove(a), Some("a"));
    assert_eq!(scene.get(a), None);
    assert_eq!(scene.remove(a), None);
    assert_eq!(scene.len(), 1);
    assert!(!scene.is_empty());
}

#[test]
fn ids_are_not_reused() {
    let mut scene: Scene<u32> = Scene::new();
    let a = scene.add(1);
    scene.remove(a);
    let b = scene.add(2);
    assert_ne!(a, b);
    assert_eq!(b.index(), 1);
    assert_eq!(scene.get(a), None);
    assert_eq!(scene.get(b), Some(&2));
}

#[test]
fn visibility() {
    let mut scene: Scene<u32> = Scene::new();
    let a = scene.add(1);
    assert!(scene.is_visible(a));
    scene.set_visible(a, false);
    assert!(!scene.is_visible(a));
    assert_eq!(scene.get(a), Some(&1));
    scene.set_visible(ObjectId::test_id(7), true);
    assert!(!scene.is_visible(ObjectId::test_id(7)));
    scene.remove(a);
    assert!(!scene.is_visible(a));
}

#[test]
fn get_mut_writes_through() {
    let mut scene: Scene<u32> = Scene::new();
    let a = scene.add(1);
    scene.set_visible(a, false);
    if let Some(o) = scene.get_mut(a) {
        *o = 5;
    }
    assert_eq!(scene.get(a), Some(&5));
    assert!(!scene.is_visible(a));
    assert!(scene.get_mut(ObjectId::test_id(3)).is_none());
}

#[test]
fn iter_lists_live_objects_in_order() {
    let mut scene: Scene<char> = Scene::new();
    let a = scene.add('a');
    let _b = scene.add('b');
    let _c = scene.add('c');
    scene.remove(a);
    let items: Vec<(usize, char)> = scene.iter().into_iter().map(|(id, o)| (id.index(), *o)).collect();
    assert_eq!(items, vec![(1, 'b'), (2, 'c')]);
}

#[test]
fn add_and_get_object() {
    let mut scene = Scene::new();
    let id = scene.add(disk(0.0));
    assert!(scene.get(id).is_some());
    assert_eq!(scene.len(), 1);
}

#[test]
fn remove_object() {
    let mut scene = Scene::new();
    let id = scene.add(disk(0.0));
    assert!(scene.remove(id).is_some());
    assert!(scene.get(id).is_none());
    assert_eq!(scene.len(), 0);
}

#[test]
fn remove_nonexistent_returns_none() {
    let mut scene = Scene::new();
    let id = scene.add(disk(0.0));
    scene.remove(id);
    assert!(scene.remove(id).is_none());
}

#[test]
fn multiple_objects() {
    let mut scene = Scene::new();
    let id1 = scene.add(disk(0.0));
    let id2 = scene.add(disk(0.0));
    assert_ne!(id1, id2);
    assert_eq!(scene.len(), 2);
}

#[test]
fn iter_returns_all_objects() {
    let mut scene = Scene::new();
    scene.add(disk(0.0));
    scene.add(disk(0.0));
    let count = scene.iter().len();
    assert_eq!(count, 2);
}

#[test]
fn is_empty() {
    let scene: Scene<Obj> = Scene::new();
    assert!(scene.is_empty());
}

#[test]
fn world_draw_order_sorts_back_to_front() {
    let mut scene = Scene::new();
    let front = scene.add(disk(0.0));
    let back = scene.add(disk(-0.01));
    assert_eq!(scene.world_draw_order(), vec![back, front]);
}

#[test]
fn world_draw_order_ties_keep_insertion_order() {
    let mut scene = Scene::new();
    let first = scene.add(disk(0.0));
    let second = scene.add(disk(0.0));
    assert_eq!(scene.world_draw_order(), vec![first, second]);
}

#[test]
fn world_draw_order_skips_hidden_and_screen_space() {
    let mut scene = Scene::new();
    let visible = scene.add(disk(0.0));
    let hidden = scene.add(disk(-1.0));
    scene.add(Obj { depth: depth_key(0.0), screen: true });
    scene.set_visible(hidden, false);
    assert_eq!(scene.world_draw_order(), vec![visible]);
}

#[test]
fn back_to_front_is_a_stable_sort() {
    assert_eq!(back_to_front(&vec![3, -1, 3, 0, -1]), vec![1, 4, 3, 0, 2]);
    assert!(back_to_front(&vec![]).is_empty());
    assert_eq!(back_to_front(&vec![i64::MAX, i64::MIN]), vec![1, 0]);
}

#[test]
fn obj_ref_copies() {
    let r = ObjRef { id: ObjectId::test_id(2) };
    let s = r;
    assert_eq!(r.id, s.id);
}

#[test]
fn screen_draw_order_lists_visible_overlays_in_slot_order() {
    let mut scene = Scene::new();
    let hud = scene.add(Obj { depth: 5, screen: true });
    scene.add(disk(0.0));
    let hidden = scene.add(Obj { depth: 0, screen: true });
    let label = scene.add(Obj { depth: -5, screen: true });
    scene.set_visible(hidden, false);
    assert_eq!(scene.screen_draw_order(), vec![hud, label]);
    scene.remove(hud);
    assert_eq!(scene.screen_draw_order(), vec![label]);
}

#[test]
fn a_history_of_calls() {
    let mut scene: Scene<u32> = Scene::new();
    let a = scene.add(10);
    let b = scene.add(20);
    let c = scene.add(30);
    scene.set_visible(b, false);
    assert_eq!(scene.remove(a), Some(10));
    assert_eq!(scene.remove(a), None);
    if let Some(o) = scene.get_mut(c) {
        *o = 31;
    }
    scene.set_visible(a, false);
    let d = scene.add(40);
    scene.set_visible(b, true);
    scene.set_visible(d, false);
    // 4 adds, 1 remove that took an object out.
    assert_eq!(scene.len(), 3);
    assert_eq!(scene.get(a), None);
    assert_eq!(scene.get(b), Some(&20));
    assert_eq!(scene.get(c), Some(&31));
    assert_eq!(scene.get(d), Some(&40));
    assert!(!scene.is_visible(a));
    assert!(scene.is_visible(b));
    assert!(scene.is_visible(c));
    assert!(!scene.is_visible(d));
}
