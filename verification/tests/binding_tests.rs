use rs_namin::binding::{add_binding, check_animation, check_binding, AnimateError, BindError, BindRequest, Binding, ValueKind};
use rs_namin::scene::ObjectId;

fn request() -> BindRequest {
    BindRequest {
        target: ObjectId::test_id(0),
        source: ObjectId::test_id(1),
        target_found: true,
        target_kind: Some(ValueKind::Vec3),
        source_found: true,
        source_kind: Some(ValueKind::Vec3),
        offset_kind: None,
        offset_supported: true,
        window_ordered: true,
        windowed: false,
        has_track: false,
    }
}

#[test]
fn a_plain_binding_passes() {
    assert_eq!(check_binding(&request(), "position", &vec![]), Ok(()));
}

#[test]
fn each_refusal() {
    let none: Vec<(ObjectId, String, bool)> = vec![];
    let r = BindRequest { source: ObjectId::test_id(0), ..request() };
    assert_eq!(check_binding(&r, "position", &none), Err(BindError::SelfBinding));
    let r = BindRequest { target_found: false, target_kind: None, ..request() };
    assert_eq!(check_binding(&r, "position", &none), Err(BindError::TargetNotFound));
    let r = BindRequest { target_kind: None, ..request() };
    assert_eq!(check_binding(&r, "nope", &none), Err(BindError::UnknownProperty));
    let r = BindRequest { source_found: false, ..request() };
    assert_eq!(check_binding(&r, "position", &none), Err(BindError::SourceNotFound));
    let r = BindRequest { source_kind: None, ..request() };
    assert_eq!(check_binding(&r, "position", &none), Err(BindError::SourceNotReadable));
    let r = BindRequest { source_kind: Some(ValueKind::Float), ..request() };
    assert_eq!(check_binding(&r, "position", &none), Err(BindError::TypeMismatch));
    let r = BindRequest { offset_kind: Some(ValueKind::Float), ..request() };
    assert_eq!(check_binding(&r, "position", &none), Err(BindError::OffsetTypeMismatch));
    let r = BindRequest { offset_kind: Some(ValueKind::Vec3), offset_supported: false, ..request() };
    assert_eq!(check_binding(&r, "position", &none), Err(BindError::OffsetNotSupported));
    let r = BindRequest { window_ordered: false, ..request() };
    assert_eq!(check_binding(&r, "position", &none), Err(BindError::EmptyWindow));
}

#[test]
fn only_an_overlapping_binding_of_the_same_property_clashes() {
    let t = ObjectId::test_id(0);
    let other = ObjectId::test_id(7);
    let existing = vec![
        (t, "color".to_string(), true),
        (other, "position".to_string(), true),
        (t, "position".to_string(), false),
    ];
    assert_eq!(check_binding(&request(), "position", &existing), Ok(()));
    let mut clash = existing.clone();
    clash.push((t, "position".to_string(), true));
    assert_eq!(check_binding(&request(), "position", &clash), Err(BindError::AlreadyBound));
    // The first failing check wins.
    let r = BindRequest { window_ordered: false, ..request() };
    assert_eq!(check_binding(&r, "position", &clash), Err(BindError::EmptyWindow));
}

#[test]
fn kind_names() {
    assert_eq!(ValueKind::Float.name(), "Float");
    assert_eq!(ValueKind::Transform2D.name(), "Transform2D");
    assert_eq!(ValueKind::Mat4.name(), "Mat4");
}

#[test]
fn an_always_active_binding_cannot_shadow_a_track() {
    let none: Vec<(ObjectId, String, bool)> = vec![];
    let r = BindRequest { has_track: true, ..request() };
    assert_eq!(check_binding(&r, "position", &none), Err(BindError::TrackedProperty));
    // A windowed binding may coexist with the track.
    let r = BindRequest { has_track: true, windowed: true, ..request() };
    assert_eq!(check_binding(&r, "position", &none), Ok(()));
}

#[test]
fn bind_self_object_is_refused() {
    let r = BindRequest { source: ObjectId::test_id(0), ..request() };
    let mut bindings: Vec<Binding<()>> = Vec::new();
    let result = add_binding(&mut bindings, &r, "position".to_string(), "position".to_string(), (), &vec![]);
    assert_eq!(result, Err(BindError::SelfBinding));
    assert!(bindings.is_empty());
}

#[test]
fn passing_bindings_are_recorded_in_order() {
    let mut bindings: Vec<Binding<u8>> = Vec::new();
    assert_eq!(
        add_binding(&mut bindings, &request(), "position".to_string(), "position".to_string(), 1, &vec![]),
        Ok(())
    );
    // The same property again, during an overlapping window: refused.
    assert_eq!(
        add_binding(&mut bindings, &request(), "position".to_string(), "center".to_string(), 2, &vec![true]),
        Err(BindError::AlreadyBound)
    );
    // Another property of the same target: recorded after the first.
    assert_eq!(
        add_binding(&mut bindings, &request(), "color".to_string(), "color".to_string(), 3, &vec![true]),
        Ok(())
    );
    assert_eq!(bindings.len(), 2);
    assert_eq!(bindings[0].target_property, "position");
    assert_eq!(bindings[0].source, ObjectId::test_id(1));
    assert_eq!(bindings[0].extra, 1);
    assert_eq!(bindings[1].target_property, "color");
    assert_eq!(bindings[1].extra, 3);
}

#[test]
fn animations_check_the_property_and_each_keyframe() {
    let kinds = vec![ValueKind::Float, ValueKind::Float];
    assert_eq!(check_animation(Some(ValueKind::Float), &kinds), Ok(()));
    assert_eq!(check_animation(None, &kinds), Err(AnimateError::UnknownProperty));
    let mixed = vec![ValueKind::Vec3, ValueKind::Float, ValueKind::Bool];
    assert_eq!(check_animation(Some(ValueKind::Vec3), &mixed), Err(AnimateError::KeyframeTypeMismatch(1)));
    assert_eq!(check_animation(Some(ValueKind::Bool), &vec![]), Ok(()));
}
