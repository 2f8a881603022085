//! The checks a scene builder makes before it animates a property or binds
//! a property of one object to a property of another, over plain values:
//! which objects and properties exist, the kinds of their values, the
//! keyframe tracks, and the bindings already in place.

use vstd::prelude::*;

use crate::chars::same_text;
use crate::scene::ObjectId;

verus! {

/// The kind of an animatable value: which variant it is, without its data.
#[derive(Debug, Clone, Copy, PartialEq, Eq, Structural)]
pub enum ValueKind {
    Float,
    Vec2,
    Vec3,
    Vec4,
    Bool,
    Transform2D,
    Mat4,
}

impl ValueKind {
    /// The name of the kind, as messages show it.
    pub fn name(&self) -> (s: &'static str)
        ensures
            s@ == match *self {
                ValueKind::Float => "Float"@,
                ValueKind::Vec2 => "Vec2"@,
                ValueKind::Vec3 => "Vec3"@,
                ValueKind::Vec4 => "Vec4"@,
                ValueKind::Bool => "Bool"@,
                ValueKind::Transform2D => "Transform2D"@,
                ValueKind::Mat4 => "Mat4"@,
            },
    {
        match *self {
            ValueKind::Float => "Float",
            ValueKind::Vec2 => "Vec2",
            ValueKind::Vec3 => "Vec3",
            ValueKind::Vec4 => "Vec4",
            ValueKind::Bool => "Bool",
            ValueKind::Transform2D => "Transform2D",
            ValueKind::Mat4 => "Mat4",
        }
    }
}

/// Why a binding is refused.
#[derive(Debug, Clone, Copy, PartialEq, Eq, Structural)]
pub enum BindError {
    /// The target object would be its own source.
    SelfBinding,
    /// The target object is not in the scene.
    TargetNotFound,
    /// The target object has no property of that name.
    UnknownProperty,
    /// The source object is not in the scene.
    SourceNotFound,
    /// The source object cannot be read under that property name.
    SourceNotReadable,
    /// The source value is of another kind than the target property.
    TypeMismatch,
    /// The offset is of another kind than the target property.
    OffsetTypeMismatch,
    /// The target property's kind takes no offset.
    OffsetNotSupported,
    /// The window ends before it starts.
    EmptyWindow,
    /// The target property is already bound during an overlapping window.
    AlreadyBound,
    /// The target property has a keyframe track, and a binding without a
    /// window would override it at every time.
    TrackedProperty,
}

/// What is known of a requested binding.
#[derive(Debug, Clone, Copy)]
pub struct BindRequest {
    pub target: ObjectId,
    pub source: ObjectId,
    /// Whether the target object is in the scene.
    pub target_found: bool,
    /// The kind of the target property, if the target lists it.
    pub target_kind: Option<ValueKind>,
    /// Whether the source object is in the scene.
    pub source_found: bool,
    /// The kind of the source value, if the source can be read there.
    pub source_kind: Option<ValueKind>,
    /// The kind of the offset, if there is one.
    pub offset_kind: Option<ValueKind>,
    /// Whether the target property's kind takes offsets.
    pub offset_supported: bool,
    /// Whether the window (when both ends are given) starts before it ends.
    pub window_ordered: bool,
    /// Whether the binding has a window (either end given); one without is
    /// active at every time.
    pub windowed: bool,
    /// Whether the target property already has a keyframe track.
    pub has_track: bool,
}

/// Whether an existing binding `(target, property, overlaps)` holds the
/// same target property during an overlapping window.
pub open spec fn clashes(b: (ObjectId, Seq<char>, bool), target: ObjectId, property: Seq<char>) -> bool {
    b.0 == target && b.1 == property && b.2
}

/// The first check a binding request fails, in the order the builder makes
/// them, or `Ok` when it passes them all; `clash` tells whether the target
/// property is already bound during an overlapping window.
pub open spec fn verdict(r: BindRequest, clash: bool) -> Result<(), BindError> {
    if r.target == r.source {
        Err(BindError::SelfBinding)
    } else if !r.target_found {
        Err(BindError::TargetNotFound)
    } else if r.target_kind is None {
        Err(BindError::UnknownProperty)
    } else if !r.source_found {
        Err(BindError::SourceNotFound)
    } else if r.source_kind is None {
        Err(BindError::SourceNotReadable)
    } else if r.source_kind != r.target_kind {
        Err(BindError::TypeMismatch)
    } else if r.offset_kind is Some && r.offset_kind != r.target_kind {
        Err(BindError::OffsetTypeMismatch)
    } else if r.offset_kind is Some && !r.offset_supported {
        Err(BindError::OffsetNotSupported)
    } else if !r.window_ordered {
        Err(BindError::EmptyWindow)
    } else if clash {
        Err(BindError::AlreadyBound)
    } else if r.has_track && !r.windowed {
        Err(BindError::TrackedProperty)
    } else {
        Ok(())
    }
}

/// A binding without an offset is never refused on account of offsets: its
/// verdict is neither offset error, and does not depend on whether the
/// target kind would take an offset.
pub proof fn lemma_no_offset_no_offset_checks(r: BindRequest, clash: bool, supported: bool)
    requires
        r.offset_kind is None,
    ensures
        verdict(r, clash) != Err::<(), BindError>(BindError::OffsetTypeMismatch),
        verdict(r, clash) != Err::<(), BindError>(BindError::OffsetNotSupported),
        verdict(r, clash) == verdict(BindRequest { offset_supported: supported, ..r }, clash),
{
}

/// The verdict on a binding of `property`, given the bindings in place as
/// `(target, property, window overlaps the new one)`.
pub open spec fn bind_verdict(
    r: BindRequest,
    property: Seq<char>,
    existing: Seq<(ObjectId, Seq<char>, bool)>,
) -> Result<(), BindError> {
    verdict(r, exists|k: int| 0 <= k < existing.len() && #[trigger] clashes(existing[k], r.target, property))
}

fn verdict_exec(request: &BindRequest, clash: bool) -> (r: Result<(), BindError>)
    ensures
        r == verdict(*request, clash),
{
    if request.target == request.source {
        Err(BindError::SelfBinding)
    } else if !request.target_found {
        Err(BindError::TargetNotFound)
    } else if request.target_kind.is_none() {
        Err(BindError::UnknownProperty)
    } else if !request.source_found {
        Err(BindError::SourceNotFound)
    } else if request.source_kind.is_none() {
        Err(BindError::SourceNotReadable)
    } else if request.source_kind != request.target_kind {
        Err(BindError::TypeMismatch)
    } else if request.offset_kind.is_some() && request.offset_kind != request.target_kind {
        Err(BindError::OffsetTypeMismatch)
    } else if request.offset_kind.is_some() && !request.offset_supported {
        Err(BindError::OffsetNotSupported)
    } else if !request.window_ordered {
        Err(BindError::EmptyWindow)
    } else if clash {
        Err(BindError::AlreadyBound)
    } else if request.has_track && !request.windowed {
        Err(BindError::TrackedProperty)
    } else {
        Ok(())
    }
}

/// Check a binding of `property` on the request's target, given the
/// bindings already in place as `(target, property, window overlaps the new
/// one)`.
pub fn check_binding(
    request: &BindRequest,
    property: &str,
    existing: &Vec<(ObjectId, String, bool)>,
) -> (r: Result<(), BindError>)
    ensures
        r == bind_verdict(
            *request,
            property@,
            existing@.map_values(|b: (ObjectId, String, bool)| (b.0, b.1@, b.2)),
        ),
{
    let ghost ev = existing@.map_values(|b: (ObjectId, String, bool)| (b.0, b.1@, b.2));
    let mut k: usize = 0;
    while k < existing.len()
        invariant
            k <= existing.len(),
            ev == existing@.map_values(|b: (ObjectId, String, bool)| (b.0, b.1@, b.2)),
            forall|j: int| 0 <= j < k ==> !#[trigger] clashes(ev[j], request.target, property@),
        decreases existing.len() - k,
    {
        let b = &existing[k];
        if b.0 == request.target && b.2 && same_text(b.1.as_str(), property) {
            assert(ev[k as int] == (b.0, b.1@, b.2));
            assert(clashes(ev[k as int], request.target, property@));
            return verdict_exec(request, true);
        }
        k = k + 1;
    }
    verdict_exec(request, false)
}

/// A binding of a target property to a source property, with what else it
/// carries (its window and offset, as the caller keeps them).
pub struct Binding<P> {
    pub target: ObjectId,
    pub target_property: String,
    pub source: ObjectId,
    pub source_property: String,
    pub extra: P,
}

/// The bindings in place, each with whether its window overlaps the new one.
pub open spec fn existing_of<P>(bindings: Seq<Binding<P>>, overlaps: Seq<bool>) -> Seq<(ObjectId, Seq<char>, bool)> {
    Seq::new(bindings.len(), |k: int| (bindings[k].target, bindings[k].target_property@, overlaps[k]))
}

/// Check a binding of `property` on the request's target to `source_property`
/// on its source and, when it passes, record it after the bindings in place.
/// `overlaps[k]` tells whether the window of binding `k` overlaps the new one.
pub fn add_binding<P>(
    bindings: &mut Vec<Binding<P>>,
    request: &BindRequest,
    property: String,
    source_property: String,
    extra: P,
    overlaps: &Vec<bool>,
) -> (r: Result<(), BindError>)
    requires
        overlaps.len() == old(bindings).len(),
    ensures
        r == bind_verdict(*request, property@, existing_of(old(bindings)@, overlaps@)),
        r is Ok ==> final(bindings)@ == old(bindings)@.push(
            Binding {
                target: request.target,
                target_property: property,
                source: request.source,
                source_property,
                extra,
            },
        ),
        r is Err ==> final(bindings)@ == old(bindings)@,
{
    let ghost ev = existing_of(bindings@, overlaps@);
    let mut clash = false;
    let mut k: usize = 0;
    while k < bindings.len() && !clash
        invariant
            k <= bindings.len() == overlaps.len(),
            ev == existing_of(bindings@, overlaps@),
            clash ==> exists|j: int| 0 <= j < ev.len() && #[trigger] clashes(ev[j], request.target, property@),
            !clash ==> forall|j: int| 0 <= j < k ==> !#[trigger] clashes(ev[j], request.target, property@),
        decreases bindings.len() - k,
    {
        let b = &bindings[k];
        if b.target == request.target && overlaps[k] && same_text(b.target_property.as_str(), property.as_str()) {
            assert(clashes(ev[k as int], request.target, property@));
            clash = true;
        }
        k = k + 1;
    }
    let r = verdict_exec(request, clash);
    if r.is_ok() {
        bindings.push(Binding { target: request.target, target_property: property, source: request.source, source_property, extra });
    }
    r
}

/// Why an animation of a property is refused.
#[derive(Debug, Clone, Copy, PartialEq, Eq, Structural)]
pub enum AnimateError {
    /// The object has no property of that name.
    UnknownProperty,
    /// Keyframe `i` (the first such) holds a value of another kind than the
    /// property.
    KeyframeTypeMismatch(usize),
}

/// Check an animation of a property whose value kind is `property_kind`
/// (`None` when the object lists no such property) by keyframes whose
/// values are of the kinds `keyframe_kinds`, in the order they were given.
pub fn check_animation(property_kind: Option<ValueKind>, keyframe_kinds: &Vec<ValueKind>) -> (r: Result<
    (),
    AnimateError,
>)
    ensures
        property_kind is None ==> r == Err::<(), AnimateError>(AnimateError::UnknownProperty),
        property_kind matches Some(k) ==> match r {
            Ok(()) => forall|i: int| 0 <= i < keyframe_kinds.len() ==> keyframe_kinds[i] == k,
            Err(AnimateError::KeyframeTypeMismatch(i)) => i < keyframe_kinds.len() && keyframe_kinds[i as int]
                != k && forall|j: int| 0 <= j < i ==> keyframe_kinds[j] == k,
            Err(AnimateError::UnknownProperty) => false,
        },
{
    let k = match property_kind {
        None => return Err(AnimateError::UnknownProperty),
        Some(k) => k,
    };
    let mut i: usize = 0;
    while i < keyframe_kinds.len()
        invariant
            i <= keyframe_kinds.len(),
            property_kind == Some(k),
            forall|j: int| 0 <= j < i ==> keyframe_kinds[j] == k,
        decreases keyframe_kinds.len() - i,
    {
        if keyframe_kinds[i] != k {
            return Err(AnimateError::KeyframeTypeMismatch(i));
        }
        i = i + 1;
    }
    Ok(())
}

} // verus!
