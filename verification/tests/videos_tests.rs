use rs_namin::chars::char_prefix;
use rs_namin::ui::UiCapture;
use rs_namin::videos::{catalogue, find};

#[test]
fn finds_videos_by_name() {
    let videos = catalogue(1u8, 2u8);
    let v = find(&videos, "torus_knot").unwrap();
    assert_eq!(v.build, 2);
    assert_eq!(v.name, "torus_knot");
    assert!(find(&videos, "bouncing_ball").is_some());
    assert!(find(&videos, "nope").is_none());
    assert!(find(&videos, "").is_none());
}

#[test]
fn labels() {
    let videos = catalogue((), ());
    assert_eq!(
        videos[0].label(),
        "bouncing_ball — Bouncing ball with easing, rectangle pulse, hexagon rotation"
    );
}

#[test]
fn text_prefixes() {
    assert_eq!(char_prefix("Hello", 0), "");
    assert_eq!(char_prefix("Hello", 2), "He");
    assert_eq!(char_prefix("Hello", 9), "Hello");
    assert_eq!(char_prefix("héllo wörld", 4), "héll");
    assert_eq!(char_prefix("", 3), "");
}

#[test]
fn capture_flags() {
    let c = UiCapture { pointer: true, keyboard: false };
    assert_eq!(c, UiCapture { pointer: true, keyboard: false });
}
