//! The catalogue of videos that can be rendered, looked up by name.

use vstd::prelude::*;

use crate::chars::{chars_of, same_text, string_of};

verus! {

/// A video: its name, a one-line description, how to build it (`B`, a
/// scene-building function in practice), and an optional audio track.
#[derive(Clone, Copy)]
pub struct Video<B> {
    pub name: &'static str,
    pub description: &'static str,
    pub build: B,
    pub audio: Option<&'static str>,
}

/// The catalogue, with the given build function for each video.
pub fn catalogue<B: Copy>(bouncing_ball: B, torus_knot: B) -> (v: Vec<Video<B>>)
    ensures
        v@.len() == 2,
        v[0].name@ == "bouncing_ball"@,
        v[0].description@ == "Bouncing ball with easing, rectangle pulse, hexagon rotation"@,
        v[0].build == bouncing_ball,
        v[0].audio is None,
        v[1].name@ == "torus_knot"@,
        v[1].description@ == "Rainbow torus knot with dolly zoom and ring sweep animations"@,
        v[1].build == torus_knot,
        v[1].audio is None,
{
    vec![
        Video {
            name: "bouncing_ball",
            description: "Bouncing ball with easing, rectangle pulse, hexagon rotation",
            build: bouncing_ball,
            audio: None,
        },
        Video {
            name: "torus_knot",
            description: "Rainbow torus knot with dolly zoom and ring sweep animations",
            build: torus_knot,
            audio: None,
        },
    ]
}

/// The first video in `videos` called `name`, if any.
pub fn find<'a, B>(videos: &'a Vec<Video<B>>, name: &str) -> (r: Option<&'a Video<B>>)
    ensures
        match r {
            Some(v) => exists|i: int|
                0 <= i < videos.len() && *v == videos[i] && videos[i].name@ == name@
                    && forall|j: int| 0 <= j < i ==> (#[trigger] videos[j]).name@ != name@,
            None => forall|j: int| 0 <= j < videos.len() ==> (#[trigger] videos[j]).name@ != name@,
        },
{
    let mut i: usize = 0;
    while i < videos.len()
        invariant
            i <= videos.len(),
            forall|j: int| 0 <= j < i ==> (#[trigger] videos[j]).name@ != name@,
        decreases videos.len() - i,
    {
        if same_text(videos[i].name, name) {
            return Some(&videos[i]);
        }
        i = i + 1;
    }
    None
}

impl<B> Video<B> {
    /// "name — description", as the video is listed.
    pub fn label(&self) -> (s: String)
        ensures
            s@ == self.name@ + " — "@ + self.description@,
    {
        let mut cs = chars_of(self.name);
        let sep = chars_of(" — ");
        let desc = chars_of(self.description);
        let ghost start = cs@;
        let mut i: usize = 0;
        while i < sep.len()
            invariant
                i <= sep.len(),
                cs@ == start + sep@.take(i as int),
            decreases sep.len() - i,
        {
            cs.push(sep[i]);
            proof {
                assert(cs@ =~= start + sep@.take(i + 1));
            }
            i = i + 1;
        }
        assert(sep@.take(sep.len() as int) =~= sep@);
        let ghost mid = cs@;
        let mut i: usize = 0;
        while i < desc.len()
            invariant
                i <= desc.len(),
                cs@ == mid + desc@.take(i as int),
            decreases desc.len() - i,
        {
            cs.push(desc[i]);
            proof {
                assert(cs@ =~= mid + desc@.take(i + 1));
            }
            i = i + 1;
        }
        assert(desc@.take(desc.len() as int) =~= desc@);
        string_of(cs.as_slice())
    }
}

} // verus!
