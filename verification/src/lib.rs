//! Verified core of the rs-namin animation toolkit: L-system rewriting and
//! turtle planning, the scene object store and its draw order, the
//! plot-expression parser, mesh building and chunking within draw-call
//! limits (with the greedy packing law over whole sequences of primitives),
//! laws over whole histories of scene calls, the checks made before binding
//! one object's property to another's, reading the SVG that LaTeX
//! typesetting produces, text reveal and the video catalogue.

pub mod binding;
pub mod chars;
pub mod expr;
pub mod l_system;
pub mod mesh;
pub mod mesh_packing;
pub mod scene;
pub mod scene_history;
pub mod svg;
pub mod ui;
pub mod videos;
