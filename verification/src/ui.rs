//! What the user interface reports to the rest of the frame.

use vstd::prelude::*;

verus! {

/// Which input domains the interface captured this frame; scene controls
/// ignore captured input.
#[derive(Debug, Clone, Copy, PartialEq, Eq, Structural)]
pub struct UiCapture {
    pub pointer: bool,
    pub keyboard: bool,
}

} // verus!
