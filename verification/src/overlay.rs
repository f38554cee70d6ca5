//! Overlay layer: virtual buttons and their orientation anchoring.
//!
//! Buttons render above the page and never pass events into the DOM. Each can either
//! rotate with the screen or stay fixed at a physical-glass percentage regardless of
//! orientation. The logical viewport geometry lives here; placing a button from its
//! fractional position is done by the caller.

use vstd::prelude::*;
use crate::types::{Orientation, spec_is_landscape};

verus! {

/// How a button's position behaves under screen rotation.
#[derive(Clone, Copy, Debug, PartialEq, Eq, Structural)]
pub enum AnchorMode {
    /// Position is a fraction of the logical viewport — rotates and reflows with content.
    RotateWithScreen,
    /// Position is a fixed point on the physical glass — stays put as content rotates.
    FixedScreenPercent,
}

/// The logical viewport of a physical panel under an orientation: the axes swap in
/// landscape and stay as they are in portrait.
pub open spec fn spec_logical_size(phys: (u32, u32), o: Orientation) -> (u32, u32) {
    if spec_is_landscape(o) {
        (phys.1, phys.0)
    } else {
        phys
    }
}

/// Logical viewport size for a physical panel under an orientation (axes swap in landscape).
pub fn logical_size(phys: (u32, u32), o: Orientation) -> (l: (u32, u32))
    ensures
        l == spec_logical_size(phys, o),
{
    if o.is_landscape() {
        (phys.1, phys.0)
    } else {
        phys
    }
}

/// The logical viewport always has the panel's pixel count, and taking the logical size
/// of a logical size under the same orientation gives back the physical size.
pub proof fn lemma_logical_size_involution(phys: (u32, u32), o: Orientation)
    ensures
        spec_logical_size(spec_logical_size(phys, o), o) == phys,
        spec_logical_size(phys, o).0 * spec_logical_size(phys, o).1 == phys.0 * phys.1,
        !spec_is_landscape(o) ==> spec_logical_size(phys, o) == phys,
{
    assert(phys.1 * phys.0 == phys.0 * phys.1) by (nonlinear_arith);
}

} // verus!
