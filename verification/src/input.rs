//! Input identifiers.
//!
//! The input thread decodes touch, pen and button events into a small, viewer-first set
//! of high-level intents; the hardware buttons it knows are named here.

use vstd::prelude::*;

verus! {

/// A hardware button.
#[derive(Clone, Copy, Debug, PartialEq, Eq, Structural)]
pub enum ButtonId {
    Power,
}

} // verus!
