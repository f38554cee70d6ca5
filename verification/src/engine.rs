//! Data that the render engine hands to the rest of the viewer.
//!
//! The web engine itself is a replaceable component; the viewer consumes painted
//! surfaces, damage rectangles and an extracted link model.

use vstd::prelude::*;
use crate::types::Rect;

verus! {

/// A link discovered in the current document, with the signals the link drawer scores.
#[derive(Clone, Debug)]
pub struct LinkInfo {
    pub href: String,
    pub text: String,
    /// `rel` tokens on the `<a>`/`<link>` (lower-cased), e.g. `["next"]`.
    pub rel: Vec<String>,
    /// True if the link sits inside a `<nav>` / pagination landmark.
    pub in_nav: bool,
    /// True if same-origin as the current document.
    pub same_origin: bool,
    /// Vertical position bucket within the document.
    pub position: DomPosition,
}

#[derive(Clone, Copy, Debug, PartialEq, Eq, Structural)]
pub enum DomPosition {
    Top,
    Middle,
    Bottom,
}

/// A heading entry for the reader table of contents / jump menu.
#[derive(Clone, Debug)]
pub struct Heading {
    /// 1–6.
    pub level: u8,
    pub text: String,
    pub anchor: String,
}

/// Result of painting: the damaged region the compositor should re-pull.
#[derive(Clone, Copy, Debug)]
pub struct PaintDamage {
    pub region: Rect,
}

} // verus!
