//! Verified core of an e-ink web viewer: shared geometry and device types, the
//! refresh-mode state machine, link-drawer scoring, virtual-button anchoring,
//! Netscape bookmark import, and the greyscale pixel pipeline.

pub mod types;
pub mod text;
pub mod bookmarks;
pub mod engine;
pub mod nav;
pub mod pixel;
pub mod display;
pub mod hal;
pub mod overlay;
pub mod input;
