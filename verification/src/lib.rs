//! Panel-segmentation engine for raster images.
//!
//! The engine splits a page into independent panels: a flood fill marks the
//! background frame reachable from a seed pixel, a two-pass connected-component
//! labeling assigns a canonical region id to every remaining pixel, and an
//! extraction step materializes one cropped raster per region together with its
//! bounding box.

use vstd::prelude::*;

pub mod crop;
pub mod irrigate;
pub mod pixel;

verus! {

/// Errors raised by the segmentation engine.
#[derive(Debug, PartialEq, Eq, Structural, Clone, Copy)]
pub enum PanelError {
    /// A coordinate `(x, y)` fell outside the active bounds
    /// `x_start..x_end` by `y_start..y_end`.
    RangeError { x: u32, y: u32, x_start: u32, x_end: u32, y_start: u32, y_end: u32 },
    /// The raw-label counter outgrew the equivalence table.
    CapacityExceeded,
}

pub type PanelResult<T> = Result<T, PanelError>;

} // verus!
