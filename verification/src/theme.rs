//! Colors that the layout carries for whoever paints it. The layout never
//! looks inside them.

use vstd::prelude::*;

verus! {

/// An opaque red, green, blue color.
#[derive(Debug, Clone, Copy, PartialEq, Eq, Structural)]
pub struct Color {
    pub r: u8,
    pub g: u8,
    pub b: u8,
}

/// The three colors a layout is painted with.
#[derive(Debug, Clone, Copy, PartialEq, Eq, Structural)]
pub struct ColorTheme {
    /// Fill of every frame.
    pub background: Color,
    /// Border of every frame but the active one.
    pub border_color: Color,
    /// Border of the active frame.
    pub active_frame_color: Color,
}

} // verus!
