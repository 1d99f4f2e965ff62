//! What there is to paint for a layout, as plain values that a renderer can
//! carry out one after the other.

use vstd::prelude::*;
use crate::frame::Frame;
use crate::theme::{Color, ColorTheme};

verus! {

/// How a rectangle is painted.
#[derive(Debug, Clone, Copy, PartialEq, Eq, Structural)]
pub enum Stroke {
    /// The whole rectangle is filled.
    Fill,
    /// Only the border is drawn.
    Outline,
}

/// One rectangle to paint in one color.
#[derive(Debug, Clone, Copy, PartialEq, Eq, Structural)]
pub struct DrawOp {
    pub stroke: Stroke,
    pub x: i32,
    pub y: i32,
    pub width: u32,
    pub height: u32,
    pub color: Color,
}

/// The rectangle of `f`, painted as `stroke` in `color`.
pub open spec fn draw_op(stroke: Stroke, f: Frame, color: Color) -> DrawOp {
    DrawOp { stroke, x: f.x, y: f.y, width: f.width as u32, height: f.height as u32, color }
}

/// The color of the border of frame `i` when frame `active` is active.
pub open spec fn border_of(theme: ColorTheme, i: int, active: int) -> Color {
    if i == active {
        theme.active_frame_color
    } else {
        theme.border_color
    }
}

/// For each frame in sequence order, its fill and then its border.
pub open spec fn draw_list(frames: Seq<Frame>, active: int, theme: ColorTheme) -> Seq<DrawOp> {
    Seq::new(
        2 * frames.len(),
        |k: int|
            if k % 2 == 0 {
                draw_op(Stroke::Fill, frames[k / 2], theme.background)
            } else {
                draw_op(Stroke::Outline, frames[k / 2], border_of(theme, k / 2, active))
            },
    )
}

} // verus!
