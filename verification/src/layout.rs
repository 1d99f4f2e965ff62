//! The mathematical model of a layout and of each operation on it.
//!
//! A [`Layout`] is what a frame manager stands for: the frames in sequence
//! order, the index of the active one, the canvas size and the theme. Every
//! operation of the manager is a function from one layout to the next, and
//! the manager's contracts say that it computes exactly that function.

use vstd::prelude::*;
use crate::frame::{Axis, Direction, Frame, MIN_SIZE, min_int};
use crate::reflow::{adjacent, reflowed};
use crate::render::{DrawOp, draw_list};
use crate::repair::{all_fit, repaired};
use crate::resize::{edge_is_shared, effective, resize_in_bounds, resized};
use crate::select::selection;
use crate::theme::ColorTheme;
use crate::tiling::tiles;

verus! {

/// The state of a tiling layout.
pub struct Layout {
    /// The frames, in sequence order.
    pub frames: Seq<Frame>,
    /// Index of the active frame.
    pub active: int,
    /// Canvas width in canvas units.
    pub canvas_width: int,
    /// Canvas height in canvas units.
    pub canvas_height: int,
    /// Colors for painting; no operation reads them.
    pub theme: ColorTheme,
}

/// One operation on a layout. A window resize carries the frames as the
/// caller has scaled them to the new canvas.
pub enum Operation {
    SplitHorizontal,
    SplitVertical,
    CloseActive,
    KeepActiveOnly,
    ResizeActiveBy { dx: int, dy: int },
    SelectDirection { direction: Direction },
    CanvasResized { scaled: Seq<Frame>, width: int, height: int },
}

/// The frame that covers a canvas of `w` by `h` exactly.
pub open spec fn full_frame(w: int, h: int) -> Frame {
    Frame { x: 0, y: 0, width: w as i32, height: h as i32 }
}

/// The upper half of `f` when it is cut across its height: half of the
/// height, rounded down.
pub open spec fn upper_half(f: Frame) -> Frame {
    Frame { height: (f.height / 2) as i32, ..f }
}

/// The lower half of `f`: what the upper half leaves of it, so that the
/// odd row of an odd height goes here.
pub open spec fn lower_half(f: Frame) -> Frame {
    Frame { y: (f.y + f.height / 2) as i32, height: (f.height - f.height / 2) as i32, ..f }
}

/// The left half of `f` when it is cut across its width: half of the width,
/// rounded down.
pub open spec fn left_half(f: Frame) -> Frame {
    Frame { width: (f.width / 2) as i32, ..f }
}

/// The right half of `f`: what the left half leaves of it, so that the odd
/// column of an odd width goes here.
pub open spec fn right_half(f: Frame) -> Frame {
    Frame { x: (f.x + f.width / 2) as i32, width: (f.width - f.width / 2) as i32, ..f }
}

impl Layout {
    /// The invariant of every layout that a frame manager holds: there is a
    /// frame, the active index names one, the canvas is not empty and its
    /// edges are representable, and every frame fits.
    pub open spec fn wf(self) -> bool {
        &&& self.frames.len() >= 1
        &&& 0 <= self.active < self.frames.len()
        &&& 0 < self.canvas_width <= i32::MAX
        &&& 0 < self.canvas_height <= i32::MAX
        &&& all_fit(self.frames)
    }

    /// The active frame.
    pub open spec fn active_frame(self) -> Frame {
        self.frames[self.active]
    }

    /// The frames cover the canvas exactly and do not overlap, and each has
    /// a positive size.
    pub open spec fn is_tiling(self) -> bool {
        tiles(self.frames, self.canvas_width, self.canvas_height)
    }

    /// Every frame is at least as wide and as high as the minimum size.
    pub open spec fn keeps_minimum(self) -> bool {
        forall|i: int|
            0 <= i < self.frames.len() ==> (#[trigger] self.frames[i]).width >= MIN_SIZE
                && self.frames[i].height >= MIN_SIZE
    }

    /// Some other frame shares a whole edge with the active frame.
    pub open spec fn active_has_neighbor(self) -> bool {
        exists|j: int, axis: Axis|
            0 <= j < self.frames.len() && j != self.active && #[trigger] adjacent(
                self.frames[j],
                self.active_frame(),
                axis,
            )
    }

    /// One frame covering the whole canvas, and active.
    pub open spec fn initial(w: int, h: int, theme: ColorTheme) -> Layout {
        Layout {
            frames: seq![full_frame(w, h)],
            active: 0,
            canvas_width: w,
            canvas_height: h,
            theme,
        }
    }

    /// The active frame keeps its upper half; the lower half is appended as
    /// a new frame. The two make up the frame as it was. The active index
    /// stays.
    pub open spec fn split_horizontal(self) -> Layout {
        let f = self.active_frame();
        Layout { frames: self.frames.update(self.active, upper_half(f)).push(lower_half(f)), ..self }
    }

    /// The active frame keeps its left half; the right half is appended as
    /// a new frame. The two make up the frame as it was. The active index
    /// stays.
    pub open spec fn split_vertical(self) -> Layout {
        let f = self.active_frame();
        Layout { frames: self.frames.update(self.active, left_half(f)).push(right_half(f)), ..self }
    }

    /// All frames give way to one frame covering the canvas.
    pub open spec fn delete_others(self) -> Layout {
        Layout::initial(self.canvas_width, self.canvas_height, self.theme)
    }

    /// The gap-repair pass for a canvas of `w` by `h`; the stored canvas
    /// size stays.
    pub open spec fn adjusted(self, w: int, h: int) -> Layout {
        Layout { frames: repaired(self.frames, w, h), ..self }
    }

    /// The active frame is taken out, the frames that are left make use of
    /// its room, and the gap-repair pass runs. The active index stays where
    /// that still names a frame, and names the last frame otherwise. A
    /// layout of one frame stays as it is.
    pub open spec fn close_active(self) -> Layout {
        if self.frames.len() <= 1 {
            self
        } else {
            let rest = self.frames.remove(self.active);
            Layout {
                frames: repaired(
                    reflowed(rest, self.active_frame()),
                    self.canvas_width,
                    self.canvas_height,
                ),
                active: min_int(self.active, rest.len() - 1),
                ..self
            }
        }
    }

    /// A demand on callers of the resize: the far edges of the active frame
    /// stay representable under the move that takes place.
    pub open spec fn resize_in_bounds(self, dx: int, dy: int) -> bool {
        self.frames.len() > 1 ==> resize_in_bounds(self.frames, self.active, dx, dy)
    }

    /// The right edge of the active frame moves by `dx` and its bottom edge
    /// by `dy`, each as far as the minimum size allows, and the gap-repair
    /// pass runs. A layout of one frame stays as it is, and so does any
    /// layout when both moves are zero.
    pub open spec fn resize_active(self, dx: int, dy: int) -> Layout {
        if self.frames.len() <= 1 || (dx == 0 && dy == 0) {
            self
        } else {
            Layout {
                frames: repaired(
                    resized(self.frames, self.active, dx, dy),
                    self.canvas_width,
                    self.canvas_height,
                ),
                ..self
            }
        }
    }

    /// Whether a resize does nothing but move an edge of the active frame
    /// inwards from the canvas edge, in a way that the gap-repair pass
    /// undoes: the right edge; or the bottom edge, where no frame that ends
    /// where the active frame begins starts level with the rows that the
    /// active frame gives up.
    pub open spec fn moves_inward_from_canvas_edge(self, dx: int, dy: int) -> bool {
        let a = self.active_frame();
        let ex = effective(self.frames, self.active, Axis::Horizontal, dx);
        let ey = effective(self.frames, self.active, Axis::Vertical, dy);
        ||| ex < 0 && ey == 0 && a.right() == self.canvas_width
        ||| {
            &&& ey < 0 && ex == 0 && a.bottom() == self.canvas_height
            &&& forall|m: int|
                0 <= m < self.frames.len() && m != self.active && (#[trigger] self.frames[m]).right()
                    == a.x ==> self.frames[m].y < a.bottom() + dy
        }
    }

    /// The canvas becomes `w` by `h`. The frames become `scaled`, which is
    /// the frames as the caller has scaled them to the new canvas, after
    /// the gap-repair pass on the new canvas.
    pub open spec fn resize_window(self, scaled: Seq<Frame>, w: int, h: int) -> Layout {
        Layout { frames: repaired(scaled, w, h), canvas_width: w, canvas_height: h, ..self }
    }

    /// The best candidate in the direction becomes active; without a
    /// candidate the layout stays as it is.
    pub open spec fn select(self, direction: Direction) -> Layout {
        Layout { active: selection(self.frames, self.active, direction), ..self }
    }

    /// The layout after one operation.
    pub open spec fn apply(self, op: Operation) -> Layout {
        match op {
            Operation::SplitHorizontal => self.split_horizontal(),
            Operation::SplitVertical => self.split_vertical(),
            Operation::CloseActive => self.close_active(),
            Operation::KeepActiveOnly => self.delete_others(),
            Operation::ResizeActiveBy { dx, dy } => self.resize_active(dx, dy),
            Operation::SelectDirection { direction } => self.select(direction),
            Operation::CanvasResized { scaled, width, height } => self.resize_window(
                scaled,
                width,
                height,
            ),
        }
    }

    /// What an operation demands of its caller: a resize keeps the far
    /// edges of the active frame representable; a window resize comes with
    /// as many scaled frames as there are frames, all of which fit, and
    /// with a canvas that is not empty.
    pub open spec fn admits(self, op: Operation) -> bool {
        match op {
            Operation::ResizeActiveBy { dx, dy } => self.resize_in_bounds(dx, dy),
            Operation::CanvasResized { scaled, width, height } => {
                &&& scaled.len() == self.frames.len()
                &&& all_fit(scaled)
                &&& 0 < width <= i32::MAX
                &&& 0 < height <= i32::MAX
            },
            _ => true,
        }
    }

    /// Whether a resize moves at most one edge of the active frame, and that
    /// edge is shared: it lies inside the canvas, and the frames that begin
    /// there lie within the active frame's span.
    pub open spec fn moves_shared_edge_only(self, dx: int, dy: int) -> bool {
        let ex = effective(self.frames, self.active, Axis::Horizontal, dx);
        let ey = effective(self.frames, self.active, Axis::Vertical, dy);
        &&& ex == 0 || ey == 0
        &&& ex != 0 ==> edge_is_shared(
            self.frames,
            self.canvas_width,
            self.canvas_height,
            self.active,
            Axis::Horizontal,
        )
        &&& ey != 0 ==> edge_is_shared(
            self.frames,
            self.canvas_width,
            self.canvas_height,
            self.active,
            Axis::Vertical,
        )
    }

    /// Whether the operation is one that keeps a tiling: a split of a frame
    /// of at least two units; a close of a frame with a neighbour along a
    /// whole edge; a resize that moves one shared edge, or one that the
    /// repair undoes; a window resize whose scaled frames tile the new
    /// canvas; a selection; the keeping of one frame.
    pub open spec fn keeps_tiling_under(self, op: Operation) -> bool {
        match op {
            Operation::SplitHorizontal => self.active_frame().height >= 2,
            Operation::SplitVertical => self.active_frame().width >= 2,
            Operation::CloseActive => self.frames.len() > 1 ==> self.active_has_neighbor(),
            Operation::KeepActiveOnly => true,
            Operation::ResizeActiveBy { dx, dy } => {
                ||| self.frames.len() <= 1
                ||| self.moves_shared_edge_only(dx, dy)
                ||| self.moves_inward_from_canvas_edge(dx, dy)
            },
            Operation::SelectDirection { direction } => true,
            Operation::CanvasResized { scaled, width, height } => tiles(scaled, width, height),
        }
    }

    /// The layout after the operations, one after the other.
    pub open spec fn after(self, ops: Seq<Operation>) -> Layout
        decreases ops.len(),
    {
        if ops.len() == 0 {
            self
        } else {
            self.after(ops.drop_last()).apply(ops.last())
        }
    }

    /// What there is to paint: for each frame its fill and its border.
    pub open spec fn draw_ops(self) -> Seq<DrawOp> {
        draw_list(self.frames, self.active, self.theme)
    }
}

} // verus!
