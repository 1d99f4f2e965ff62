//! The frame manager: the executable layout engine.

use vstd::prelude::*;
use crate::frame::{Direction, Frame, MIN_SIZE, min_int};
use crate::layout::Layout;
use crate::reflow::reflow_frames;
use crate::render::{DrawOp, Stroke, draw_list};
use crate::repair::{
    all_fit,
    frames_fit,
    lemma_repaired,
    repair_frames,
    repaired,
    settled,
    stretched_one,
    stretched_to,
};
use crate::resize::{lemma_resized, resize_fits, resize_frames, resized};
use crate::select::{best_upto, select_in_direction};
use crate::theme::ColorTheme;

verus! {

/// Owns the frames of one canvas and the index of the active frame.
pub struct FrameManager {
    frames: Vec<Frame>,
    active_frame: usize,
    color_theme: ColorTheme,
    window_width: u32,
    window_height: u32,
}

impl View for FrameManager {
    type V = Layout;

    closed spec fn view(&self) -> Layout {
        Layout {
            frames: self.frames@,
            active: self.active_frame as int,
            canvas_width: self.window_width as int,
            canvas_height: self.window_height as int,
            theme: self.color_theme,
        }
    }
}

impl FrameManager {
    /// A manager for a canvas of `window_width` by `window_height`, with one
    /// frame that covers it.
    pub fn new(window_width: u32, window_height: u32, color_theme: &ColorTheme) -> (manager: Self)
        requires
            0 < window_width <= i32::MAX,
            0 < window_height <= i32::MAX,
        ensures
            manager@ == Layout::initial(window_width as int, window_height as int, *color_theme),
            manager@.wf(),
    {
        let mut frames: Vec<Frame> = Vec::new();
        frames.push(Frame { x: 0, y: 0, width: window_width as i32, height: window_height as i32 });
        let manager = Self {
            frames,
            active_frame: 0,
            color_theme: *color_theme,
            window_width,
            window_height,
        };
        proof {
            assert(manager@.frames =~= Layout::initial(
                window_width as int,
                window_height as int,
                *color_theme,
            ).frames);
        }
        manager
    }

    /// The frames in sequence order.
    pub fn frames(&self) -> (frames: &Vec<Frame>)
        ensures
            frames@ == self@.frames,
    {
        &self.frames
    }

    /// The index of the active frame.
    pub fn active_index(&self) -> (index: usize)
        ensures
            index == self@.active,
    {
        self.active_frame
    }

    /// The canvas width.
    pub fn window_width(&self) -> (width: u32)
        ensures
            width == self@.canvas_width,
    {
        self.window_width
    }

    /// The canvas height.
    pub fn window_height(&self) -> (height: u32)
        ensures
            height == self@.canvas_height,
    {
        self.window_height
    }

    /// The theme the manager was made with.
    pub fn color_theme(&self) -> (theme: ColorTheme)
        ensures
            theme == self@.theme,
    {
        self.color_theme
    }

    /// Whether the manager's invariant holds: there is a frame, the active
    /// index names one, the canvas is not empty, and every frame fits. It
    /// holds of every manager that this module has made or changed.
    pub fn invariants_hold(&self) -> (ok: bool)
        ensures
            ok == self@.wf(),
    {
        self.frames.len() >= 1 && self.active_frame < self.frames.len() && 0 < self.window_width
            && self.window_width <= i32::MAX as u32 && 0 < self.window_height
            && self.window_height <= i32::MAX as u32 && frames_fit(&self.frames)
    }

    /// Whether a resize by `dx` and `dy` keeps the far edges of the active
    /// frame representable, as `resize_active_frame` demands.
    pub fn resize_stays_in_bounds(&self, dx: i32, dy: i32) -> (ok: bool)
        requires
            self@.wf(),
        ensures
            ok == self@.resize_in_bounds(dx as int, dy as int),
    {
        self.frames.len() <= 1 || resize_fits(&self.frames, self.active_frame, dx, dy)
    }

    /// Cuts the active frame across its height. The active frame keeps the
    /// upper half, which is half of the height rounded down, and stays
    /// active; the lower half, which is the rest, is a new frame at the end
    /// of the sequence.
    pub fn split_horizontal(&mut self)
        requires
            old(self)@.wf(),
        ensures
            final(self)@ == old(self)@.split_horizontal(),
            final(self)@.wf(),
            final(self)@.frames.last().y == final(self)@.frames[old(self)@.active].bottom(),
            final(self)@.frames[old(self)@.active].height + final(self)@.frames.last().height
                == old(self)@.active_frame().height,
    {
        let frame = self.frames[self.active_frame];
        assert(self.frames@[self.active_frame as int].fits());
        let new_height = frame.height / 2;
        self.frames[self.active_frame].height = new_height;
        self.frames.push(
            Frame {
                x: frame.x,
                y: frame.y + new_height,
                width: frame.width,
                height: frame.height - new_height,
            },
        );
        proof {
            assert(self@.frames =~= old(self)@.split_horizontal().frames);
            assert forall|i: int| 0 <= i < self@.frames.len() implies (#[trigger] self@.frames[
                i
            ]).fits() by {
                if i < old(self)@.frames.len() && i != old(self)@.active {
                    assert(old(self)@.frames[i].fits());
                }
            }
        }
    }

    /// Cuts the active frame across its width. The active frame keeps the
    /// left half, which is half of the width rounded down, and stays
    /// active; the right half, which is the rest, is a new frame at the end
    /// of the sequence.
    pub fn split_vertical(&mut self)
        requires
            old(self)@.wf(),
        ensures
            final(self)@ == old(self)@.split_vertical(),
            final(self)@.wf(),
            final(self)@.frames.last().x == final(self)@.frames[old(self)@.active].right(),
            final(self)@.frames[old(self)@.active].width + final(self)@.frames.last().width
                == old(self)@.active_frame().width,
    {
        let frame = self.frames[self.active_frame];
        assert(self.frames@[self.active_frame as int].fits());
        let new_width = frame.width / 2;
        self.frames[self.active_frame].width = new_width;
        self.frames.push(
            Frame {
                x: frame.x + new_width,
                y: frame.y,
                width: frame.width - new_width,
                height: frame.height,
            },
        );
        proof {
            assert(self@.frames =~= old(self)@.split_vertical().frames);
            assert forall|i: int| 0 <= i < self@.frames.len() implies (#[trigger] self@.frames[
                i
            ]).fits() by {
                if i < old(self)@.frames.len() && i != old(self)@.active {
                    assert(old(self)@.frames[i].fits());
                }
            }
        }
    }

    /// Replaces all frames by one frame that covers the canvas, and makes
    /// it active.
    pub fn delete_other_frames(&mut self)
        requires
            old(self)@.wf(),
        ensures
            final(self)@ == old(self)@.delete_others(),
            final(self)@.wf(),
    {
        let mut frames: Vec<Frame> = Vec::new();
        frames.push(
            Frame { x: 0, y: 0, width: self.window_width as i32, height: self.window_height as i32 },
        );
        self.frames = frames;
        self.active_frame = 0;
        proof {
            assert(self@.frames =~= old(self)@.delete_others().frames);
        }
    }

    /// Runs the gap-repair pass for a canvas of `width` by `height`. Frames
    /// are only ever widened or heightened; the stored canvas size stays.
    pub fn adjust_frames_to_window(&mut self, width: u32, height: u32)
        requires
            old(self)@.wf(),
            width <= i32::MAX,
            height <= i32::MAX,
        ensures
            final(self)@ == old(self)@.adjusted(width as int, height as int),
            final(self)@.wf(),
            stretched_to(final(self)@.frames, old(self)@.frames, width as int, height as int),
            settled(final(self)@.frames, width as int, height as int),
    {
        proof {
            lemma_repaired(self.frames@, width as int, height as int);
        }
        repair_frames(&mut self.frames, width as i32, height as i32);
    }

    /// Closes the active frame, unless it is the only one. The frames that
    /// are left take its room over, the gap-repair pass runs, and the active
    /// index is clamped to the frames that are left.
    pub fn close_active_frame(&mut self)
        requires
            old(self)@.wf(),
        ensures
            final(self)@ == old(self)@.close_active(),
            final(self)@.wf(),
    {
        if self.frames.len() <= 1 {
            return ;
        }
        let closed = self.frames.remove(self.active_frame);
        proof {
            assert(old(self)@.frames[old(self)@.active].fits());
            assert forall|i: int| 0 <= i < self.frames@.len() implies (#[trigger] self.frames@[
                i
            ]).fits() by {
                if i < old(self)@.active {
                    assert(old(self)@.frames[i].fits());
                } else {
                    assert(old(self)@.frames[i + 1].fits());
                }
            }
        }
        reflow_frames(&mut self.frames, closed);
        repair_frames(&mut self.frames, self.window_width as i32, self.window_height as i32);
        if self.active_frame > self.frames.len() - 1 {
            self.active_frame = self.frames.len() - 1;
        }
    }

    /// Moves the right edge of the active frame by `dx` and its bottom edge
    /// by `dy`, together with the near edges of the frames that begin
    /// there. Each axis is judged apart, and is left alone if the move would
    /// leave the active frame or one of those frames under the minimum
    /// size. The gap-repair pass runs afterwards.
    pub fn resize_active_frame(&mut self, dx: i32, dy: i32)
        requires
            old(self)@.wf(),
            old(self)@.resize_in_bounds(dx as int, dy as int),
        ensures
            final(self)@ == old(self)@.resize_active(dx as int, dy as int),
            final(self)@.wf(),
            final(self)@.frames.len() == old(self)@.frames.len(),
            forall|i: int|
                0 <= i < old(self)@.frames.len() ==> {
                    &&& (#[trigger] final(self)@.frames[i]).width >= min_int(
                        old(self)@.frames[i].width as int,
                        MIN_SIZE as int,
                    )
                    &&& final(self)@.frames[i].height >= min_int(
                        old(self)@.frames[i].height as int,
                        MIN_SIZE as int,
                    )
                },
    {
        if self.frames.len() <= 1 || (dx == 0 && dy == 0) {
            return ;
        }
        proof {
            let moved = resized(self.frames@, self.active_frame as int, dx as int, dy as int);
            lemma_resized(self.frames@, self.active_frame as int, dx as int, dy as int);
            lemma_repaired(moved, self.window_width as int, self.window_height as int);
            let mended = repaired(moved, self.window_width as int, self.window_height as int);
            assert forall|i: int| 0 <= i < moved.len() implies (#[trigger] mended[i]).width
                >= min_int(self.frames@[i].width as int, MIN_SIZE as int) && mended[i].height
                >= min_int(self.frames@[i].height as int, MIN_SIZE as int) by {
                assert(moved[i].fits());
                assert(stretched_one(
                    mended[i],
                    moved[i],
                    self.window_width as int,
                    self.window_height as int,
                ));
            }
        }
        resize_frames(&mut self.frames, self.active_frame, dx, dy);
        repair_frames(&mut self.frames, self.window_width as i32, self.window_height as i32);
    }

    /// Takes over the frames as the caller has scaled them to a canvas of
    /// `new_width` by `new_height`, runs the gap-repair pass on that canvas,
    /// and stores its size.
    pub fn resize_window(&mut self, scaled: Vec<Frame>, new_width: u32, new_height: u32)
        requires
            old(self)@.wf(),
            scaled@.len() == old(self)@.frames.len(),
            all_fit(scaled@),
            0 < new_width <= i32::MAX,
            0 < new_height <= i32::MAX,
        ensures
            final(self)@ == old(self)@.resize_window(
                scaled@,
                new_width as int,
                new_height as int,
            ),
            final(self)@.wf(),
            stretched_to(final(self)@.frames, scaled@, new_width as int, new_height as int),
            settled(final(self)@.frames, new_width as int, new_height as int),
    {
        proof {
            lemma_repaired(scaled@, new_width as int, new_height as int);
        }
        self.frames = scaled;
        repair_frames(&mut self.frames, new_width as i32, new_height as i32);
        self.window_width = new_width;
        self.window_height = new_height;
    }

    /// Makes the best candidate in the direction the active frame. Without
    /// a candidate nothing changes.
    pub fn select_frame_in_direction(&mut self, direction: Direction)
        requires
            old(self)@.wf(),
        ensures
            final(self)@ == old(self)@.select(direction),
            final(self)@.wf(),
    {
        if self.frames.len() <= 1 {
            proof {
                reveal_with_fuel(best_upto, 2);
            }
            return ;
        }
        self.active_frame = select_in_direction(&self.frames, self.active_frame, direction);
    }

    /// What there is to paint, in painting order: for each frame its fill in
    /// the background color, then its border, which has the color of the
    /// active frame for the active frame.
    pub fn draw(&self) -> (ops: Vec<DrawOp>)
        requires
            self@.wf(),
        ensures
            ops@ == self@.draw_ops(),
    {
        let mut ops: Vec<DrawOp> = Vec::new();
        let mut i: usize = 0;
        while i < self.frames.len()
            invariant
                i <= self.frames.len(),
                all_fit(self.frames@),
                ops@.len() == 2 * i,
                forall|k: int|
                    0 <= k < ops@.len() ==> ops@[k] == draw_list(
                        self.frames@,
                        self.active_frame as int,
                        self.color_theme,
                    )[k],
            decreases self.frames.len() - i,
        {
            let frame = self.frames[i];
            assert(self.frames@[i as int].fits());
            ops.push(
                DrawOp {
                    stroke: Stroke::Fill,
                    x: frame.x,
                    y: frame.y,
                    width: frame.width as u32,
                    height: frame.height as u32,
                    color: self.color_theme.background,
                },
            );
            let border = if i == self.active_frame {
                self.color_theme.active_frame_color
            } else {
                self.color_theme.border_color
            };
            ops.push(
                DrawOp {
                    stroke: Stroke::Outline,
                    x: frame.x,
                    y: frame.y,
                    width: frame.width as u32,
                    height: frame.height as u32,
                    color: border,
                },
            );
            i += 1;
        }
        proof {
            assert(ops@ =~= self@.draw_ops());
        }
        ops
    }
}

} // verus!
