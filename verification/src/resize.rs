//! Moving the right and bottom edges of one frame, together with the near
//! edges of the frames that begin there.
//!
//! The two axes are judged apart. Along an axis the move takes place only
//! if it leaves the frame itself, and every frame that follows it, with at
//! least the minimum size; otherwise that axis is left alone.

use vstd::prelude::*;
use crate::frame::{Axis, Frame, MIN_SIZE, extent, max_int, min_int};
use crate::repair::all_fit;

verus! {

/// `f` begins where `a` ends along the axis, and the two overlap across it
/// by at least one unit.
pub open spec fn follows(a: Frame, f: Frame, axis: Axis) -> bool {
    match axis {
        Axis::Horizontal => f.x == a.right() && min_int(f.bottom(), a.bottom()) - max_int(
            f.y as int,
            a.y as int,
        ) > 0,
        Axis::Vertical => f.y == a.bottom() && min_int(f.right(), a.right()) - max_int(
            f.x as int,
            a.x as int,
        ) > 0,
    }
}

/// Whether the far edge of frame `active` moves by `delta` along the axis:
/// the move is not zero, and it leaves the frame and every frame that
/// follows it with at least the minimum size.
pub open spec fn resize_applies(s: Seq<Frame>, active: int, axis: Axis, delta: int) -> bool {
    &&& delta != 0
    &&& extent(s[active], axis) + delta >= MIN_SIZE
    &&& forall|j: int|
        0 <= j < s.len() && j != active && #[trigger] follows(s[active], s[j], axis) ==> extent(
            s[j],
            axis,
        ) - delta >= MIN_SIZE
}

/// The move that takes place along the axis: `delta`, or nothing.
pub open spec fn effective(s: Seq<Frame>, active: int, axis: Axis, delta: int) -> int {
    if resize_applies(s, active, axis, delta) {
        delta
    } else {
        0
    }
}

/// What becomes of `f` when the far edges of `a` move by `ex` and `ey`: the
/// active frame grows by them; a frame that follows it along an axis begins
/// that much later and is that much shorter.
pub open spec fn resized_one(f: Frame, a: Frame, is_active: bool, ex: int, ey: int) -> Frame {
    if is_active {
        Frame { width: (f.width + ex) as i32, height: (f.height + ey) as i32, ..f }
    } else {
        let mx = if follows(a, f, Axis::Horizontal) { ex } else { 0 };
        let my = if follows(a, f, Axis::Vertical) { ey } else { 0 };
        Frame {
            x: (f.x + mx) as i32,
            y: (f.y + my) as i32,
            width: (f.width - mx) as i32,
            height: (f.height - my) as i32,
        }
    }
}

/// The frames after the right edge of frame `active` was asked to move by
/// `dx` and its bottom edge by `dy`.
pub open spec fn resized(s: Seq<Frame>, active: int, dx: int, dy: int) -> Seq<Frame> {
    let ex = effective(s, active, Axis::Horizontal, dx);
    let ey = effective(s, active, Axis::Vertical, dy);
    Seq::new(s.len(), |j: int| resized_one(s[j], s[active], j == active, ex, ey))
}

/// The far edges of frame `active` stay representable under the move that
/// takes place.
pub open spec fn resize_in_bounds(s: Seq<Frame>, active: int, dx: int, dy: int) -> bool {
    &&& s[active].right() + effective(s, active, Axis::Horizontal, dx) <= i32::MAX
    &&& s[active].bottom() + effective(s, active, Axis::Vertical, dy) <= i32::MAX
}

/// The far edge of frame `active` along the axis lies inside the canvas,
/// and every frame that follows it there lies within its span across the
/// axis: the edge is shared with those frames and with no other.
pub open spec fn edge_is_shared(s: Seq<Frame>, w: int, h: int, active: int, axis: Axis) -> bool {
    let a = s[active];
    match axis {
        Axis::Horizontal => {
            &&& a.right() < w
            &&& forall|j: int|
                0 <= j < s.len() && j != active && #[trigger] follows(a, s[j], axis) ==> a.y
                    <= s[j].y && s[j].bottom() <= a.bottom()
        },
        Axis::Vertical => {
            &&& a.bottom() < h
            &&& forall|j: int|
                0 <= j < s.len() && j != active && #[trigger] follows(a, s[j], axis) ==> a.x
                    <= s[j].x && s[j].right() <= a.right()
        },
    }
}

/// The frames still fit after the move, and no frame is left smaller than
/// it was unless it is left with at least the minimum size.
pub proof fn lemma_resized(s: Seq<Frame>, active: int, dx: int, dy: int)
    requires
        0 <= active < s.len(),
        all_fit(s),
        resize_in_bounds(s, active, dx, dy),
    ensures
        all_fit(resized(s, active, dx, dy)),
        resized(s, active, dx, dy).len() == s.len(),
        forall|i: int|
            0 <= i < s.len() ==> {
                &&& (#[trigger] resized(s, active, dx, dy)[i]).width >= min_int(
                    s[i].width as int,
                    MIN_SIZE as int,
                )
                &&& resized(s, active, dx, dy)[i].height >= min_int(
                    s[i].height as int,
                    MIN_SIZE as int,
                )
            },
{
    let t = resized(s, active, dx, dy);
    let a = s[active];
    assert(a.fits());
    assert forall|i: int| 0 <= i < s.len() implies (#[trigger] t[i]).fits() && t[i].width
        >= min_int(s[i].width as int, MIN_SIZE as int) && t[i].height >= min_int(
        s[i].height as int,
        MIN_SIZE as int,
    ) by {
        assert(s[i].fits());
        if i != active {
            if follows(a, s[i], Axis::Horizontal) {
            }
            if follows(a, s[i], Axis::Vertical) {
            }
        }
    }
}

/// Whether `f` begins where `a` ends along the axis and overlaps it across.
fn follows_frame(a: Frame, f: Frame, axis: Axis) -> (b: bool)
    requires
        a.fits(),
        f.fits(),
    ensures
        b == follows(a, f, axis),
{
    match axis {
        Axis::Horizontal => {
            if f.x == a.x + a.width {
                let low = if f.y > a.y { f.y } else { a.y };
                let high = if f.y + f.height < a.y + a.height {
                    f.y + f.height
                } else {
                    a.y + a.height
                };
                high - low > 0
            } else {
                false
            }
        },
        Axis::Vertical => {
            if f.y == a.y + a.height {
                let low = if f.x > a.x { f.x } else { a.x };
                let high = if f.x + f.width < a.x + a.width {
                    f.x + f.width
                } else {
                    a.x + a.width
                };
                high - low > 0
            } else {
                false
            }
        },
    }
}

/// The width or the height of `f`.
fn extent_of(f: Frame, axis: Axis) -> (e: i32)
    ensures
        e == extent(f, axis),
{
    match axis {
        Axis::Horizontal => f.width,
        Axis::Vertical => f.height,
    }
}

/// Judges the move by `delta` along the axis.
fn resize_allowed(frames: &Vec<Frame>, active: usize, axis: Axis, delta: i32) -> (ok: bool)
    requires
        active < frames.len(),
        all_fit(frames@),
    ensures
        ok == resize_applies(frames@, active as int, axis, delta as int),
{
    let a = frames[active];
    assert(frames@[active as int].fits());
    if delta == 0 || (extent_of(a, axis) as i64) + (delta as i64) < MIN_SIZE as i64 {
        return false;
    }
    let mut j: usize = 0;
    while j < frames.len()
        invariant
            j <= frames.len(),
            active < frames.len(),
            all_fit(frames@),
            a == frames@[active as int],
            forall|k: int|
                0 <= k < j && k != active && #[trigger] follows(a, frames@[k], axis) ==> extent(
                    frames@[k],
                    axis,
                ) - delta >= MIN_SIZE,
        decreases frames.len() - j,
    {
        if j != active {
            let f = frames[j];
            assert(frames@[j as int].fits());
            if follows_frame(a, f, axis) && (extent_of(f, axis) as i64) - (delta as i64)
                < MIN_SIZE as i64 {
                return false;
            }
        }
        j += 1;
    }
    true
}

/// Whether the far edges of frame `active` stay representable under the
/// move that takes place.
pub fn resize_fits(frames: &Vec<Frame>, active: usize, dx: i32, dy: i32) -> (ok: bool)
    requires
        active < frames.len(),
        all_fit(frames@),
    ensures
        ok == resize_in_bounds(frames@, active as int, dx as int, dy as int),
{
    let a = frames[active];
    assert(frames@[active as int].fits());
    let ex = if resize_allowed(frames, active, Axis::Horizontal, dx) { dx } else { 0 };
    let ey = if resize_allowed(frames, active, Axis::Vertical, dy) { dy } else { 0 };
    a.x as i64 + a.width as i64 + ex as i64 <= i32::MAX as i64 && a.y as i64 + a.height as i64
        + ey as i64 <= i32::MAX as i64
}

/// Moves the right edge of frame `active` by `dx` and its bottom edge by
/// `dy`, each as far as it is allowed, and with them the near edges of the
/// frames that follow.
pub fn resize_frames(frames: &mut Vec<Frame>, active: usize, dx: i32, dy: i32)
    requires
        active < old(frames).len(),
        all_fit(old(frames)@),
        resize_in_bounds(old(frames)@, active as int, dx as int, dy as int),
    ensures
        final(frames)@ == resized(old(frames)@, active as int, dx as int, dy as int),
        all_fit(final(frames)@),
        final(frames).len() == old(frames).len(),
{
    let ghost given = frames@;
    let ex = if resize_allowed(frames, active, Axis::Horizontal, dx) { dx } else { 0 };
    let ey = if resize_allowed(frames, active, Axis::Vertical, dy) { dy } else { 0 };
    let a = frames[active];
    assert(given[active as int].fits());
    let mut j: usize = 0;
    while j < frames.len()
        invariant
            j <= frames.len(),
            frames.len() == given.len(),
            active < given.len(),
            all_fit(given),
            a == given[active as int],
            ex == effective(given, active as int, Axis::Horizontal, dx as int),
            ey == effective(given, active as int, Axis::Vertical, dy as int),
            a.right() + ex <= i32::MAX,
            a.bottom() + ey <= i32::MAX,
            forall|k: int|
                0 <= k < j ==> frames@[k] == resized_one(
                    given[k],
                    a,
                    k == active,
                    ex as int,
                    ey as int,
                ),
            forall|k: int| j <= k < frames.len() ==> frames@[k] == given[k],
            forall|k: int| 0 <= k < frames.len() ==> (#[trigger] frames@[k]).fits(),
        decreases frames.len() - j,
    {
        let f = frames[j];
        assert(given[j as int].fits());
        if j == active {
            frames[j].width = f.width + ex;
            frames[j].height = f.height + ey;
        } else {
            if follows_frame(a, f, Axis::Horizontal) {
                frames[j].x = f.x + ex;
                frames[j].width = f.width - ex;
            }
            if follows_frame(a, f, Axis::Vertical) {
                frames[j].y = f.y + ey;
                frames[j].height = f.height - ey;
            }
        }
        j += 1;
    }
    proof {
        assert(frames@ =~= resized(given, active as int, dx as int, dy as int));
    }
}

} // verus!
