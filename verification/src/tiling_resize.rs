//! Resizing a frame of a tiling.
//!
//! Where the frames that follow the active frame along an axis lie within
//! its span across that axis, moving their common edge leaves a tiling.
//! Where one of them reaches beyond that span, the move leaves a gap or an
//! overlap that the gap-repair pass cannot mend. An edge on the canvas edge
//! that is moved inwards is moved back by the gap-repair pass.

use vstd::prelude::*;
use crate::frame::{Axis, Frame, MIN_SIZE};
use crate::repair::{
    abuts_right,
    abuts_below,
    close_gap_below,
    close_gap_right,
    first_open_below,
    first_open_right,
    has_below_neighbor,
    has_right_neighbor,
    lemma_first_open_below,
    lemma_first_open_right,
    max_bottom,
    max_right,
    open_below,
    open_right,
    repaired,
    round,
    settle,
    stretch_one,
    stretch_outermost,
    stretched_one,
    stretched_to,
    unsettled,
};
use crate::resize::{edge_is_shared, follows, resize_applies, resized, resized_one};
use crate::tiling::{
    apart,
    covered,
    lemma_max_bottom_at_most,
    lemma_max_bottom_bounds,
    lemma_max_right_at_most,
    lemma_max_right_bounds,
    lemma_tiling_below_neighbor,
    lemma_tiling_fits,
    lemma_tiling_is_settled,
    lemma_tiling_right_neighbor,
    proper,
    tiles,
};

verus! {

/// In a tiling, beside each row of a frame that ends short of the right
/// canvas edge, a frame that follows it begins.
pub proof fn lemma_follower_beside(s: Seq<Frame>, w: int, h: int, active: int, py: int) -> (j: int)
    requires
        tiles(s, w, h),
        0 <= active < s.len(),
        s[active].right() < w,
        s[active].y <= py < s[active].bottom(),
    ensures
        0 <= j < s.len(),
        j != active,
        follows(s[active], s[j], Axis::Horizontal),
        s[j].y <= py < s[j].bottom(),
{
    let a = s[active];
    assert(proper(a, w, h));
    assert(covered(s, a.right(), py));
    let j = choose|j: int| 0 <= j < s.len() && #[trigger] s[j].covers(a.right(), py);
    assert(proper(s[j], w, h));
    assert(apart(s[active], s[j]));
    j
}

/// In a tiling, below each column of a frame that ends short of the bottom
/// canvas edge, a frame that follows it begins.
pub proof fn lemma_follower_below(s: Seq<Frame>, w: int, h: int, active: int, px: int) -> (j: int)
    requires
        tiles(s, w, h),
        0 <= active < s.len(),
        s[active].bottom() < h,
        s[active].x <= px < s[active].right(),
    ensures
        0 <= j < s.len(),
        j != active,
        follows(s[active], s[j], Axis::Vertical),
        s[j].x <= px < s[j].right(),
{
    let a = s[active];
    assert(proper(a, w, h));
    assert(covered(s, px, a.bottom()));
    let j = choose|j: int| 0 <= j < s.len() && #[trigger] s[j].covers(px, a.bottom());
    assert(proper(s[j], w, h));
    assert(apart(s[active], s[j]));
    j
}

/// Two proper frames that are not apart have a point in common.
pub proof fn lemma_common_point(a: Frame, b: Frame, w: int, h: int) -> (p: (int, int))
    requires
        proper(a, w, h),
        proper(b, w, h),
        !apart(a, b),
    ensures
        a.covers(p.0, p.1),
        b.covers(p.0, p.1),
        0 <= p.0 < w,
        0 <= p.1 < h,
{
    let px = if a.x >= b.x { a.x as int } else { b.x as int };
    let py = if a.y >= b.y { a.y as int } else { b.y as int };
    (px, py)
}

/// The right edge of frame `active` of the tiling `s` moves by `dx`, its
/// bottom edge stays, and the right edge is shared.
pub open spec fn moves_beside(s: Seq<Frame>, w: int, h: int, active: int, dx: int, dy: int) -> bool {
    &&& tiles(s, w, h)
    &&& 0 <= active < s.len()
    &&& w <= i32::MAX
    &&& h <= i32::MAX
    &&& resize_applies(s, active, Axis::Horizontal, dx)
    &&& !resize_applies(s, active, Axis::Vertical, dy)
    &&& edge_is_shared(s, w, h, active, Axis::Horizontal)
}

/// What becomes of each frame when the right edge moves.
proof fn lemma_moved_beside(s: Seq<Frame>, w: int, h: int, active: int, dx: int, dy: int, i: int)
    requires
        moves_beside(s, w, h, active, dx, dy),
        0 <= i < s.len(),
    ensures
        resized(s, active, dx, dy)[i] == resized_one(s[i], s[active], i == active, dx, 0),
        proper(s[i], w, h),
        proper(resized(s, active, dx, dy)[i], w, h),
        i != active ==> apart(s[i], s[active]),
        i != active && follows(s[active], s[i], Axis::Horizontal) ==> s[active].y <= s[i].y
            && s[i].bottom() <= s[active].bottom() && s[i].width - dx >= MIN_SIZE,
{
    let a = s[active];
    assert(proper(a, w, h));
    assert(proper(s[i], w, h));
    let beside = lemma_follower_beside(s, w, h, active, a.y as int);
    assert(proper(s[beside], w, h));
    if i != active {
        assert(apart(s[i], s[active]));
    }
}

/// After the move, the active frame and any other frame are apart.
proof fn lemma_moved_beside_apart_from_active(
    s: Seq<Frame>,
    w: int,
    h: int,
    active: int,
    dx: int,
    dy: int,
    k: int,
)
    requires
        moves_beside(s, w, h, active, dx, dy),
        0 <= k < s.len(),
        k != active,
    ensures
        apart(resized(s, active, dx, dy)[active], resized(s, active, dx, dy)[k]),
{
    let t = resized(s, active, dx, dy);
    let a = s[active];
    lemma_moved_beside(s, w, h, active, dx, dy, active);
    lemma_moved_beside(s, w, h, active, dx, dy, k);
    if !follows(a, s[k], Axis::Horizontal) && dx > 0 && !apart(t[active], t[k]) {
        // A point of both would lie in the strip that the active frame
        // gains, which a frame that follows it covered: not this one.
        let p = lemma_common_point(t[active], t[k], w, h);
        let f = lemma_follower_beside(s, w, h, active, p.1);
        lemma_moved_beside(s, w, h, active, dx, dy, f);
        assert(s[f].covers(p.0, p.1));
        assert(apart(s[f], s[k]));
    }
}

/// After the move, two frames other than the active one are apart.
proof fn lemma_moved_beside_apart(
    s: Seq<Frame>,
    w: int,
    h: int,
    active: int,
    dx: int,
    dy: int,
    i: int,
    j: int,
)
    requires
        moves_beside(s, w, h, active, dx, dy),
        0 <= i < s.len(),
        0 <= j < s.len(),
        i != j,
        i != active,
        j != active,
    ensures
        apart(resized(s, active, dx, dy)[i], resized(s, active, dx, dy)[j]),
{
    lemma_moved_beside(s, w, h, active, dx, dy, active);
    lemma_moved_beside(s, w, h, active, dx, dy, i);
    lemma_moved_beside(s, w, h, active, dx, dy, j);
    assert(apart(s[i], s[j]));
}

/// After the move, every point of the canvas is covered.
proof fn lemma_moved_beside_covered(
    s: Seq<Frame>,
    w: int,
    h: int,
    active: int,
    dx: int,
    dy: int,
    px: int,
    py: int,
)
    requires
        moves_beside(s, w, h, active, dx, dy),
        0 <= px < w,
        0 <= py < h,
    ensures
        covered(resized(s, active, dx, dy), px, py),
{
    let t = resized(s, active, dx, dy);
    assert(covered(s, px, py));
    let i = choose|i: int| 0 <= i < s.len() && #[trigger] s[i].covers(px, py);
    lemma_moved_beside(s, w, h, active, dx, dy, i);
    lemma_moved_beside(s, w, h, active, dx, dy, active);
    if t[i].covers(px, py) {
    } else if i == active {
        let f = lemma_follower_beside(s, w, h, active, py);
        lemma_moved_beside(s, w, h, active, dx, dy, f);
        assert(t[f].covers(px, py));
    } else {
        assert(t[active].covers(px, py));
    }
}

/// Moving the right edge of a frame of a tiling, where that edge is shared
/// and the bottom edge stays, leaves a tiling.
pub proof fn lemma_resized_beside_tiles(
    s: Seq<Frame>,
    w: int,
    h: int,
    active: int,
    dx: int,
    dy: int,
)
    requires
        moves_beside(s, w, h, active, dx, dy),
    ensures
        tiles(resized(s, active, dx, dy), w, h),
{
    let t = resized(s, active, dx, dy);
    assert forall|i: int| 0 <= i < t.len() implies proper(#[trigger] t[i], w, h) by {
        lemma_moved_beside(s, w, h, active, dx, dy, i);
    }
    assert forall|i: int, j: int| 0 <= i < t.len() && 0 <= j < t.len() && i != j implies apart(
        #[trigger] t[i],
        #[trigger] t[j],
    ) by {
        if i == active {
            lemma_moved_beside_apart_from_active(s, w, h, active, dx, dy, j);
        } else if j == active {
            lemma_moved_beside_apart_from_active(s, w, h, active, dx, dy, i);
        } else {
            lemma_moved_beside_apart(s, w, h, active, dx, dy, i, j);
        }
    }
    assert forall|px: int, py: int| 0 <= px < w && 0 <= py < h implies #[trigger] covered(
        t,
        px,
        py,
    ) by {
        lemma_moved_beside_covered(s, w, h, active, dx, dy, px, py);
    }
}

/// The bottom edge of frame `active` of the tiling `s` moves by `dy`, its
/// right edge stays, and the bottom edge is shared.
pub open spec fn moves_below(s: Seq<Frame>, w: int, h: int, active: int, dx: int, dy: int) -> bool {
    &&& tiles(s, w, h)
    &&& 0 <= active < s.len()
    &&& w <= i32::MAX
    &&& h <= i32::MAX
    &&& resize_applies(s, active, Axis::Vertical, dy)
    &&& !resize_applies(s, active, Axis::Horizontal, dx)
    &&& edge_is_shared(s, w, h, active, Axis::Vertical)
}

/// What becomes of each frame when the bottom edge moves.
proof fn lemma_moved_below(s: Seq<Frame>, w: int, h: int, active: int, dx: int, dy: int, i: int)
    requires
        moves_below(s, w, h, active, dx, dy),
        0 <= i < s.len(),
    ensures
        resized(s, active, dx, dy)[i] == resized_one(s[i], s[active], i == active, 0, dy),
        proper(s[i], w, h),
        proper(resized(s, active, dx, dy)[i], w, h),
        i != active ==> apart(s[i], s[active]),
        i != active && follows(s[active], s[i], Axis::Vertical) ==> s[active].x <= s[i].x
            && s[i].right() <= s[active].right() && s[i].height - dy >= MIN_SIZE,
{
    let a = s[active];
    assert(proper(a, w, h));
    assert(proper(s[i], w, h));
    let below = lemma_follower_below(s, w, h, active, a.x as int);
    assert(proper(s[below], w, h));
    if i != active {
        assert(apart(s[i], s[active]));
    }
}

/// After the move, the active frame and any other frame are apart.
proof fn lemma_moved_below_apart_from_active(
    s: Seq<Frame>,
    w: int,
    h: int,
    active: int,
    dx: int,
    dy: int,
    k: int,
)
    requires
        moves_below(s, w, h, active, dx, dy),
        0 <= k < s.len(),
        k != active,
    ensures
        apart(resized(s, active, dx, dy)[active], resized(s, active, dx, dy)[k]),
{
    let t = resized(s, active, dx, dy);
    let a = s[active];
    lemma_moved_below(s, w, h, active, dx, dy, active);
    lemma_moved_below(s, w, h, active, dx, dy, k);
    if !follows(a, s[k], Axis::Vertical) && dy > 0 && !apart(t[active], t[k]) {
        // A point of both would lie in the strip that the active frame
        // gains, which a frame that follows it covered: not this one.
        let p = lemma_common_point(t[active], t[k], w, h);
        let f = lemma_follower_below(s, w, h, active, p.0);
        lemma_moved_below(s, w, h, active, dx, dy, f);
        assert(s[f].covers(p.0, p.1));
        assert(apart(s[f], s[k]));
    }
}

/// After the move, two frames other than the active one are apart.
proof fn lemma_moved_below_apart(
    s: Seq<Frame>,
    w: int,
    h: int,
    active: int,
    dx: int,
    dy: int,
    i: int,
    j: int,
)
    requires
        moves_below(s, w, h, active, dx, dy),
        0 <= i < s.len(),
        0 <= j < s.len(),
        i != j,
        i != active,
        j != active,
    ensures
        apart(resized(s, active, dx, dy)[i], resized(s, active, dx, dy)[j]),
{
    lemma_moved_below(s, w, h, active, dx, dy, active);
    lemma_moved_below(s, w, h, active, dx, dy, i);
    lemma_moved_below(s, w, h, active, dx, dy, j);
    assert(apart(s[i], s[j]));
}

/// After the move, every point of the canvas is covered.
proof fn lemma_moved_below_covered(
    s: Seq<Frame>,
    w: int,
    h: int,
    active: int,
    dx: int,
    dy: int,
    px: int,
    py: int,
)
    requires
        moves_below(s, w, h, active, dx, dy),
        0 <= px < w,
        0 <= py < h,
    ensures
        covered(resized(s, active, dx, dy), px, py),
{
    let t = resized(s, active, dx, dy);
    assert(covered(s, px, py));
    let i = choose|i: int| 0 <= i < s.len() && #[trigger] s[i].covers(px, py);
    lemma_moved_below(s, w, h, active, dx, dy, i);
    lemma_moved_below(s, w, h, active, dx, dy, active);
    if t[i].covers(px, py) {
    } else if i == active {
        let f = lemma_follower_below(s, w, h, active, px);
        lemma_moved_below(s, w, h, active, dx, dy, f);
        assert(t[f].covers(px, py));
    } else {
        assert(t[active].covers(px, py));
    }
}

/// Moving the bottom edge of a frame of a tiling, where that edge is shared
/// and the right edge stays, leaves a tiling.
pub proof fn lemma_resized_below_tiles(
    s: Seq<Frame>,
    w: int,
    h: int,
    active: int,
    dx: int,
    dy: int,
)
    requires
        moves_below(s, w, h, active, dx, dy),
    ensures
        tiles(resized(s, active, dx, dy), w, h),
{
    let t = resized(s, active, dx, dy);
    assert forall|i: int| 0 <= i < t.len() implies proper(#[trigger] t[i], w, h) by {
        lemma_moved_below(s, w, h, active, dx, dy, i);
    }
    assert forall|i: int, j: int| 0 <= i < t.len() && 0 <= j < t.len() && i != j implies apart(
        #[trigger] t[i],
        #[trigger] t[j],
    ) by {
        if i == active {
            lemma_moved_below_apart_from_active(s, w, h, active, dx, dy, j);
        } else if j == active {
            lemma_moved_below_apart_from_active(s, w, h, active, dx, dy, i);
        } else {
            lemma_moved_below_apart(s, w, h, active, dx, dy, i, j);
        }
    }
    assert forall|px: int, py: int| 0 <= px < w && 0 <= py < h implies #[trigger] covered(
        t,
        px,
        py,
    ) by {
        lemma_moved_below_covered(s, w, h, active, dx, dy, px, py);
    }
}


/// A frame of a tiling that reaches the right canvas edge, once narrowed,
/// is widened back by the gap-repair pass: the tiling comes out as it was.
pub proof fn lemma_narrowed_is_undone(s: Seq<Frame>, w: int, h: int, active: int, dx: int)
    requires
        tiles(s, w, h),
        0 < w <= i32::MAX,
        0 < h <= i32::MAX,
        0 <= active < s.len(),
        s[active].right() == w,
        dx < 0 < s[active].width + dx,
    ensures
        repaired(
            s.update(active, Frame { width: (s[active].width + dx) as i32, ..s[active] }),
            w,
            h,
        ) == s,
{
    let a = s[active];
    let narrowed = Frame { width: (a.width + dx) as i32, ..a };
    let t = s.update(active, narrowed);
    lemma_tiling_fits(s, w, h);
    lemma_tiling_is_settled(s, w, h);
    assert(proper(a, w, h));
    assert(narrowed.with_right(w) == a);
    assert forall|i: int| 0 <= i < t.len() implies (#[trigger] t[i]).fits() && proper(s[i], w, h) by {
        assert(proper(s[i], w, h));
    }
    // Some frame reaches the bottom edge, before and after.
    assert(covered(s, 0, h - 1));
    let b = choose|b: int| 0 <= b < s.len() && #[trigger] s[b].covers(0, h - 1);
    assert(proper(s[b], w, h));
    lemma_max_bottom_bounds(t, b);
    if exists|k: int| 0 <= k < s.len() && k != active && (#[trigger] s[k]).right() == w {
        // Another frame reaches the right edge: the first step changes
        // nothing, and the narrowed frame is the one open frame.
        let k = choose|k: int| 0 <= k < s.len() && k != active && (#[trigger] s[k]).right() == w;
        lemma_max_right_bounds(t, k);
        assert(stretch_outermost(t, w, h) =~= t) by {
            assert forall|i: int| 0 <= i < t.len() implies stretch_one(
                t[i],
                max_right(t),
                max_bottom(t),
                w,
                h,
            ) == t[i] by {
                assert(proper(s[i], w, h));
            }
        }
        assert(!has_right_neighbor(t, active)) by {
            assert forall|j: int| 0 <= j < t.len() && j != active implies !#[trigger] abuts_right(
                t[active],
                t[j],
            ) by {
                assert(proper(s[j], w, h));
                assert(apart(s[j], s[active]));
            }
        }
        assert forall|m: int| 0 <= m < t.len() && m != active implies !open_right(t, w, m) by {
            if t[m].right() < w {
                lemma_tiling_right_neighbor(s, w, h, m);
                let j = choose|j: int|
                    0 <= j < s.len() && j != m && #[trigger] abuts_right(s[m], s[j]);
                assert(abuts_right(t[m], t[j]));
            }
        }
        assert(open_right(t, w, active));
        lemma_first_open_right(t, w, 0);
        assert(first_open_right(t, w) == active);
        assert(close_gap_right(t, w) =~= s);
        assert(round(t, w, h) == s);
        assert(unsettled(t, w, h));
        assert(settle(t, w, h) == settle(s, w, h));
    } else {
        // The frame alone reaches the right edge, so over the whole height;
        // narrowed, it is still the rightmost, and the first step widens it.
        assert(covered(s, w - 1, 0));
        let top = choose|r: int| 0 <= r < s.len() && #[trigger] s[r].covers(w - 1, 0);
        assert(proper(s[top], w, h));
        assert(top == active);
        assert(covered(s, w - 1, h - 1));
        let low = choose|r: int| 0 <= r < s.len() && #[trigger] s[r].covers(w - 1, h - 1);
        assert(proper(s[low], w, h));
        assert(low == active);
        assert forall|i: int| 0 <= i < t.len() implies (#[trigger] t[i]).right() <= narrowed.right() by {
            if i != active {
                assert(proper(s[i], w, h));
                assert(apart(s[i], s[active]));
            }
        }
        lemma_max_right_at_most(t, narrowed.right());
        lemma_max_right_bounds(t, active);
        assert(stretch_outermost(t, w, h) =~= s) by {
            assert forall|i: int| 0 <= i < t.len() implies stretch_one(
                t[i],
                max_right(t),
                max_bottom(t),
                w,
                h,
            ) == s[i] by {
                assert(proper(s[i], w, h));
                if i != active {
                    assert(apart(s[i], s[active]));
                }
            }
        }
    }
}


/// A frame of a tiling that reaches the bottom canvas edge, once shortened,
/// is heightened back by the gap-repair pass, provided that no frame which
/// ends where it begins starts level with the rows that it lost: such a
/// frame would be left open, and widened first.
pub proof fn lemma_shortened_is_undone(s: Seq<Frame>, w: int, h: int, active: int, dy: int)
    requires
        tiles(s, w, h),
        0 < w <= i32::MAX,
        0 < h <= i32::MAX,
        0 <= active < s.len(),
        s[active].bottom() == h,
        dy < 0 < s[active].height + dy,
        forall|m: int|
            0 <= m < s.len() && m != active && (#[trigger] s[m]).right() == s[active].x ==> s[m].y
                < s[active].bottom() + dy,
    ensures
        repaired(
            s.update(active, Frame { height: (s[active].height + dy) as i32, ..s[active] }),
            w,
            h,
        ) == s,
{
    let a = s[active];
    let shortened = Frame { height: (a.height + dy) as i32, ..a };
    let t = s.update(active, shortened);
    lemma_tiling_fits(s, w, h);
    lemma_tiling_is_settled(s, w, h);
    assert(proper(a, w, h));
    assert(shortened.with_bottom(h) == a);
    assert forall|i: int| 0 <= i < t.len() implies (#[trigger] t[i]).fits() && proper(s[i], w, h) by {
        assert(proper(s[i], w, h));
    }
    // Some frame reaches the right edge, before and after.
    assert(covered(s, w - 1, 0));
    let r = choose|r: int| 0 <= r < s.len() && #[trigger] s[r].covers(w - 1, 0);
    assert(proper(s[r], w, h));
    lemma_max_right_bounds(t, r);
    if exists|k: int| 0 <= k < s.len() && k != active && (#[trigger] s[k]).bottom() == h {
        // Another frame reaches the bottom edge: the first step changes
        // nothing, no frame is open to the right, and the shortened frame
        // is the one frame open below.
        let k = choose|k: int| 0 <= k < s.len() && k != active && (#[trigger] s[k]).bottom() == h;
        lemma_max_bottom_bounds(t, k);
        assert(stretch_outermost(t, w, h) =~= t) by {
            assert forall|i: int| 0 <= i < t.len() implies stretch_one(
                t[i],
                max_right(t),
                max_bottom(t),
                w,
                h,
            ) == t[i] by {
                assert(proper(s[i], w, h));
            }
        }
        assert forall|m: int| 0 <= m < t.len() implies !open_right(t, w, m) by {
            if t[m].right() < w {
                assert(proper(s[m], w, h));
                assert(covered(s, s[m].right(), s[m].y as int));
                let j = choose|j: int|
                    0 <= j < s.len() && #[trigger] s[j].covers(s[m].right(), s[m].y as int);
                assert(proper(s[j], w, h));
                assert(j != m);
                assert(apart(s[m], s[j]));
                assert(abuts_right(t[m], t[j]));
            }
        }
        lemma_first_open_right(t, w, 0);
        assert(first_open_right(t, w) == t.len());
        assert(close_gap_right(t, w) == t);
        assert(!has_below_neighbor(t, active)) by {
            assert forall|j: int| 0 <= j < t.len() && j != active implies !#[trigger] abuts_below(
                t[active],
                t[j],
            ) by {
                assert(proper(s[j], w, h));
                assert(apart(s[j], s[active]));
            }
        }
        assert forall|m: int| 0 <= m < t.len() && m != active implies !open_below(t, h, m) by {
            if t[m].bottom() < h {
                lemma_tiling_below_neighbor(s, w, h, m);
                let j = choose|j: int|
                    0 <= j < s.len() && j != m && #[trigger] abuts_below(s[m], s[j]);
                assert(abuts_below(t[m], t[j]));
            }
        }
        assert(open_below(t, h, active));
        lemma_first_open_below(t, h, 0);
        assert(first_open_below(t, h) == active);
        assert(close_gap_below(t, h) =~= s);
        assert(round(t, w, h) == s);
        assert(unsettled(t, w, h));
        assert(settle(t, w, h) == settle(s, w, h));
    } else {
        // The frame alone reaches the bottom edge, so over the whole width;
        // shortened, it is still the bottommost, and the first step
        // heightens it.
        assert(covered(s, 0, h - 1));
        let left = choose|b: int| 0 <= b < s.len() && #[trigger] s[b].covers(0, h - 1);
        assert(proper(s[left], w, h));
        assert(left == active);
        assert(covered(s, w - 1, h - 1));
        let far = choose|b: int| 0 <= b < s.len() && #[trigger] s[b].covers(w - 1, h - 1);
        assert(proper(s[far], w, h));
        assert(far == active);
        assert forall|i: int| 0 <= i < t.len() implies (#[trigger] t[i]).bottom()
            <= shortened.bottom() by {
            if i != active {
                assert(proper(s[i], w, h));
                assert(apart(s[i], s[active]));
            }
        }
        lemma_max_bottom_at_most(t, shortened.bottom());
        lemma_max_bottom_bounds(t, active);
        assert(stretch_outermost(t, w, h) =~= s) by {
            assert forall|i: int| 0 <= i < t.len() implies stretch_one(
                t[i],
                max_right(t),
                max_bottom(t),
                w,
                h,
            ) == s[i] by {
                assert(proper(s[i], w, h));
                if i != active {
                    assert(apart(s[i], s[active]));
                }
            }
        }
    }
}


/// The right edge of frame `active` of the tiling `s` moves by `dx`, its
/// bottom edge stays, and frame `n`, which follows the active frame,
/// reaches beyond its rows. `r` is the frames after the move, stretched in
/// whatever way.
pub open spec fn moves_unshared_beside(
    s: Seq<Frame>,
    w: int,
    h: int,
    active: int,
    dx: int,
    dy: int,
    n: int,
    r: Seq<Frame>,
) -> bool {
    &&& tiles(s, w, h)
    &&& 0 <= active < s.len()
    &&& 0 <= n < s.len()
    &&& n != active
    &&& w <= i32::MAX
    &&& h <= i32::MAX
    &&& resize_applies(s, active, Axis::Horizontal, dx)
    &&& !resize_applies(s, active, Axis::Vertical, dy)
    &&& follows(s[active], s[n], Axis::Horizontal)
    &&& s[n].y < s[active].y || s[n].bottom() > s[active].bottom()
    &&& stretched_to(r, resized(s, active, dx, dy), w, h)
}

/// What is known of frame `i` before the move, after it, and stretched.
proof fn lemma_moved_unshared_beside(
    s: Seq<Frame>,
    w: int,
    h: int,
    active: int,
    dx: int,
    dy: int,
    n: int,
    r: Seq<Frame>,
    i: int,
)
    requires
        moves_unshared_beside(s, w, h, active, dx, dy, n, r),
        0 <= i < s.len(),
    ensures
        resized(s, active, dx, dy)[i] == resized_one(s[i], s[active], i == active, dx, 0),
        stretched_one(r[i], resized(s, active, dx, dy)[i], w, h),
        proper(s[i], w, h),
        i != active ==> apart(s[i], s[active]),
        i != n ==> apart(s[i], s[n]),
        i != active && follows(s[active], s[i], Axis::Horizontal) ==> s[i].width - dx >= MIN_SIZE,
{
    assert(proper(s[i], w, h));
    assert(proper(s[active], w, h));
    if i != active {
        assert(apart(s[i], s[active]));
    }
    if i != n {
        assert(apart(s[i], s[n]));
    }
}

/// Where the edge moves inwards, the follower that reaches beyond the rows
/// of the active frame grows over the frame that lies beside it there.
proof fn lemma_unshared_beside_inward(
    s: Seq<Frame>,
    w: int,
    h: int,
    active: int,
    dx: int,
    dy: int,
    n: int,
    r: Seq<Frame>,
)
    requires
        moves_unshared_beside(s, w, h, active, dx, dy, n, r),
        dx < 0,
    ensures
        !tiles(r, w, h),
{
    let a = s[active];
    let t = resized(s, active, dx, dy);
    lemma_moved_unshared_beside(s, w, h, active, dx, dy, n, r, active);
    lemma_moved_unshared_beside(s, w, h, active, dx, dy, n, r, n);
    let px = a.right() - 1;
    let py = if s[n].y < a.y { a.y - 1 } else { a.bottom() };
    assert(covered(s, px, py));
    let m = choose|m: int| 0 <= m < s.len() && #[trigger] s[m].covers(px, py);
    lemma_moved_unshared_beside(s, w, h, active, dx, dy, n, r, m);
    assert(t[m] == s[m]);
    assert(r[m].covers(px, py));
    assert(r[n].covers(px, py));
    assert(!apart(r[m], r[n]));
}

/// A row of the follower `n` just outside the rows of the active frame.
pub open spec fn row_beyond(s: Seq<Frame>, active: int, n: int) -> int {
    if s[n].y < s[active].y {
        s[active].y - 1
    } else {
        s[active].bottom()
    }
}

/// Where the edge moves outwards and the active frame, stretched, covers
/// the strip that the follower gives up, it reaches over the frame below
/// it.
proof fn lemma_unshared_beside_outward_active(
    s: Seq<Frame>,
    w: int,
    h: int,
    active: int,
    dx: int,
    dy: int,
    n: int,
    r: Seq<Frame>,
)
    requires
        moves_unshared_beside(s, w, h, active, dx, dy, n, r),
        dx > 0,
        r[active].covers(s[active].right(), row_beyond(s, active, n)),
    ensures
        !tiles(r, w, h),
{
    let a = s[active];
    let t = resized(s, active, dx, dy);
    lemma_moved_unshared_beside(s, w, h, active, dx, dy, n, r, active);
    lemma_moved_unshared_beside(s, w, h, active, dx, dy, n, r, n);
    assert(covered(s, a.x as int, a.bottom()));
    let v = choose|v: int| 0 <= v < s.len() && #[trigger] s[v].covers(a.x as int, a.bottom());
    lemma_moved_unshared_beside(s, w, h, active, dx, dy, n, r, v);
    assert(t[v] == s[v]);
    assert(r[v].covers(a.x as int, a.bottom()));
    assert(r[active].covers(a.x as int, a.bottom()));
    assert(!apart(r[active], r[v]));
}

/// Where the edge moves outwards and another frame, stretched, covers the
/// strip that the follower gives up, it reaches over the follower or over
/// the active frame.
proof fn lemma_unshared_beside_outward_other(
    s: Seq<Frame>,
    w: int,
    h: int,
    active: int,
    dx: int,
    dy: int,
    n: int,
    r: Seq<Frame>,
    g: int,
)
    requires
        moves_unshared_beside(s, w, h, active, dx, dy, n, r),
        dx > 0,
        0 <= g < s.len(),
        g != active,
        r[g].covers(s[active].right(), row_beyond(s, active, n)),
    ensures
        !tiles(r, w, h),
{
    let a = s[active];
    let t = resized(s, active, dx, dy);
    let px = a.right();
    let py = row_beyond(s, active, n);
    lemma_moved_unshared_beside(s, w, h, active, dx, dy, n, r, active);
    lemma_moved_unshared_beside(s, w, h, active, dx, dy, n, r, n);
    lemma_moved_unshared_beside(s, w, h, active, dx, dy, n, r, g);
    assert(s[n].covers(px, py));
    assert(g != n);
    assert(t[g] == s[g]);
    assert(!t[g].covers(px, py));
    if r[g].right() != t[g].right() {
        assert(r[g].covers(a.right() + dx, py));
        assert(r[n].covers(a.right() + dx, py));
        assert(!apart(r[g], r[n]));
    } else {
        let qy = if s[n].y < a.y { a.y as int } else { a.bottom() - 1 };
        assert(r[g].covers(px, qy));
        assert(r[active].covers(px, qy));
        assert(!apart(r[g], r[active]));
    }
}

/// Where the edge moves outwards, the follower that reaches beyond the rows
/// of the active frame gives up a strip that only a stretched frame can
/// cover; stretched, that frame reaches over another.
proof fn lemma_unshared_beside_outward(
    s: Seq<Frame>,
    w: int,
    h: int,
    active: int,
    dx: int,
    dy: int,
    n: int,
    r: Seq<Frame>,
)
    requires
        moves_unshared_beside(s, w, h, active, dx, dy, n, r),
        dx > 0,
    ensures
        !tiles(r, w, h),
{
    let px = s[active].right();
    let py = row_beyond(s, active, n);
    lemma_moved_unshared_beside(s, w, h, active, dx, dy, n, r, active);
    lemma_moved_unshared_beside(s, w, h, active, dx, dy, n, r, n);
    if covered(r, px, py) {
        let g = choose|g: int| 0 <= g < r.len() && #[trigger] r[g].covers(px, py);
        if g == active {
            lemma_unshared_beside_outward_active(s, w, h, active, dx, dy, n, r);
        } else {
            lemma_unshared_beside_outward_other(s, w, h, active, dx, dy, n, r, g);
        }
    }
}

/// Moving the right edge of a frame of a tiling, where a frame that begins
/// there reaches beyond the rows of the frame, leaves a gap or an overlap
/// that no stretching of the frames mends.
pub proof fn lemma_unshared_beside_loses_tiling(
    s: Seq<Frame>,
    w: int,
    h: int,
    active: int,
    dx: int,
    dy: int,
    n: int,
    r: Seq<Frame>,
)
    requires
        moves_unshared_beside(s, w, h, active, dx, dy, n, r),
    ensures
        !tiles(r, w, h),
{
    if dx < 0 {
        lemma_unshared_beside_inward(s, w, h, active, dx, dy, n, r);
    } else {
        lemma_unshared_beside_outward(s, w, h, active, dx, dy, n, r);
    }
}

/// The bottom edge of frame `active` of the tiling `s` moves by `dy`, its
/// right edge stays, and frame `n`, which follows the active frame,
/// reaches beyond its columns. `r` is the frames after the move, stretched in
/// whatever way.
pub open spec fn moves_unshared_below(
    s: Seq<Frame>,
    w: int,
    h: int,
    active: int,
    dx: int,
    dy: int,
    n: int,
    r: Seq<Frame>,
) -> bool {
    &&& tiles(s, w, h)
    &&& 0 <= active < s.len()
    &&& 0 <= n < s.len()
    &&& n != active
    &&& w <= i32::MAX
    &&& h <= i32::MAX
    &&& resize_applies(s, active, Axis::Vertical, dy)
    &&& !resize_applies(s, active, Axis::Horizontal, dx)
    &&& follows(s[active], s[n], Axis::Vertical)
    &&& s[n].x < s[active].x || s[n].right() > s[active].right()
    &&& stretched_to(r, resized(s, active, dx, dy), w, h)
}

/// What is known of frame `i` before the move, after it, and stretched.
proof fn lemma_moved_unshared_below(
    s: Seq<Frame>,
    w: int,
    h: int,
    active: int,
    dx: int,
    dy: int,
    n: int,
    r: Seq<Frame>,
    i: int,
)
    requires
        moves_unshared_below(s, w, h, active, dx, dy, n, r),
        0 <= i < s.len(),
    ensures
        resized(s, active, dx, dy)[i] == resized_one(s[i], s[active], i == active, 0, dy),
        stretched_one(r[i], resized(s, active, dx, dy)[i], w, h),
        proper(s[i], w, h),
        i != active ==> apart(s[i], s[active]),
        i != n ==> apart(s[i], s[n]),
        i != active && follows(s[active], s[i], Axis::Vertical) ==> s[i].height - dy >= MIN_SIZE,
{
    assert(proper(s[i], w, h));
    assert(proper(s[active], w, h));
    if i != active {
        assert(apart(s[i], s[active]));
    }
    if i != n {
        assert(apart(s[i], s[n]));
    }
}

/// Where the edge moves inwards, the follower that reaches beyond the
/// columns of the active frame grows over the frame that lies above it
/// there.
proof fn lemma_unshared_below_inward(
    s: Seq<Frame>,
    w: int,
    h: int,
    active: int,
    dx: int,
    dy: int,
    n: int,
    r: Seq<Frame>,
)
    requires
        moves_unshared_below(s, w, h, active, dx, dy, n, r),
        dy < 0,
    ensures
        !tiles(r, w, h),
{
    let a = s[active];
    let t = resized(s, active, dx, dy);
    lemma_moved_unshared_below(s, w, h, active, dx, dy, n, r, active);
    lemma_moved_unshared_below(s, w, h, active, dx, dy, n, r, n);
    let py = a.bottom() - 1;
    let px = if s[n].x < a.x { a.x - 1 } else { a.right() };
    assert(covered(s, px, py));
    let m = choose|m: int| 0 <= m < s.len() && #[trigger] s[m].covers(px, py);
    lemma_moved_unshared_below(s, w, h, active, dx, dy, n, r, m);
    assert(t[m] == s[m]);
    assert(r[m].covers(px, py));
    assert(r[n].covers(px, py));
    assert(!apart(r[m], r[n]));
}

/// A column of the follower `n` just outside the columns of the active
/// frame.
pub open spec fn column_beyond(s: Seq<Frame>, active: int, n: int) -> int {
    if s[n].x < s[active].x {
        s[active].x - 1
    } else {
        s[active].right()
    }
}

/// Where the edge moves outwards and the active frame, stretched, covers
/// the strip that the follower gives up, it reaches over the frame beside
/// it.
proof fn lemma_unshared_below_outward_active(
    s: Seq<Frame>,
    w: int,
    h: int,
    active: int,
    dx: int,
    dy: int,
    n: int,
    r: Seq<Frame>,
)
    requires
        moves_unshared_below(s, w, h, active, dx, dy, n, r),
        dy > 0,
        r[active].covers(column_beyond(s, active, n), s[active].bottom()),
    ensures
        !tiles(r, w, h),
{
    let a = s[active];
    let t = resized(s, active, dx, dy);
    lemma_moved_unshared_below(s, w, h, active, dx, dy, n, r, active);
    lemma_moved_unshared_below(s, w, h, active, dx, dy, n, r, n);
    assert(covered(s, a.right(), a.y as int));
    let v = choose|v: int| 0 <= v < s.len() && #[trigger] s[v].covers(a.right(), a.y as int);
    lemma_moved_unshared_below(s, w, h, active, dx, dy, n, r, v);
    assert(t[v] == s[v]);
    assert(r[v].covers(a.right(), a.y as int));
    assert(r[active].covers(a.right(), a.y as int));
    assert(!apart(r[active], r[v]));
}

/// Where the edge moves outwards and another frame, stretched, covers the
/// strip that the follower gives up, it reaches over the follower or over
/// the active frame.
proof fn lemma_unshared_below_outward_other(
    s: Seq<Frame>,
    w: int,
    h: int,
    active: int,
    dx: int,
    dy: int,
    n: int,
    r: Seq<Frame>,
    g: int,
)
    requires
        moves_unshared_below(s, w, h, active, dx, dy, n, r),
        dy > 0,
        0 <= g < s.len(),
        g != active,
        r[g].covers(column_beyond(s, active, n), s[active].bottom()),
    ensures
        !tiles(r, w, h),
{
    let a = s[active];
    let t = resized(s, active, dx, dy);
    let py = a.bottom();
    let px = column_beyond(s, active, n);
    lemma_moved_unshared_below(s, w, h, active, dx, dy, n, r, active);
    lemma_moved_unshared_below(s, w, h, active, dx, dy, n, r, n);
    lemma_moved_unshared_below(s, w, h, active, dx, dy, n, r, g);
    assert(s[n].covers(px, py));
    assert(g != n);
    assert(t[g] == s[g]);
    assert(!t[g].covers(px, py));
    if r[g].bottom() != t[g].bottom() {
        assert(r[g].covers(px, a.bottom() + dy));
        assert(r[n].covers(px, a.bottom() + dy));
        assert(!apart(r[g], r[n]));
    } else {
        let qx = if s[n].x < a.x { a.x as int } else { a.right() - 1 };
        assert(r[g].covers(qx, py));
        assert(r[active].covers(qx, py));
        assert(!apart(r[g], r[active]));
    }
}

/// Where the edge moves outwards, the follower that reaches beyond the
/// columns of the active frame gives up a strip that only a stretched frame can
/// cover; stretched, that frame reaches over another.
proof fn lemma_unshared_below_outward(
    s: Seq<Frame>,
    w: int,
    h: int,
    active: int,
    dx: int,
    dy: int,
    n: int,
    r: Seq<Frame>,
)
    requires
        moves_unshared_below(s, w, h, active, dx, dy, n, r),
        dy > 0,
    ensures
        !tiles(r, w, h),
{
    let py = s[active].bottom();
    let px = column_beyond(s, active, n);
    lemma_moved_unshared_below(s, w, h, active, dx, dy, n, r, active);
    lemma_moved_unshared_below(s, w, h, active, dx, dy, n, r, n);
    if covered(r, px, py) {
        let g = choose|g: int| 0 <= g < r.len() && #[trigger] r[g].covers(px, py);
        if g == active {
            lemma_unshared_below_outward_active(s, w, h, active, dx, dy, n, r);
        } else {
            lemma_unshared_below_outward_other(s, w, h, active, dx, dy, n, r, g);
        }
    }
}

/// Moving the bottom edge of a frame of a tiling, where a frame that begins
/// there reaches beyond the columns of the frame, leaves a gap or an overlap
/// that no stretching of the frames mends.
pub proof fn lemma_unshared_below_loses_tiling(
    s: Seq<Frame>,
    w: int,
    h: int,
    active: int,
    dx: int,
    dy: int,
    n: int,
    r: Seq<Frame>,
)
    requires
        moves_unshared_below(s, w, h, active, dx, dy, n, r),
    ensures
        !tiles(r, w, h),
{
    if dy < 0 {
        lemma_unshared_below_inward(s, w, h, active, dx, dy, n, r);
    } else {
        lemma_unshared_below_outward(s, w, h, active, dx, dy, n, r);
    }
}

/// Both far edges of frame `active` of the tiling `s` move, and both are
/// shared. `r` is the frames after the move, stretched in whatever way.
pub open spec fn moves_corner(
    s: Seq<Frame>,
    w: int,
    h: int,
    active: int,
    dx: int,
    dy: int,
    r: Seq<Frame>,
) -> bool {
    &&& tiles(s, w, h)
    &&& 0 <= active < s.len()
    &&& w <= i32::MAX
    &&& h <= i32::MAX
    &&& resize_applies(s, active, Axis::Horizontal, dx)
    &&& resize_applies(s, active, Axis::Vertical, dy)
    &&& edge_is_shared(s, w, h, active, Axis::Horizontal)
    &&& edge_is_shared(s, w, h, active, Axis::Vertical)
    &&& stretched_to(r, resized(s, active, dx, dy), w, h)
}

/// What is known of frame `i` before the move, after it, and stretched.
proof fn lemma_moved_corner(
    s: Seq<Frame>,
    w: int,
    h: int,
    active: int,
    dx: int,
    dy: int,
    r: Seq<Frame>,
    i: int,
)
    requires
        moves_corner(s, w, h, active, dx, dy, r),
        0 <= i < s.len(),
    ensures
        resized(s, active, dx, dy)[i] == resized_one(s[i], s[active], i == active, dx, dy),
        stretched_one(r[i], resized(s, active, dx, dy)[i], w, h),
        proper(s[i], w, h),
        i != active ==> apart(s[i], s[active]),
        i != active && follows(s[active], s[i], Axis::Horizontal) ==> s[active].y <= s[i].y
            && s[i].bottom() <= s[active].bottom() && s[i].width - dx >= MIN_SIZE,
        i != active && follows(s[active], s[i], Axis::Vertical) ==> s[active].x <= s[i].x
            && s[i].right() <= s[active].right() && s[i].height - dy >= MIN_SIZE,
{
    assert(proper(s[i], w, h));
    assert(proper(s[active], w, h));
    if i != active {
        assert(apart(s[i], s[active]));
    }
}

/// The frame across the corner from frame `active`, the follower beside
/// its last row and the follower below its last column.
proof fn lemma_corner_frames(
    s: Seq<Frame>,
    w: int,
    h: int,
    active: int,
    dx: int,
    dy: int,
    r: Seq<Frame>,
) -> (dfv: (int, int, int))
    requires
        moves_corner(s, w, h, active, dx, dy, r),
    ensures
        0 <= dfv.0 < s.len() && 0 <= dfv.1 < s.len() && 0 <= dfv.2 < s.len(),
        dfv.0 != active && dfv.1 != active && dfv.2 != active,
        s[dfv.0].covers(s[active].right(), s[active].bottom()),
        resized(s, active, dx, dy)[dfv.0] == s[dfv.0],
        follows(s[active], s[dfv.1], Axis::Horizontal),
        s[dfv.1].covers(s[active].right(), s[active].bottom() - 1),
        follows(s[active], s[dfv.2], Axis::Vertical),
        s[dfv.2].covers(s[active].right() - 1, s[active].bottom()),
        apart(s[dfv.1], s[dfv.2]),
{
    let a = s[active];
    lemma_moved_corner(s, w, h, active, dx, dy, r, active);
    assert(covered(s, a.right(), a.bottom()));
    let d = choose|d: int| 0 <= d < s.len() && #[trigger] s[d].covers(a.right(), a.bottom());
    lemma_moved_corner(s, w, h, active, dx, dy, r, d);
    let f = lemma_follower_beside(s, w, h, active, a.bottom() - 1);
    lemma_moved_corner(s, w, h, active, dx, dy, r, f);
    let v = lemma_follower_below(s, w, h, active, a.right() - 1);
    lemma_moved_corner(s, w, h, active, dx, dy, r, v);
    assert(apart(s[f], s[v]));
    (d, f, v)
}

/// Where both edges move outwards, the active frame grows over the frame
/// across the corner; where both move inwards, the followers on both sides
/// grow into the corner of the active frame.
proof fn lemma_corner_move_same_way(
    s: Seq<Frame>,
    w: int,
    h: int,
    active: int,
    dx: int,
    dy: int,
    r: Seq<Frame>,
)
    requires
        moves_corner(s, w, h, active, dx, dy, r),
        (dx > 0 && dy > 0) || (dx < 0 && dy < 0),
    ensures
        !tiles(r, w, h),
{
    let a = s[active];
    let (d, f, v) = lemma_corner_frames(s, w, h, active, dx, dy, r);
    lemma_moved_corner(s, w, h, active, dx, dy, r, active);
    lemma_moved_corner(s, w, h, active, dx, dy, r, d);
    lemma_moved_corner(s, w, h, active, dx, dy, r, f);
    lemma_moved_corner(s, w, h, active, dx, dy, r, v);
    if dx > 0 {
        assert(r[active].covers(a.right(), a.bottom()));
        assert(r[d].covers(a.right(), a.bottom()));
        assert(!apart(r[active], r[d]));
    } else {
        assert(r[f].covers(a.right() - 1, a.bottom() - 1));
        assert(r[v].covers(a.right() - 1, a.bottom() - 1));
        assert(!apart(r[f], r[v]));
    }
}

/// Where the right edge moves outwards and the bottom edge inwards, the
/// follower beside gives up a strip that the active frame, now less high,
/// does not take.
proof fn lemma_corner_move_right_and_up(
    s: Seq<Frame>,
    w: int,
    h: int,
    active: int,
    dx: int,
    dy: int,
    r: Seq<Frame>,
)
    requires
        moves_corner(s, w, h, active, dx, dy, r),
        dx > 0,
        dy < 0,
    ensures
        !tiles(r, w, h),
{
    let a = s[active];
    let t = resized(s, active, dx, dy);
    let (d, f, v) = lemma_corner_frames(s, w, h, active, dx, dy, r);
    lemma_moved_corner(s, w, h, active, dx, dy, r, active);
    lemma_moved_corner(s, w, h, active, dx, dy, r, d);
    lemma_moved_corner(s, w, h, active, dx, dy, r, f);
    let px = a.right();
    let py = a.bottom() - 1;
    if covered(r, px, py) {
        let g = choose|g: int| 0 <= g < r.len() && #[trigger] r[g].covers(px, py);
        lemma_moved_corner(s, w, h, active, dx, dy, r, g);
        if g != active && g != f {
            assert(apart(s[g], s[f]));
        }
        if r[g].right() != t[g].right() {
            assert(r[g].covers(a.right() + dx, py));
            assert(r[f].covers(a.right() + dx, py));
            assert(!apart(r[g], r[f]));
        } else {
            assert(r[g].covers(px, a.bottom()));
            assert(r[d].covers(px, a.bottom()));
            assert(!apart(r[g], r[d]));
        }
    }
}

/// Where the bottom edge moves outwards and the right edge inwards, the
/// follower below gives up a strip that the active frame, now less wide,
/// does not take.
proof fn lemma_corner_move_down_and_left(
    s: Seq<Frame>,
    w: int,
    h: int,
    active: int,
    dx: int,
    dy: int,
    r: Seq<Frame>,
)
    requires
        moves_corner(s, w, h, active, dx, dy, r),
        dx < 0,
        dy > 0,
    ensures
        !tiles(r, w, h),
{
    let a = s[active];
    let t = resized(s, active, dx, dy);
    let (d, f, v) = lemma_corner_frames(s, w, h, active, dx, dy, r);
    lemma_moved_corner(s, w, h, active, dx, dy, r, active);
    lemma_moved_corner(s, w, h, active, dx, dy, r, d);
    lemma_moved_corner(s, w, h, active, dx, dy, r, v);
    let px = a.right() - 1;
    let py = a.bottom();
    if covered(r, px, py) {
        let g = choose|g: int| 0 <= g < r.len() && #[trigger] r[g].covers(px, py);
        lemma_moved_corner(s, w, h, active, dx, dy, r, g);
        if g != active && g != v {
            assert(apart(s[g], s[v]));
        }
        if r[g].bottom() != t[g].bottom() {
            assert(r[g].covers(px, a.bottom() + dy));
            assert(r[v].covers(px, a.bottom() + dy));
            assert(!apart(r[g], r[v]));
        } else {
            assert(r[g].covers(a.right(), py));
            assert(r[d].covers(a.right(), py));
            assert(!apart(r[g], r[d]));
        }
    }
}

/// Moving both far edges of a frame of a tiling, where both are shared,
/// leaves a gap or an overlap at the corner between them that no
/// stretching of the frames mends.
pub proof fn lemma_corner_move_loses_tiling(
    s: Seq<Frame>,
    w: int,
    h: int,
    active: int,
    dx: int,
    dy: int,
    r: Seq<Frame>,
)
    requires
        moves_corner(s, w, h, active, dx, dy, r),
    ensures
        !tiles(r, w, h),
{
    if (dx > 0 && dy > 0) || (dx < 0 && dy < 0) {
        lemma_corner_move_same_way(s, w, h, active, dx, dy, r);
    } else if dx > 0 {
        lemma_corner_move_right_and_up(s, w, h, active, dx, dy, r);
    } else {
        lemma_corner_move_down_and_left(s, w, h, active, dx, dy, r);
    }
}

} // verus!
