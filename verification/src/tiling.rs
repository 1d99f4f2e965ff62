//! Tilings: frames that cover a canvas exactly, without overlapping.

use vstd::prelude::*;
use crate::frame::Frame;
use crate::repair::{
    abuts_below,
    abuts_right,
    all_fit,
    close_gap_right,
    first_open_below,
    first_open_right,
    has_below_neighbor,
    has_right_neighbor,
    lemma_first_open_below,
    lemma_first_open_right,
    max_bottom,
    max_right,
    repaired,
    settle,
    stretch_one,
    stretch_outermost,
    unsettled,
};

verus! {

/// `f` has a positive width and height and lies on the canvas of `w` by `h`.
pub open spec fn proper(f: Frame, w: int, h: int) -> bool {
    &&& f.width > 0
    &&& f.height > 0
    &&& f.x >= 0
    &&& f.y >= 0
    &&& f.right() <= w
    &&& f.bottom() <= h
}

/// `a` and `b` have no point in common: one ends where or before the other
/// begins, along one of the axes.
pub open spec fn apart(a: Frame, b: Frame) -> bool {
    a.right() <= b.x || b.right() <= a.x || a.bottom() <= b.y || b.bottom() <= a.y
}

/// Some frame of `s` covers the point `(px, py)`.
pub open spec fn covered(s: Seq<Frame>, px: int, py: int) -> bool {
    exists|i: int| 0 <= i < s.len() && #[trigger] s[i].covers(px, py)
}

/// The frames `s` tile the canvas of `w` by `h`: each has a positive size
/// and lies on the canvas, no two of them overlap, and every point of the
/// canvas is covered.
pub open spec fn tiles(s: Seq<Frame>, w: int, h: int) -> bool {
    &&& forall|i: int| 0 <= i < s.len() ==> proper(#[trigger] s[i], w, h)
    &&& forall|i: int, j: int|
        0 <= i < s.len() && 0 <= j < s.len() && i != j ==> apart(#[trigger] s[i], #[trigger] s[j])
    &&& forall|px: int, py: int| 0 <= px < w && 0 <= py < h ==> #[trigger] covered(s, px, py)
}

/// No right edge lies beyond the largest right edge.
pub proof fn lemma_max_right_bounds(s: Seq<Frame>, i: int)
    requires
        0 <= i < s.len(),
    ensures
        s[i].right() <= max_right(s),
    decreases s.len(),
{
    if i < s.len() - 1 {
        lemma_max_right_bounds(s.drop_last(), i);
    }
}

/// No bottom edge lies beyond the largest bottom edge.
pub proof fn lemma_max_bottom_bounds(s: Seq<Frame>, i: int)
    requires
        0 <= i < s.len(),
    ensures
        s[i].bottom() <= max_bottom(s),
    decreases s.len(),
{
    if i < s.len() - 1 {
        lemma_max_bottom_bounds(s.drop_last(), i);
    }
}

/// In a tiling, a frame that ends short of the right canvas edge has
/// another frame beginning right there, level with its top row.
pub proof fn lemma_tiling_right_neighbor(s: Seq<Frame>, w: int, h: int, i: int)
    requires
        tiles(s, w, h),
        0 <= i < s.len(),
        s[i].right() < w,
    ensures
        has_right_neighbor(s, i),
{
    let f = s[i];
    assert(proper(f, w, h));
    assert(covered(s, f.right(), f.y as int));
    let j = choose|j: int| 0 <= j < s.len() && #[trigger] s[j].covers(f.right(), f.y as int);
    assert(proper(s[j], w, h));
    assert(j != i);
    assert(apart(s[i], s[j]));
    assert(abuts_right(s[i], s[j]));
}

/// In a tiling, a frame that ends short of the bottom canvas edge has
/// another frame beginning right there, level with its left column.
pub proof fn lemma_tiling_below_neighbor(s: Seq<Frame>, w: int, h: int, i: int)
    requires
        tiles(s, w, h),
        0 <= i < s.len(),
        s[i].bottom() < h,
    ensures
        has_below_neighbor(s, i),
{
    let f = s[i];
    assert(proper(f, w, h));
    assert(covered(s, f.x as int, f.bottom()));
    let j = choose|j: int| 0 <= j < s.len() && #[trigger] s[j].covers(f.x as int, f.bottom());
    assert(proper(s[j], w, h));
    assert(j != i);
    assert(apart(s[i], s[j]));
    assert(abuts_below(s[i], s[j]));
}

/// The frames of a tiling fit.
pub proof fn lemma_tiling_fits(s: Seq<Frame>, w: int, h: int)
    requires
        tiles(s, w, h),
        0 <= w <= i32::MAX,
        0 <= h <= i32::MAX,
    ensures
        all_fit(s),
{
    assert forall|i: int| 0 <= i < s.len() implies (#[trigger] s[i]).fits() by {
        assert(proper(s[i], w, h));
    }
}

/// The largest right edge is at most any bound that is not negative and
/// that no right edge exceeds.
pub proof fn lemma_max_right_at_most(s: Seq<Frame>, m: int)
    requires
        0 <= m,
        forall|i: int| 0 <= i < s.len() ==> (#[trigger] s[i]).right() <= m,
    ensures
        max_right(s) <= m,
    decreases s.len(),
{
    if s.len() > 0 {
        assert(s[s.len() - 1].right() <= m);
        assert forall|i: int| 0 <= i < s.drop_last().len() implies (#[trigger] s.drop_last()[i]).right()
            <= m by {
            assert(s[i].right() <= m);
        }
        lemma_max_right_at_most(s.drop_last(), m);
    }
}

/// The largest bottom edge is at most any bound that is not negative and
/// that no bottom edge exceeds.
pub proof fn lemma_max_bottom_at_most(s: Seq<Frame>, m: int)
    requires
        0 <= m,
        forall|i: int| 0 <= i < s.len() ==> (#[trigger] s[i]).bottom() <= m,
    ensures
        max_bottom(s) <= m,
    decreases s.len(),
{
    if s.len() > 0 {
        assert(s[s.len() - 1].bottom() <= m);
        assert forall|i: int| 0 <= i < s.drop_last().len() implies (#[trigger] s.drop_last()[i]).bottom()
            <= m by {
            assert(s[i].bottom() <= m);
        }
        lemma_max_bottom_at_most(s.drop_last(), m);
    }
}

/// In a tiling no frame is open, so a round of the gap-repair pass changes
/// nothing.
pub proof fn lemma_tiling_is_settled(s: Seq<Frame>, w: int, h: int)
    requires
        tiles(s, w, h),
        0 < w <= i32::MAX,
        0 < h <= i32::MAX,
    ensures
        first_open_right(s, w) == s.len(),
        first_open_below(s, h) == s.len(),
        !unsettled(s, w, h),
        settle(s, w, h) == s,
{
    lemma_tiling_fits(s, w, h);
    lemma_first_open_right(s, w, 0);
    let i = first_open_right(s, w);
    if i < s.len() {
        lemma_tiling_right_neighbor(s, w, h, i);
    }
    assert(close_gap_right(s, w) == s);
    lemma_first_open_below(s, h, 0);
    let j = first_open_below(s, h);
    if j < s.len() {
        lemma_tiling_below_neighbor(s, w, h, j);
    }
}

/// The gap-repair pass leaves a tiling of its canvas as it is.
pub proof fn lemma_repair_keeps_tiling(s: Seq<Frame>, w: int, h: int)
    requires
        tiles(s, w, h),
        0 < w <= i32::MAX,
        0 < h <= i32::MAX,
    ensures
        repaired(s, w, h) == s,
{
    // The frames that cover the last column and the last row reach the edges.
    assert(covered(s, w - 1, 0));
    let r = choose|r: int| 0 <= r < s.len() && #[trigger] s[r].covers(w - 1, 0);
    lemma_max_right_bounds(s, r);
    assert(covered(s, 0, h - 1));
    let b = choose|b: int| 0 <= b < s.len() && #[trigger] s[b].covers(0, h - 1);
    lemma_max_bottom_bounds(s, b);
    assert(stretch_outermost(s, w, h) =~= s) by {
        assert forall|i: int| 0 <= i < s.len() implies stretch_one(
            s[i],
            max_right(s),
            max_bottom(s),
            w,
            h,
        ) == s[i] by {
            assert(proper(s[i], w, h));
        }
    }
    lemma_tiling_is_settled(s, w, h);
}

/// `g` lies within `f`.
pub open spec fn within(g: Frame, f: Frame) -> bool {
    g.x >= f.x && g.y >= f.y && g.right() <= f.right() && g.bottom() <= f.bottom()
}

/// `g1` and `g2` have a positive size, lie within `f`, do not overlap, and
/// cover `f` between them.
pub open spec fn halves(f: Frame, g1: Frame, g2: Frame) -> bool {
    &&& g1.width > 0 && g1.height > 0 && within(g1, f)
    &&& g2.width > 0 && g2.height > 0 && within(g2, f)
    &&& apart(g1, g2)
    &&& forall|px: int, py: int| #[trigger]
        f.covers(px, py) ==> g1.covers(px, py) || g2.covers(px, py)
}

/// A tiling stays one when a frame gives way to two frames that halve it,
/// one in its place and one at the end.
pub proof fn lemma_halving_keeps_tiling(
    s: Seq<Frame>,
    w: int,
    h: int,
    a: int,
    g1: Frame,
    g2: Frame,
)
    requires
        tiles(s, w, h),
        0 <= a < s.len(),
        halves(s[a], g1, g2),
    ensures
        tiles(s.update(a, g1).push(g2), w, h),
{
    let t = s.update(a, g1).push(g2);
    let n = s.len() as int;
    assert(proper(s[a], w, h));
    assert forall|i: int| 0 <= i < t.len() implies proper(#[trigger] t[i], w, h) by {
        if i < n && i != a {
            assert(proper(s[i], w, h));
        }
    }
    assert forall|i: int, j: int| 0 <= i < t.len() && 0 <= j < t.len() && i != j implies apart(
        #[trigger] t[i],
        #[trigger] t[j],
    ) by {
        let oi = if i < n { i } else { a };
        let oj = if j < n { j } else { a };
        assert(within(t[i], s[oi]));
        assert(within(t[j], s[oj]));
        if oi != oj {
            assert(apart(s[oi], s[oj]));
        }
    }
    assert forall|px: int, py: int| 0 <= px < w && 0 <= py < h implies #[trigger] covered(
        t,
        px,
        py,
    ) by {
        assert(covered(s, px, py));
        let i = choose|i: int| 0 <= i < s.len() && #[trigger] s[i].covers(px, py);
        if i != a {
            assert(t[i].covers(px, py));
        } else if g1.covers(px, py) {
            assert(t[a].covers(px, py));
        } else {
            assert(t[n].covers(px, py));
        }
    }
}

} // verus!
