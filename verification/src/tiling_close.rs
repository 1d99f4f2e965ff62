//! Closing a frame of a tiling.
//!
//! Where a frame shares a whole edge with the closed frame, the frames that
//! take its room over tile the canvas again. Where none does, the frame
//! that grows over the closed frame grows over another frame as well.

use vstd::prelude::*;
use crate::frame::{Axis, Frame};
use crate::reflow::{
    adjacent,
    count_adjacent,
    expanded,
    first_adjacent,
    grown_towards,
    h_adjacent,
    has_adjacent,
    hull,
    lemma_count_adjacent_of_two,
    lemma_count_adjacent_sign,
    lemma_first_adjacent,
    lemma_nearest_in_range,
    merged_nearest,
    nearest,
    reflowed,
    share_of,
    v_adjacent,
};
use crate::repair::{stretched_one, stretched_to};
use crate::tiling::{apart, covered, proper, tiles};

verus! {

/// The frames `s` tile the canvas of `w` by `h` but for the room of `c`:
/// `s` and `c` together are a tiling.
pub open spec fn tiles_but_for(s: Seq<Frame>, c: Frame, w: int, h: int) -> bool {
    &&& proper(c, w, h)
    &&& forall|i: int| 0 <= i < s.len() ==> proper(#[trigger] s[i], w, h)
    &&& forall|i: int, j: int|
        0 <= i < s.len() && 0 <= j < s.len() && i != j ==> apart(#[trigger] s[i], #[trigger] s[j])
    &&& forall|i: int| 0 <= i < s.len() ==> apart(#[trigger] s[i], c)
    &&& forall|px: int, py: int|
        0 <= px < w && 0 <= py < h ==> c.covers(px, py) || #[trigger] covered(s, px, py)
}

/// Taking a frame out of a tiling leaves a tiling but for that frame.
pub proof fn lemma_remove_leaves_room(s: Seq<Frame>, w: int, h: int, a: int)
    requires
        tiles(s, w, h),
        0 <= a < s.len(),
    ensures
        tiles_but_for(s.remove(a), s[a], w, h),
{
    let rest = s.remove(a);
    let c = s[a];
    assert(proper(c, w, h));
    assert forall|i: int| 0 <= i < rest.len() implies proper(#[trigger] rest[i], w, h) && apart(
        rest[i],
        c,
    ) by {
        let o = if i < a { i } else { i + 1 };
        assert(rest[i] == s[o]);
        assert(proper(s[o], w, h));
        assert(apart(s[o], s[a]));
    }
    assert forall|i: int, j: int|
        0 <= i < rest.len() && 0 <= j < rest.len() && i != j implies apart(
        #[trigger] rest[i],
        #[trigger] rest[j],
    ) by {
        let oi = if i < a { i } else { i + 1 };
        let oj = if j < a { j } else { j + 1 };
        assert(rest[i] == s[oi] && rest[j] == s[oj]);
        assert(apart(s[oi], s[oj]));
    }
    assert forall|px: int, py: int| 0 <= px < w && 0 <= py < h implies c.covers(px, py)
        || #[trigger] covered(rest, px, py) by {
        assert(covered(s, px, py));
        let i = choose|i: int| 0 <= i < s.len() && #[trigger] s[i].covers(px, py);
        if i != a {
            let r = if i < a { i } else { i - 1 };
            assert(rest[r] == s[i]);
            assert(rest[r].covers(px, py));
        }
    }
}

/// What is known of the frames adjacent to `c` when `s` and `c` tile a
/// canvas: `p` is the first of them; there is at most one more, `q`, which
/// is `p` again if there is no other.
pub open spec fn adjacent_pair(s: Seq<Frame>, c: Frame, axis: Axis, p: int, q: int) -> bool {
    &&& 0 <= p < s.len()
    &&& 0 <= q < s.len()
    &&& p == first_adjacent(s, c, axis)
    &&& adjacent(s[p], c, axis)
    &&& adjacent(s[q], c, axis)
    &&& forall|j: int| 0 <= j < s.len() && adjacent(#[trigger] s[j], c, axis) ==> j == p || j == q
    &&& count_adjacent(s, c, axis) == if q != p { 2int } else { 1int }
}

/// In a tiling, at most two frames share a whole edge with `c` across one
/// axis, one on each side of it.
pub proof fn lemma_adjacent_pair(s: Seq<Frame>, c: Frame, w: int, h: int, axis: Axis) -> (pq: (
    int,
    int,
))
    requires
        tiles_but_for(s, c, w, h),
        has_adjacent(s, c, axis),
    ensures
        adjacent_pair(s, c, axis, pq.0, pq.1),
{
    lemma_first_adjacent(s, c, axis, 0);
    let p = first_adjacent(s, c, axis);
    // Some frame is adjacent, so the first adjacent frame is in range.
    let some = choose|j: int| 0 <= j < s.len() && adjacent(#[trigger] s[j], c, axis);
    assert(adjacent(s[some], c, axis));
    assert(0 <= p < s.len() && adjacent(s[p], c, axis));
    let q = if exists|k: int| 0 <= k < s.len() && k != p && adjacent(#[trigger] s[k], c, axis) {
        choose|k: int| 0 <= k < s.len() && k != p && adjacent(#[trigger] s[k], c, axis)
    } else {
        p
    };
    assert(proper(s[p], w, h));
    assert(proper(s[q], w, h));
    assert forall|j: int| 0 <= j < s.len() && adjacent(#[trigger] s[j], c, axis) implies j == p
        || j == q by {
        if j != p && j != q {
            assert(proper(s[j], w, h));
            assert(apart(s[p], s[q]));
            assert(apart(s[p], s[j]));
            assert(apart(s[q], s[j]));
        }
    }
    lemma_count_adjacent_of_two(s, c, axis, p, q, s.len() as int);
    assert(s.take(s.len() as int) =~= s);
    (p, q)
}

/// One sharer gets all; of two sharers the first gets the larger half.
pub proof fn lemma_shares_of_one_or_two(total: int)
    requires
        0 <= total,
    ensures
        share_of(total, 1, true) == total,
        share_of(total, 2, true) + share_of(total, 2, false) == total,
        0 <= share_of(total, 2, false) <= share_of(total, 2, true) <= total,
{
}

/// The frames `s` leave the room of `c` free in a tiling, and the side
/// neighbours of `c` are `p` and `q`.
pub open spec fn taken_beside(s: Seq<Frame>, c: Frame, w: int, h: int, p: int, q: int) -> bool {
    &&& tiles_but_for(s, c, w, h)
    &&& w <= i32::MAX
    &&& h <= i32::MAX
    &&& adjacent_pair(s, c, Axis::Horizontal, p, q)
}

/// What becomes of frame `i` when the side neighbours take the room over.
proof fn lemma_taken_beside(s: Seq<Frame>, c: Frame, w: int, h: int, p: int, q: int, i: int)
    requires
        taken_beside(s, c, w, h, p, q),
        0 <= i < s.len(),
    ensures
        proper(s[i], w, h),
        apart(s[i], c),
        q != p ==> apart(s[p], s[q]),
        proper(expanded(s, c, Axis::Horizontal)[i], w, h),
        i != p && i != q ==> expanded(s, c, Axis::Horizontal)[i] == s[i],
        expanded(s, c, Axis::Horizontal)[p] == grown_towards(
            s[p],
            c,
            Axis::Horizontal,
            if q != p { share_of(c.width as int, 2, true) } else { c.width as int },
        ),
        q != p ==> expanded(s, c, Axis::Horizontal)[q] == grown_towards(
            s[q],
            c,
            Axis::Horizontal,
            share_of(c.width as int, 2, false),
        ),
{
    lemma_shares_of_one_or_two(c.width as int);
    assert(proper(s[i], w, h) && apart(s[i], c));
    assert(proper(s[p], w, h) && apart(s[p], c));
    assert(proper(s[q], w, h) && apart(s[q], c));
    if q != p {
        assert(apart(s[p], s[q]));
    }
    if i != p && i != q {
        assert(!adjacent(s[i], c, Axis::Horizontal));
    }
}

/// After the side neighbours have taken the room over, two frames are
/// apart.
proof fn lemma_taken_beside_apart(
    s: Seq<Frame>,
    c: Frame,
    w: int,
    h: int,
    p: int,
    q: int,
    i: int,
    j: int,
)
    requires
        taken_beside(s, c, w, h, p, q),
        0 <= i < s.len(),
        0 <= j < s.len(),
        i != j,
    ensures
        apart(expanded(s, c, Axis::Horizontal)[i], expanded(s, c, Axis::Horizontal)[j]),
{
    lemma_shares_of_one_or_two(c.width as int);
    lemma_taken_beside(s, c, w, h, p, q, i);
    lemma_taken_beside(s, c, w, h, p, q, j);
    assert(apart(s[i], s[j]));
}

/// After the side neighbours have taken the room over, every point of the
/// canvas is covered.
proof fn lemma_taken_beside_covered(
    s: Seq<Frame>,
    c: Frame,
    w: int,
    h: int,
    p: int,
    q: int,
    px: int,
    py: int,
)
    requires
        taken_beside(s, c, w, h, p, q),
        0 <= px < w,
        0 <= py < h,
    ensures
        covered(expanded(s, c, Axis::Horizontal), px, py),
{
    let e = expanded(s, c, Axis::Horizontal);
    lemma_shares_of_one_or_two(c.width as int);
    lemma_taken_beside(s, c, w, h, p, q, p);
    lemma_taken_beside(s, c, w, h, p, q, q);
    if c.covers(px, py) {
        if e[p].covers(px, py) {
        } else {
            assert(e[q].covers(px, py));
        }
    } else {
        assert(covered(s, px, py));
        let i = choose|i: int| 0 <= i < s.len() && #[trigger] s[i].covers(px, py);
        lemma_taken_beside(s, c, w, h, p, q, i);
        assert(e[i].covers(px, py));
    }
}

/// Where side neighbours take over the room of `c`, which the frames `s`
/// leave free in a tiling, the result is a tiling.
pub proof fn lemma_expanded_beside_tiles(s: Seq<Frame>, c: Frame, w: int, h: int)
    requires
        tiles_but_for(s, c, w, h),
        has_adjacent(s, c, Axis::Horizontal),
        w <= i32::MAX,
        h <= i32::MAX,
    ensures
        tiles(expanded(s, c, Axis::Horizontal), w, h),
{
    let (p, q) = lemma_adjacent_pair(s, c, w, h, Axis::Horizontal);
    let e = expanded(s, c, Axis::Horizontal);
    assert forall|i: int| 0 <= i < e.len() implies proper(#[trigger] e[i], w, h) by {
        lemma_taken_beside(s, c, w, h, p, q, i);
    }
    assert forall|i: int, j: int| 0 <= i < e.len() && 0 <= j < e.len() && i != j implies apart(
        #[trigger] e[i],
        #[trigger] e[j],
    ) by {
        lemma_taken_beside_apart(s, c, w, h, p, q, i, j);
    }
    assert forall|px: int, py: int| 0 <= px < w && 0 <= py < h implies #[trigger] covered(
        e,
        px,
        py,
    ) by {
        lemma_taken_beside_covered(s, c, w, h, p, q, px, py);
    }
}

/// The frames `s` leave the room of `c` free in a tiling, and the
/// neighbours of `c` above and below are `p` and `q`.
pub open spec fn taken_above_below(s: Seq<Frame>, c: Frame, w: int, h: int, p: int, q: int) -> bool {
    &&& tiles_but_for(s, c, w, h)
    &&& w <= i32::MAX
    &&& h <= i32::MAX
    &&& adjacent_pair(s, c, Axis::Vertical, p, q)
}

/// What becomes of frame `i` when the neighbours above and below take the
/// room over.
proof fn lemma_taken_above_below(s: Seq<Frame>, c: Frame, w: int, h: int, p: int, q: int, i: int)
    requires
        taken_above_below(s, c, w, h, p, q),
        0 <= i < s.len(),
    ensures
        proper(s[i], w, h),
        apart(s[i], c),
        q != p ==> apart(s[p], s[q]),
        proper(expanded(s, c, Axis::Vertical)[i], w, h),
        i != p && i != q ==> expanded(s, c, Axis::Vertical)[i] == s[i],
        expanded(s, c, Axis::Vertical)[p] == grown_towards(
            s[p],
            c,
            Axis::Vertical,
            if q != p { share_of(c.height as int, 2, true) } else { c.height as int },
        ),
        q != p ==> expanded(s, c, Axis::Vertical)[q] == grown_towards(
            s[q],
            c,
            Axis::Vertical,
            share_of(c.height as int, 2, false),
        ),
{
    lemma_shares_of_one_or_two(c.height as int);
    assert(proper(s[i], w, h) && apart(s[i], c));
    assert(proper(s[p], w, h) && apart(s[p], c));
    assert(proper(s[q], w, h) && apart(s[q], c));
    if q != p {
        assert(apart(s[p], s[q]));
    }
    if i != p && i != q {
        assert(!adjacent(s[i], c, Axis::Vertical));
    }
}

/// After the neighbours above and below have taken the room over, two
/// frames are apart.
proof fn lemma_taken_above_below_apart(
    s: Seq<Frame>,
    c: Frame,
    w: int,
    h: int,
    p: int,
    q: int,
    i: int,
    j: int,
)
    requires
        taken_above_below(s, c, w, h, p, q),
        0 <= i < s.len(),
        0 <= j < s.len(),
        i != j,
    ensures
        apart(expanded(s, c, Axis::Vertical)[i], expanded(s, c, Axis::Vertical)[j]),
{
    lemma_shares_of_one_or_two(c.height as int);
    lemma_taken_above_below(s, c, w, h, p, q, i);
    lemma_taken_above_below(s, c, w, h, p, q, j);
    assert(apart(s[i], s[j]));
}

/// After the neighbours above and below have taken the room over, every
/// point of the canvas is covered.
proof fn lemma_taken_above_below_covered(
    s: Seq<Frame>,
    c: Frame,
    w: int,
    h: int,
    p: int,
    q: int,
    px: int,
    py: int,
)
    requires
        taken_above_below(s, c, w, h, p, q),
        0 <= px < w,
        0 <= py < h,
    ensures
        covered(expanded(s, c, Axis::Vertical), px, py),
{
    let e = expanded(s, c, Axis::Vertical);
    lemma_shares_of_one_or_two(c.height as int);
    lemma_taken_above_below(s, c, w, h, p, q, p);
    lemma_taken_above_below(s, c, w, h, p, q, q);
    if c.covers(px, py) {
        if e[p].covers(px, py) {
        } else {
            assert(e[q].covers(px, py));
        }
    } else {
        assert(covered(s, px, py));
        let i = choose|i: int| 0 <= i < s.len() && #[trigger] s[i].covers(px, py);
        lemma_taken_above_below(s, c, w, h, p, q, i);
        assert(e[i].covers(px, py));
    }
}

/// Where neighbours above and below take over the room of `c`, which the
/// frames `s` leave free in a tiling, the result is a tiling.
pub proof fn lemma_expanded_above_below_tiles(s: Seq<Frame>, c: Frame, w: int, h: int)
    requires
        tiles_but_for(s, c, w, h),
        has_adjacent(s, c, Axis::Vertical),
        w <= i32::MAX,
        h <= i32::MAX,
    ensures
        tiles(expanded(s, c, Axis::Vertical), w, h),
{
    let (p, q) = lemma_adjacent_pair(s, c, w, h, Axis::Vertical);
    let e = expanded(s, c, Axis::Vertical);
    assert forall|i: int| 0 <= i < e.len() implies proper(#[trigger] e[i], w, h) by {
        lemma_taken_above_below(s, c, w, h, p, q, i);
    }
    assert forall|i: int, j: int| 0 <= i < e.len() && 0 <= j < e.len() && i != j implies apart(
        #[trigger] e[i],
        #[trigger] e[j],
    ) by {
        lemma_taken_above_below_apart(s, c, w, h, p, q, i, j);
    }
    assert forall|px: int, py: int| 0 <= px < w && 0 <= py < h implies #[trigger] covered(
        e,
        px,
        py,
    ) by {
        lemma_taken_above_below_covered(s, c, w, h, p, q, px, py);
    }
}

/// Where a frame shares a whole edge with `c`, the frames `s`, which leave
/// the room of `c` free in a tiling, tile the canvas once they have made
/// use of that room.
pub proof fn lemma_reflowed_tiles(s: Seq<Frame>, c: Frame, w: int, h: int)
    requires
        tiles_but_for(s, c, w, h),
        has_adjacent(s, c, Axis::Horizontal) || has_adjacent(s, c, Axis::Vertical),
        w <= i32::MAX,
        h <= i32::MAX,
    ensures
        tiles(reflowed(s, c), w, h),
{
    lemma_count_adjacent_sign(s, c, Axis::Horizontal);
    lemma_count_adjacent_sign(s, c, Axis::Vertical);
    if has_adjacent(s, c, Axis::Horizontal) {
        lemma_expanded_beside_tiles(s, c, w, h);
    } else {
        lemma_expanded_above_below_tiles(s, c, w, h);
    }
}


/// The bounding box of two frames of positive size that are apart and share
/// no whole edge holds a point that lies in neither.
pub proof fn lemma_hull_exceeds(f: Frame, c: Frame) -> (p: (int, int))
    requires
        f.width > 0 && f.height > 0 && f.fits(),
        c.width > 0 && c.height > 0 && c.fits(),
        apart(f, c),
        !h_adjacent(f, c),
        !v_adjacent(f, c),
    ensures
        hull(f, c).covers(p.0, p.1),
        !f.covers(p.0, p.1),
        !c.covers(p.0, p.1),
{
    if f.right() <= c.x {
        if f.right() < c.x {
            (f.right(), f.y as int)
        } else if f.y < c.y {
            (c.x as int, f.y as int)
        } else if f.y > c.y {
            (f.x as int, c.y as int)
        } else if f.bottom() < c.bottom() {
            (f.x as int, f.bottom())
        } else {
            (c.x as int, c.bottom())
        }
    } else if c.right() <= f.x {
        if c.right() < f.x {
            (c.right(), c.y as int)
        } else if c.y < f.y {
            (f.x as int, c.y as int)
        } else if c.y > f.y {
            (c.x as int, f.y as int)
        } else if c.bottom() < f.bottom() {
            (c.x as int, c.bottom())
        } else {
            (f.x as int, f.bottom())
        }
    } else if f.bottom() <= c.y {
        if f.bottom() < c.y {
            (f.x as int, f.bottom())
        } else if f.x < c.x {
            (f.x as int, c.y as int)
        } else if f.x > c.x {
            (c.x as int, f.y as int)
        } else if f.right() < c.right() {
            (f.right(), f.y as int)
        } else {
            (c.right(), c.y as int)
        }
    } else {
        if c.bottom() < f.y {
            (c.x as int, c.bottom())
        } else if c.x < f.x {
            (c.x as int, f.y as int)
        } else if c.x > f.x {
            (f.x as int, c.y as int)
        } else if c.right() < f.right() {
            (c.right(), c.y as int)
        } else {
            (f.right(), f.y as int)
        }
    }
}

/// Where no frame shares a whole edge with `c`, the frame that grows over
/// `c` grows over another frame as well, and no stretching of the frames
/// mends that.
pub proof fn lemma_merged_nearest_overlaps(
    s: Seq<Frame>,
    c: Frame,
    w: int,
    h: int,
    t: Seq<Frame>,
)
    requires
        tiles_but_for(s, c, w, h),
        w <= i32::MAX,
        h <= i32::MAX,
        s.len() > 0,
        !has_adjacent(s, c, Axis::Horizontal),
        !has_adjacent(s, c, Axis::Vertical),
        stretched_to(t, merged_nearest(s, c), w, h),
    ensures
        !tiles(t, w, h),
{
    lemma_nearest_in_range(s, c, s.len() as int);
    let k = nearest(s, c);
    let f = s[k];
    assert(proper(f, w, h));
    assert(apart(f, c));
    assert(!adjacent(f, c, Axis::Horizontal));
    assert(!adjacent(f, c, Axis::Vertical));
    let p = lemma_hull_exceeds(f, c);
    assert(0 <= p.0 < w && 0 <= p.1 < h);
    assert(covered(s, p.0, p.1));
    let j = choose|j: int| 0 <= j < s.len() && #[trigger] s[j].covers(p.0, p.1);
    let m = merged_nearest(s, c);
    assert(m[k] == hull(f, c));
    assert(m[j] == s[j]);
    assert(stretched_one(t[k], m[k], w, h) && stretched_one(t[j], m[j], w, h));
    assert(t[k].covers(p.0, p.1));
    assert(t[j].covers(p.0, p.1));
    assert(!apart(t[k], t[j]));
}


/// Where the nearest frame grows over `c`, every point of the canvas is
/// covered, however the frames are stretched afterwards, and every frame
/// still lies on the canvas.
pub proof fn lemma_merged_nearest_covers(s: Seq<Frame>, c: Frame, w: int, h: int, t: Seq<Frame>)
    requires
        tiles_but_for(s, c, w, h),
        w <= i32::MAX,
        h <= i32::MAX,
        s.len() > 0,
        stretched_to(t, merged_nearest(s, c), w, h),
    ensures
        forall|i: int| 0 <= i < t.len() ==> proper(#[trigger] t[i], w, h),
        forall|px: int, py: int| 0 <= px < w && 0 <= py < h ==> #[trigger] covered(t, px, py),
{
    lemma_nearest_in_range(s, c, s.len() as int);
    let k = nearest(s, c);
    let m = merged_nearest(s, c);
    assert(proper(s[k], w, h));
    assert(m[k] == hull(s[k], c));
    assert forall|i: int| 0 <= i < t.len() implies proper(#[trigger] t[i], w, h) by {
        assert(proper(s[i], w, h));
        assert(stretched_one(t[i], m[i], w, h));
    }
    assert forall|px: int, py: int| 0 <= px < w && 0 <= py < h implies #[trigger] covered(
        t,
        px,
        py,
    ) by {
        if c.covers(px, py) {
            assert(stretched_one(t[k], m[k], w, h));
            assert(t[k].covers(px, py));
        } else {
            assert(covered(s, px, py));
            let i = choose|i: int| 0 <= i < s.len() && #[trigger] s[i].covers(px, py);
            assert(proper(s[i], w, h));
            assert(stretched_one(t[i], m[i], w, h));
            assert(t[i].covers(px, py));
        }
    }
}

} // verus!
