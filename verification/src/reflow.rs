//! What the remaining frames do with the room that a closed frame leaves.
//!
//! Frames that share a whole edge with the closed frame take its room over,
//! in equal parts; side neighbours come before neighbours above and below.
//! Where no frame shares a whole edge with it, the frame whose center is
//! nearest grows to the bounding box of itself and the closed frame.

use vstd::prelude::*;
use vstd::arithmetic::div_mod::{
    lemma_basic_div,
    lemma_div_pos_is_pos,
    lemma_fundamental_div_mod,
    lemma_mod_bound,
    lemma_small_mod,
};
use crate::frame::{Axis, Frame, extent, max_int, min_int};
use crate::repair::all_fit;

verus! {

/// `f` and `c` span the same rows and one begins in the column where the
/// other ends.
pub open spec fn h_adjacent(f: Frame, c: Frame) -> bool {
    f.y == c.y && f.height == c.height && (f.right() == c.x || c.right() == f.x)
}

/// `f` and `c` span the same columns and one begins in the row where the
/// other ends.
pub open spec fn v_adjacent(f: Frame, c: Frame) -> bool {
    f.x == c.x && f.width == c.width && (f.bottom() == c.y || c.bottom() == f.y)
}

/// `f` shares a whole edge with `c` across the given axis.
pub open spec fn adjacent(f: Frame, c: Frame, axis: Axis) -> bool {
    match axis {
        Axis::Horizontal => h_adjacent(f, c),
        Axis::Vertical => v_adjacent(f, c),
    }
}

/// How many frames of `s` are adjacent to `c` across the axis.
pub open spec fn count_adjacent(s: Seq<Frame>, c: Frame, axis: Axis) -> nat
    decreases s.len(),
{
    if s.len() == 0 {
        0
    } else {
        count_adjacent(s.drop_last(), c, axis) + if adjacent(s.last(), c, axis) {
            1nat
        } else {
            0nat
        }
    }
}

/// The least index from `k` on whose frame is adjacent to `c` across the
/// axis, or the length of `s` if there is none.
pub open spec fn first_adjacent_from(s: Seq<Frame>, c: Frame, axis: Axis, k: int) -> int
    decreases s.len() - k,
{
    if k >= s.len() {
        s.len() as int
    } else if adjacent(s[k], c, axis) {
        k
    } else {
        first_adjacent_from(s, c, axis, k + 1)
    }
}

/// The first frame in sequence order that is adjacent to `c` across the
/// axis, if any.
pub open spec fn first_adjacent(s: Seq<Frame>, c: Frame, axis: Axis) -> int {
    first_adjacent_from(s, c, axis, 0)
}

/// One part of `total` shared among `n`: the quotient, and for the first
/// sharer the remainder on top.
pub open spec fn share_of(total: int, n: int, is_first: bool) -> int {
    total / n + if is_first { total % n } else { 0 }
}

/// `f` grown by `add` along the axis towards `c`: its far edge stays, and
/// its near edge moves if `f` lies beyond `c`.
pub open spec fn grown_towards(f: Frame, c: Frame, axis: Axis, add: int) -> Frame {
    match axis {
        Axis::Horizontal => Frame {
            x: if f.x > c.x { (f.x - add) as i32 } else { f.x },
            width: (f.width + add) as i32,
            ..f
        },
        Axis::Vertical => Frame {
            y: if f.y > c.y { (f.y - add) as i32 } else { f.y },
            height: (f.height + add) as i32,
            ..f
        },
    }
}

/// What becomes of frame `j` of `s` when the frames adjacent to `c` across
/// the axis share out its extent.
pub open spec fn expanded_one(s: Seq<Frame>, c: Frame, axis: Axis, j: int) -> Frame {
    if adjacent(s[j], c, axis) {
        grown_towards(
            s[j],
            c,
            axis,
            share_of(
                extent(c, axis),
                count_adjacent(s, c, axis) as int,
                j == first_adjacent(s, c, axis),
            ),
        )
    } else {
        s[j]
    }
}

/// The frames adjacent to `c` across the axis share out its extent.
pub open spec fn expanded(s: Seq<Frame>, c: Frame, axis: Axis) -> Seq<Frame> {
    Seq::new(s.len(), |j: int| expanded_one(s, c, axis, j))
}

/// The squared distance between the centers of `f` and `c`.
pub open spec fn center_distance(f: Frame, c: Frame) -> int {
    let dx = f.center_x() - c.center_x();
    let dy = f.center_y() - c.center_y();
    dx * dx + dy * dy
}

/// Among the first `n` frames of `s`, the index of the one whose center is
/// nearest to the center of `c`; of several equally near, the first.
pub open spec fn nearest_upto(s: Seq<Frame>, c: Frame, n: int) -> int
    decreases n,
{
    if n <= 1 {
        0
    } else {
        let best = nearest_upto(s, c, n - 1);
        if center_distance(s[n - 1], c) < center_distance(s[best], c) {
            n - 1
        } else {
            best
        }
    }
}

/// The index of the frame of `s` whose center is nearest to the center of
/// `c`; of several equally near, the first.
pub open spec fn nearest(s: Seq<Frame>, c: Frame) -> int {
    nearest_upto(s, c, s.len() as int)
}

/// The bounding box of `f` and `c`.
pub open spec fn hull(f: Frame, c: Frame) -> Frame {
    let left = min_int(f.x as int, c.x as int);
    let top = min_int(f.y as int, c.y as int);
    Frame {
        x: left as i32,
        y: top as i32,
        width: (max_int(f.right(), c.right()) - left) as i32,
        height: (max_int(f.bottom(), c.bottom()) - top) as i32,
    }
}

/// The frame nearest to `c` grows to the bounding box of itself and `c`.
pub open spec fn merged_nearest(s: Seq<Frame>, c: Frame) -> Seq<Frame> {
    let k = nearest(s, c);
    s.update(k, hull(s[k], c))
}

/// The remaining frames `s` after the frame `c` was closed: side neighbours
/// of `c` share out its width; if it has none, neighbours above and below
/// share out its height; if it has none of these either, the nearest frame
/// grows over it.
pub open spec fn reflowed(s: Seq<Frame>, c: Frame) -> Seq<Frame> {
    if count_adjacent(s, c, Axis::Horizontal) > 0 {
        expanded(s, c, Axis::Horizontal)
    } else if count_adjacent(s, c, Axis::Vertical) > 0 {
        expanded(s, c, Axis::Vertical)
    } else if s.len() > 0 {
        merged_nearest(s, c)
    } else {
        s
    }
}

/// Some frame of `s` shares a whole edge with `c` across the axis.
pub open spec fn has_adjacent(s: Seq<Frame>, c: Frame, axis: Axis) -> bool {
    exists|j: int| 0 <= j < s.len() && adjacent(#[trigger] s[j], c, axis)
}

/// The first adjacent index, where there is one, is in range and adjacent,
/// and no earlier index from `k` on is adjacent.
pub proof fn lemma_first_adjacent(s: Seq<Frame>, c: Frame, axis: Axis, k: int)
    requires
        0 <= k <= s.len(),
    ensures
        k <= first_adjacent_from(s, c, axis, k) <= s.len(),
        first_adjacent_from(s, c, axis, k) < s.len() ==> adjacent(
            s[first_adjacent_from(s, c, axis, k)],
            c,
            axis,
        ),
        forall|m: int|
            k <= m < first_adjacent_from(s, c, axis, k) ==> !adjacent(#[trigger] s[m], c, axis),
    decreases s.len() - k,
{
    if k < s.len() && !adjacent(s[k], c, axis) {
        lemma_first_adjacent(s, c, axis, k + 1);
    }
}

/// If only the frames `p` and `q` can be adjacent to `c`, the count among
/// the first `n` frames is the count among these two.
pub proof fn lemma_count_adjacent_of_two(
    s: Seq<Frame>,
    c: Frame,
    axis: Axis,
    p: int,
    q: int,
    n: int,
)
    requires
        0 <= n <= s.len(),
        forall|j: int| 0 <= j < s.len() && adjacent(#[trigger] s[j], c, axis) ==> j == p || j == q,
    ensures
        count_adjacent(s.take(n), c, axis) == (if 0 <= p < n && adjacent(s[p], c, axis) {
            1int
        } else {
            0int
        }) + (if 0 <= q < n && q != p && adjacent(s[q], c, axis) {
            1int
        } else {
            0int
        }),
    decreases n,
{
    if n > 0 {
        lemma_count_adjacent_of_two(s, c, axis, p, q, n - 1);
        assert(s.take(n).drop_last() =~= s.take(n - 1));
        assert(s.take(n).last() == s[n - 1]);
    }
}

/// The count of adjacent frames is positive exactly if there is one.
pub proof fn lemma_count_adjacent_sign(s: Seq<Frame>, c: Frame, axis: Axis)
    ensures
        count_adjacent(s, c, axis) > 0 <==> has_adjacent(s, c, axis),
    decreases s.len(),
{
    if s.len() > 0 {
        let t = s.drop_last();
        lemma_count_adjacent_sign(t, c, axis);
        if has_adjacent(t, c, axis) {
            let j = choose|j: int| 0 <= j < t.len() && adjacent(#[trigger] t[j], c, axis);
            assert(adjacent(s[j], c, axis));
        }
        if has_adjacent(s, c, axis) {
            let j = choose|j: int| 0 <= j < s.len() && adjacent(#[trigger] s[j], c, axis);
            if j < t.len() {
                assert(adjacent(t[j], c, axis));
            }
        }
        if adjacent(s.last(), c, axis) {
            assert(adjacent(s[s.len() - 1], c, axis));
        }
    }
}

/// The parts that `n` sharers get of `total` are not negative, and the
/// first sharer's part is at most `total`.
pub proof fn lemma_share_bounds(total: int, n: int)
    requires
        0 <= total,
        1 <= n,
    ensures
        0 <= share_of(total, n, false) <= share_of(total, n, true) <= total,
        total == n * (total / n) + total % n,
{
    lemma_fundamental_div_mod(total, n);
    lemma_div_pos_is_pos(total, n);
    lemma_mod_bound(total, n);
    let q = total / n;
    assert(n * q >= q) by (nonlinear_arith)
        requires
            n >= 1,
            q >= 0,
    ;
}

/// The nearest index is in range.
pub proof fn lemma_nearest_in_range(s: Seq<Frame>, c: Frame, n: int)
    requires
        1 <= n <= s.len(),
    ensures
        0 <= nearest_upto(s, c, n) < n,
    decreases n,
{
    if n > 1 {
        lemma_nearest_in_range(s, c, n - 1);
    }
}

/// A frame adjacent to `c`, grown towards it by no more than the extent of
/// `c`, still fits.
pub proof fn lemma_grown_fits(f: Frame, c: Frame, axis: Axis, add: int)
    requires
        f.fits(),
        c.fits(),
        adjacent(f, c, axis),
        0 <= add <= extent(c, axis),
    ensures
        grown_towards(f, c, axis, add).fits(),
        grown_towards(f, c, axis, add).right() == if axis == Axis::Horizontal && f.x <= c.x {
            f.right() + add
        } else {
            f.right()
        },
        grown_towards(f, c, axis, add).bottom() == if axis == Axis::Vertical && f.y <= c.y {
            f.bottom() + add
        } else {
            f.bottom()
        },
{
}

/// The frames that are left still fit once they have made use of the room
/// of the closed frame.
pub proof fn lemma_reflowed_fits(s: Seq<Frame>, c: Frame)
    requires
        all_fit(s),
        c.fits(),
    ensures
        all_fit(reflowed(s, c)),
        reflowed(s, c).len() == s.len(),
{
    let t = reflowed(s, c);
    lemma_count_adjacent_sign(s, c, Axis::Horizontal);
    lemma_count_adjacent_sign(s, c, Axis::Vertical);
    if count_adjacent(s, c, Axis::Horizontal) > 0 || count_adjacent(s, c, Axis::Vertical) > 0 {
        let axis = if count_adjacent(s, c, Axis::Horizontal) > 0 {
            Axis::Horizontal
        } else {
            Axis::Vertical
        };
        let n = count_adjacent(s, c, axis) as int;
        lemma_share_bounds(extent(c, axis), n);
        assert forall|i: int| 0 <= i < t.len() implies (#[trigger] t[i]).fits() by {
            assert(s[i].fits());
            if adjacent(s[i], c, axis) {
                lemma_grown_fits(
                    s[i],
                    c,
                    axis,
                    share_of(extent(c, axis), n, i == first_adjacent(s, c, axis)),
                );
            }
        }
    } else if s.len() > 0 {
        lemma_nearest_in_range(s, c, s.len() as int);
        let k = nearest(s, c);
        assert(s[k].fits());
        assert forall|i: int| 0 <= i < t.len() implies (#[trigger] t[i]).fits() by {
            assert(s[i].fits());
        }
    }
}

/// Whether `f` shares a whole edge with `c` across the axis.
fn is_adjacent(f: Frame, c: Frame, axis: Axis) -> (b: bool)
    requires
        f.fits(),
        c.fits(),
    ensures
        b == adjacent(f, c, axis),
{
    match axis {
        Axis::Horizontal => f.y == c.y && f.height == c.height && (f.x + f.width == c.x || c.x
            + c.width == f.x),
        Axis::Vertical => f.x == c.x && f.width == c.width && (f.y + f.height == c.y || c.y
            + c.height == f.y),
    }
}

/// Counts the frames adjacent to `closed` across the axis.
fn count_adjacent_frames(frames: &Vec<Frame>, closed: Frame, axis: Axis) -> (n: usize)
    requires
        all_fit(frames@),
        closed.fits(),
    ensures
        n == count_adjacent(frames@, closed, axis),
        n <= frames.len(),
{
    let mut n: usize = 0;
    let mut j: usize = 0;
    while j < frames.len()
        invariant
            j <= frames.len(),
            all_fit(frames@),
            closed.fits(),
            n <= j,
            n == count_adjacent(frames@.take(j as int), closed, axis),
        decreases frames.len() - j,
    {
        proof {
            assert(frames@[j as int].fits());
            assert(frames@.take(j + 1).drop_last() =~= frames@.take(j as int));
        }
        if is_adjacent(frames[j], closed, axis) {
            n += 1;
        }
        j += 1;
    }
    proof {
        assert(frames@.take(frames.len() as int) =~= frames@);
    }
    n
}

/// Shares the extent of `closed` out among the `n` frames adjacent to it
/// across the axis.
fn expand_adjacent(frames: &mut Vec<Frame>, closed: Frame, axis: Axis, n: usize)
    requires
        all_fit(old(frames)@),
        closed.fits(),
        n == count_adjacent(old(frames)@, closed, axis),
        n > 0,
    ensures
        final(frames)@ == expanded(old(frames)@, closed, axis),
        all_fit(final(frames)@),
{
    let ghost given = frames@;
    let total = match axis {
        Axis::Horizontal => closed.width,
        Axis::Vertical => closed.height,
    };
    let share: i32;
    let remainder: i32;
    if n > i32::MAX as usize {
        share = 0;
        remainder = total;
        proof {
            lemma_basic_div(total as int, n as int);
            lemma_small_mod(total as nat, n as nat);
        }
    } else {
        share = total / (n as i32);
        remainder = total % (n as i32);
    }
    proof {
        lemma_share_bounds(total as int, n as int);
    }
    let mut first = true;
    let mut j: usize = 0;
    while j < frames.len()
        invariant
            j <= frames.len(),
            frames.len() == given.len(),
            all_fit(given),
            closed.fits(),
            total == extent(closed, axis),
            n == count_adjacent(given, closed, axis),
            n > 0,
            share == total as int / n as int,
            remainder == total as int % (n as int),
            0 <= share <= share + remainder <= total,
            first ==> first_adjacent(given, closed, axis) == first_adjacent_from(
                given,
                closed,
                axis,
                j as int,
            ),
            !first ==> first_adjacent(given, closed, axis) < j,
            forall|k: int| 0 <= k < j ==> frames@[k] == expanded_one(given, closed, axis, k),
            forall|k: int| j <= k < frames.len() ==> frames@[k] == given[k],
            forall|k: int| 0 <= k < frames.len() ==> (#[trigger] frames@[k]).fits(),
        decreases frames.len() - j,
    {
        let f = frames[j];
        assert(given[j as int].fits());
        if is_adjacent(f, closed, axis) {
            let add = if first { share + remainder } else { share };
            proof {
                lemma_grown_fits(f, closed, axis, add as int);
            }
            first = false;
            match axis {
                Axis::Horizontal => {
                    if f.x > closed.x {
                        frames[j].x = f.x - add;
                    }
                    frames[j].width = f.width + add;
                },
                Axis::Vertical => {
                    if f.y > closed.y {
                        frames[j].y = f.y - add;
                    }
                    frames[j].height = f.height + add;
                },
            }
            assert(frames@[j as int] == grown_towards(f, closed, axis, add as int));
        }
        j += 1;
    }
    proof {
        assert(frames@ =~= expanded(given, closed, axis));
    }
}

/// The squared distance between the centers of `f` and `c`.
fn center_distance_of(f: Frame, c: Frame) -> (d: i64)
    requires
        f.fits(),
        c.fits(),
    ensures
        d == center_distance(f, c),
{
    let dx: i64 = (f.x + f.width / 2) as i64 - (c.x + c.width / 2) as i64;
    let dy: i64 = (f.y + f.height / 2) as i64 - (c.y + c.height / 2) as i64;
    proof {
        assert(dx * dx <= 0x4000_0000_0000_0000 && dx * dx >= 0) by (nonlinear_arith)
            requires
                -0x8000_0000 <= dx <= 0x8000_0000,
        ;
        assert(dy * dy < 0x4000_0000_0000_0000 && dy * dy >= 0) by (nonlinear_arith)
            requires
                -0x8000_0000 < dy < 0x8000_0000,
        ;
    }
    dx * dx + dy * dy
}

/// The index of the frame whose center is nearest to that of `closed`.
fn nearest_frame(frames: &Vec<Frame>, closed: Frame) -> (k: usize)
    requires
        frames.len() > 0,
        all_fit(frames@),
        closed.fits(),
    ensures
        k == nearest(frames@, closed),
        k < frames.len(),
{
    assert(frames@[0].fits());
    let mut best: usize = 0;
    let mut least: i64 = center_distance_of(frames[0], closed);
    let mut j: usize = 1;
    while j < frames.len()
        invariant
            1 <= j <= frames.len(),
            all_fit(frames@),
            closed.fits(),
            best < j,
            best == nearest_upto(frames@, closed, j as int),
            least == center_distance(frames@[best as int], closed),
        decreases frames.len() - j,
    {
        assert(frames@[j as int].fits());
        let distance = center_distance_of(frames[j], closed);
        if distance < least {
            least = distance;
            best = j;
        }
        j += 1;
    }
    best
}

/// The bounding box of `f` and `c`.
fn hull_of(f: Frame, c: Frame) -> (b: Frame)
    requires
        f.fits(),
        c.fits(),
    ensures
        b == hull(f, c),
        b.fits(),
{
    let left = if f.x < c.x { f.x } else { c.x };
    let top = if f.y < c.y { f.y } else { c.y };
    let right = if f.x + f.width > c.x + c.width { f.x + f.width } else { c.x + c.width };
    let bottom = if f.y + f.height > c.y + c.height { f.y + f.height } else { c.y + c.height };
    Frame { x: left, y: top, width: right - left, height: bottom - top }
}

/// Lets the frames that are left make use of the room of the frame `closed`.
pub fn reflow_frames(frames: &mut Vec<Frame>, closed: Frame)
    requires
        all_fit(old(frames)@),
        closed.fits(),
    ensures
        final(frames)@ == reflowed(old(frames)@, closed),
        all_fit(final(frames)@),
        final(frames).len() == old(frames).len(),
{
    let beside = count_adjacent_frames(frames, closed, Axis::Horizontal);
    if beside > 0 {
        expand_adjacent(frames, closed, Axis::Horizontal, beside);
    } else {
        let above_or_below = count_adjacent_frames(frames, closed, Axis::Vertical);
        if above_or_below > 0 {
            expand_adjacent(frames, closed, Axis::Vertical, above_or_below);
        } else if frames.len() > 0 {
            let k = nearest_frame(frames, closed);
            assert(frames@[k as int].fits());
            let grown = hull_of(frames[k], closed);
            frames[k] = grown;
        }
    }
}

} // verus!
