//! The gap-repair pass: frames are stretched towards the right and bottom
//! canvas edges until none of them is left short of an edge without another
//! frame beginning where it ends.
//!
//! The pass only ever widens or heightens frames. It never moves or shrinks
//! one, so it closes gaps and leaves overlaps as they are.

use vstd::prelude::*;
use crate::frame::{Frame, max_int};

verus! {

/// Every frame of the sequence has representable, non-negative geometry.
pub open spec fn all_fit(s: Seq<Frame>) -> bool {
    forall|i: int| 0 <= i < s.len() ==> (#[trigger] s[i]).fits()
}

/// The largest right edge among the frames; zero for no frames.
pub open spec fn max_right(s: Seq<Frame>) -> int
    decreases s.len(),
{
    if s.len() == 0 {
        0
    } else {
        max_int(max_right(s.drop_last()), s.last().right())
    }
}

/// The largest bottom edge among the frames; zero for no frames.
pub open spec fn max_bottom(s: Seq<Frame>) -> int
    decreases s.len(),
{
    if s.len() == 0 {
        0
    } else {
        max_int(max_bottom(s.drop_last()), s.last().bottom())
    }
}

/// What the first step of the pass makes of one frame: if its right edge is
/// `rightmost` and short of column `w`, it is widened to reach `w`; likewise
/// downwards with `bottommost` and row `h`.
pub open spec fn stretch_one(f: Frame, rightmost: int, bottommost: int, w: int, h: int) -> Frame {
    let f1 = if f.right() == rightmost && f.right() < w { f.with_right(w) } else { f };
    if f.bottom() == bottommost && f.bottom() < h { f1.with_bottom(h) } else { f1 }
}

/// The first step of the pass: the frames whose right edge is the rightmost
/// of all reach the right canvas edge, and those whose bottom edge is the
/// bottommost of all reach the bottom canvas edge.
pub open spec fn stretch_outermost(s: Seq<Frame>, w: int, h: int) -> Seq<Frame> {
    Seq::new(s.len(), |i: int| stretch_one(s[i], max_right(s), max_bottom(s), w, h))
}

/// `o` begins in the column where `f` ends, and their vertical extents meet.
pub open spec fn abuts_right(f: Frame, o: Frame) -> bool {
    &&& o.x == f.right()
    &&& (o.y <= f.y && o.bottom() > f.y) || (f.y <= o.y && f.bottom() > o.y)
}

/// `o` begins in the row where `f` ends, and their horizontal extents meet.
pub open spec fn abuts_below(f: Frame, o: Frame) -> bool {
    &&& o.y == f.bottom()
    &&& (o.x <= f.x && o.right() > f.x) || (f.x <= o.x && f.right() > o.x)
}

/// Some other frame of `s` abuts frame `i` on its right.
pub open spec fn has_right_neighbor(s: Seq<Frame>, i: int) -> bool {
    exists|j: int| 0 <= j < s.len() && j != i && #[trigger] abuts_right(s[i], s[j])
}

/// Some other frame of `s` abuts frame `i` below.
pub open spec fn has_below_neighbor(s: Seq<Frame>, i: int) -> bool {
    exists|j: int| 0 <= j < s.len() && j != i && #[trigger] abuts_below(s[i], s[j])
}

/// Frame `i` ends short of column `w` and nothing abuts it on the right.
pub open spec fn open_right(s: Seq<Frame>, w: int, i: int) -> bool {
    s[i].right() < w && !has_right_neighbor(s, i)
}

/// Frame `i` ends short of row `h` and nothing abuts it below.
pub open spec fn open_below(s: Seq<Frame>, h: int, i: int) -> bool {
    s[i].bottom() < h && !has_below_neighbor(s, i)
}

/// The least index from `k` on whose frame is open to the right, or the
/// length of `s` if there is none.
pub open spec fn first_open_right_from(s: Seq<Frame>, w: int, k: int) -> int
    decreases s.len() - k,
{
    if k >= s.len() {
        s.len() as int
    } else if open_right(s, w, k) {
        k
    } else {
        first_open_right_from(s, w, k + 1)
    }
}

/// The least index from `k` on whose frame is open below, or the length of
/// `s` if there is none.
pub open spec fn first_open_below_from(s: Seq<Frame>, h: int, k: int) -> int
    decreases s.len() - k,
{
    if k >= s.len() {
        s.len() as int
    } else if open_below(s, h, k) {
        k
    } else {
        first_open_below_from(s, h, k + 1)
    }
}

/// The first frame in sequence order that is open to the right, if any.
pub open spec fn first_open_right(s: Seq<Frame>, w: int) -> int {
    first_open_right_from(s, w, 0)
}

/// The first frame in sequence order that is open below, if any.
pub open spec fn first_open_below(s: Seq<Frame>, h: int) -> int {
    first_open_below_from(s, h, 0)
}

/// The first frame that is open to the right is widened to column `w`.
pub open spec fn close_gap_right(s: Seq<Frame>, w: int) -> Seq<Frame> {
    let i = first_open_right(s, w);
    if 0 <= i < s.len() {
        s.update(i, s[i].with_right(w))
    } else {
        s
    }
}

/// The first frame that is open below is heightened to row `h`.
pub open spec fn close_gap_below(s: Seq<Frame>, h: int) -> Seq<Frame> {
    let i = first_open_below(s, h);
    if 0 <= i < s.len() {
        s.update(i, s[i].with_bottom(h))
    } else {
        s
    }
}

/// How many frames end short of column `w`.
pub open spec fn short_right(s: Seq<Frame>, w: int) -> nat
    decreases s.len(),
{
    if s.len() == 0 {
        0
    } else {
        short_right(s.drop_last(), w) + if s.last().right() < w { 1nat } else { 0nat }
    }
}

/// How many frames end short of row `h`.
pub open spec fn short_below(s: Seq<Frame>, h: int) -> nat
    decreases s.len(),
{
    if s.len() == 0 {
        0
    } else {
        short_below(s.drop_last(), h) + if s.last().bottom() < h { 1nat } else { 0nat }
    }
}

/// The canvas edges are representable and the frames fit.
pub open spec fn repairable(s: Seq<Frame>, w: int, h: int) -> bool {
    all_fit(s) && 0 <= w <= i32::MAX && 0 <= h <= i32::MAX
}

/// One round of the second step: at most one frame is widened, then at most
/// one is heightened.
pub open spec fn round(s: Seq<Frame>, w: int, h: int) -> Seq<Frame> {
    close_gap_below(close_gap_right(s, w), h)
}

/// Whether a round changes anything.
pub open spec fn unsettled(s: Seq<Frame>, w: int, h: int) -> bool {
    first_open_right(s, w) < s.len() || first_open_below(close_gap_right(s, w), h) < s.len()
}

/// The second step of the pass: rounds are repeated until one changes
/// nothing.
pub open spec fn settle(s: Seq<Frame>, w: int, h: int) -> Seq<Frame>
    decreases short_right(s, w) + short_below(s, h),
    when repairable(s, w, h)
    via settle_terminates
{
    if unsettled(s, w, h) {
        settle(round(s, w, h), w, h)
    } else {
        s
    }
}

/// The whole pass on canvas `w` by `h`.
pub open spec fn repaired(s: Seq<Frame>, w: int, h: int) -> Seq<Frame> {
    settle(stretch_outermost(s, w, h), w, h)
}

/// Each round that changes something leaves fewer frames short of an edge,
/// so the rounds come to an end.
#[via_fn]
proof fn settle_terminates(s: Seq<Frame>, w: int, h: int) {
    if unsettled(s, w, h) {
        lemma_round_shrinks_shortfall(s, w, h);
    }
}

/// Replacing one frame changes the count of short frames by that frame's
/// part in it.
pub proof fn lemma_short_right_update(s: Seq<Frame>, i: int, f: Frame, w: int)
    requires
        0 <= i < s.len(),
    ensures
        short_right(s.update(i, f), w) + (if s[i].right() < w { 1int } else { 0int })
            == short_right(s, w) + (if f.right() < w { 1int } else { 0int }),
    decreases s.len(),
{
    let t = s.update(i, f);
    if i == s.len() - 1 {
        assert(t.drop_last() =~= s.drop_last());
    } else {
        assert(t.drop_last() =~= s.drop_last().update(i, f));
        lemma_short_right_update(s.drop_last(), i, f, w);
    }
}

/// Replacing one frame changes the count of short frames by that frame's
/// part in it.
pub proof fn lemma_short_below_update(s: Seq<Frame>, i: int, f: Frame, h: int)
    requires
        0 <= i < s.len(),
    ensures
        short_below(s.update(i, f), h) + (if s[i].bottom() < h { 1int } else { 0int })
            == short_below(s, h) + (if f.bottom() < h { 1int } else { 0int }),
    decreases s.len(),
{
    let t = s.update(i, f);
    if i == s.len() - 1 {
        assert(t.drop_last() =~= s.drop_last());
    } else {
        assert(t.drop_last() =~= s.drop_last().update(i, f));
        lemma_short_below_update(s.drop_last(), i, f, h);
    }
}

/// The first open index, where there is one, is in range and open, and no
/// earlier index from `k` on is open.
pub proof fn lemma_first_open_right(s: Seq<Frame>, w: int, k: int)
    requires
        0 <= k <= s.len(),
    ensures
        k <= first_open_right_from(s, w, k) <= s.len(),
        first_open_right_from(s, w, k) < s.len() ==> open_right(
            s,
            w,
            first_open_right_from(s, w, k),
        ),
        forall|m: int| k <= m < first_open_right_from(s, w, k) ==> !open_right(s, w, m),
    decreases s.len() - k,
{
    if k < s.len() && !open_right(s, w, k) {
        lemma_first_open_right(s, w, k + 1);
    }
}

/// The first open index, where there is one, is in range and open, and no
/// earlier index from `k` on is open.
pub proof fn lemma_first_open_below(s: Seq<Frame>, h: int, k: int)
    requires
        0 <= k <= s.len(),
    ensures
        k <= first_open_below_from(s, h, k) <= s.len(),
        first_open_below_from(s, h, k) < s.len() ==> open_below(
            s,
            h,
            first_open_below_from(s, h, k),
        ),
        forall|m: int| k <= m < first_open_below_from(s, h, k) ==> !open_below(s, h, m),
    decreases s.len() - k,
{
    if k < s.len() && !open_below(s, h, k) {
        lemma_first_open_below(s, h, k + 1);
    }
}

/// Widening the first open frame keeps the frames fitting, leaves one frame
/// fewer short of the right edge, and changes no bottom edge.
pub proof fn lemma_close_gap_right(s: Seq<Frame>, w: int, h: int)
    requires
        repairable(s, w, h),
    ensures
        all_fit(close_gap_right(s, w)),
        close_gap_right(s, w).len() == s.len(),
        short_below(close_gap_right(s, w), h) == short_below(s, h),
        first_open_right(s, w) < s.len() ==> short_right(close_gap_right(s, w), w) + 1
            == short_right(s, w),
        first_open_right(s, w) >= s.len() ==> close_gap_right(s, w) == s,
{
    lemma_first_open_right(s, w, 0);
    let i = first_open_right(s, w);
    if i < s.len() {
        let f = s[i].with_right(w);
        assert(s[i].fits());
        assert(f.right() == w);
        assert(f.bottom() == s[i].bottom());
        lemma_short_right_update(s, i, f, w);
        lemma_short_below_update(s, i, f, h);
    }
}

/// Heightening the first open frame keeps the frames fitting, leaves one
/// frame fewer short of the bottom edge, and changes no right edge.
pub proof fn lemma_close_gap_below(s: Seq<Frame>, w: int, h: int)
    requires
        repairable(s, w, h),
    ensures
        all_fit(close_gap_below(s, h)),
        close_gap_below(s, h).len() == s.len(),
        short_right(close_gap_below(s, h), w) == short_right(s, w),
        first_open_below(s, h) < s.len() ==> short_below(close_gap_below(s, h), h) + 1
            == short_below(s, h),
        first_open_below(s, h) >= s.len() ==> close_gap_below(s, h) == s,
{
    lemma_first_open_below(s, h, 0);
    let i = first_open_below(s, h);
    if i < s.len() {
        let f = s[i].with_bottom(h);
        assert(s[i].fits());
        assert(f.bottom() == h);
        assert(f.right() == s[i].right());
        lemma_short_right_update(s, i, f, w);
        lemma_short_below_update(s, i, f, h);
    }
}

/// A round that changes something leaves fewer frames short of an edge.
pub proof fn lemma_round_shrinks_shortfall(s: Seq<Frame>, w: int, h: int)
    requires
        repairable(s, w, h),
    ensures
        repairable(round(s, w, h), w, h),
        round(s, w, h).len() == s.len(),
        unsettled(s, w, h) ==> short_right(round(s, w, h), w) + short_below(round(s, w, h), h)
            < short_right(s, w) + short_below(s, h),
        !unsettled(s, w, h) ==> round(s, w, h) == s,
{
    lemma_close_gap_right(s, w, h);
    lemma_close_gap_below(close_gap_right(s, w), w, h);
}


/// What becomes of one frame `f` when it is stretched on the canvas of `w`
/// by `h`: `g` has the corner of `f`; its right edge is that of `f`, or the
/// right canvas edge if `f` ended short of it; and likewise its bottom edge.
pub open spec fn stretched_one(g: Frame, f: Frame, w: int, h: int) -> bool {
    &&& g.x == f.x
    &&& g.y == f.y
    &&& g.right() == f.right() || (f.right() < w && g.right() == w)
    &&& g.bottom() == f.bottom() || (f.bottom() < h && g.bottom() == h)
}

/// `t` is `s` with some frames stretched to the edges of the canvas of `w`
/// by `h`. No frame is moved, and none is shrunk.
pub open spec fn stretched_to(t: Seq<Frame>, s: Seq<Frame>, w: int, h: int) -> bool {
    &&& t.len() == s.len()
    &&& forall|i: int| 0 <= i < s.len() ==> stretched_one(#[trigger] t[i], s[i], w, h)
}

/// No frame of `s` is left short of an edge of the canvas of `w` by `h`
/// without another frame abutting it there.
pub open spec fn settled(s: Seq<Frame>, w: int, h: int) -> bool {
    forall|i: int| 0 <= i < s.len() ==> !open_right(s, w, i) && !open_below(s, h, i)
}

/// A round only stretches frames to the canvas edges.
pub proof fn lemma_round_stretches(s: Seq<Frame>, w: int, h: int)
    requires
        repairable(s, w, h),
    ensures
        stretched_to(round(s, w, h), s, w, h),
{
    lemma_close_gap_right(s, w, h);
    lemma_first_open_right(s, w, 0);
    let s1 = close_gap_right(s, w);
    lemma_close_gap_below(s1, w, h);
    lemma_first_open_below(s1, h, 0);
    let s2 = close_gap_below(s1, h);
    assert forall|i: int| 0 <= i < s.len() implies stretched_one(#[trigger] s2[i], s[i], w, h) by {
        assert(s[i].fits());
        assert(s1[i].fits());
    }
}

/// Rounds repeated until one changes nothing only stretch frames to the
/// canvas edges, and leave no frame open.
pub proof fn lemma_settle(s: Seq<Frame>, w: int, h: int)
    requires
        repairable(s, w, h),
    ensures
        stretched_to(settle(s, w, h), s, w, h),
        all_fit(settle(s, w, h)),
        settled(settle(s, w, h), w, h),
    decreases short_right(s, w) + short_below(s, h),
{
    lemma_round_shrinks_shortfall(s, w, h);
    if unsettled(s, w, h) {
        let t = round(s, w, h);
        lemma_round_stretches(s, w, h);
        lemma_settle(t, w, h);
        let u = settle(t, w, h);
        assert forall|i: int| 0 <= i < s.len() implies stretched_one(#[trigger] u[i], s[i], w, h) by {
            assert(stretched_one(t[i], s[i], w, h));
        }
    } else {
        lemma_first_open_right(s, w, 0);
        lemma_first_open_below(s, h, 0);
    }
}

/// The pass only stretches frames to the canvas edges, and it leaves no
/// frame short of a canvas edge without another frame abutting it there.
pub proof fn lemma_repaired(s: Seq<Frame>, w: int, h: int)
    requires
        repairable(s, w, h),
    ensures
        stretched_to(repaired(s, w, h), s, w, h),
        all_fit(repaired(s, w, h)),
        settled(repaired(s, w, h), w, h),
{
    let t = stretch_outermost(s, w, h);
    assert forall|i: int| 0 <= i < s.len() implies (#[trigger] t[i]).fits() && stretched_one(
        t[i],
        s[i],
        w,
        h,
    ) by {
        assert(s[i].fits());
    }
    lemma_settle(t, w, h);
    let u = settle(t, w, h);
    assert forall|i: int| 0 <= i < s.len() implies stretched_one(#[trigger] u[i], s[i], w, h) by {
        assert(stretched_one(t[i], s[i], w, h));
    }
}

/// Whether every frame fits.
pub fn frames_fit(frames: &Vec<Frame>) -> (ok: bool)
    ensures
        ok == all_fit(frames@),
{
    let mut i: usize = 0;
    while i < frames.len()
        invariant
            i <= frames.len(),
            forall|k: int| 0 <= k < i ==> (#[trigger] frames@[k]).fits(),
        decreases frames.len() - i,
    {
        if !frames[i].is_valid() {
            return false;
        }
        i += 1;
    }
    true
}

/// The rightmost right edge and the bottommost bottom edge of the frames.
fn outermost_edges(frames: &Vec<Frame>) -> (edges: (i32, i32))
    requires
        all_fit(frames@),
    ensures
        edges.0 == max_right(frames@),
        edges.1 == max_bottom(frames@),
{
    let mut rightmost: i32 = 0;
    let mut bottommost: i32 = 0;
    let mut i: usize = 0;
    while i < frames.len()
        invariant
            i <= frames.len(),
            all_fit(frames@),
            rightmost == max_right(frames@.take(i as int)),
            bottommost == max_bottom(frames@.take(i as int)),
        decreases frames.len() - i,
    {
        let f = frames[i];
        proof {
            assert(frames@[i as int].fits());
            assert(frames@.take(i + 1).drop_last() =~= frames@.take(i as int));
        }
        let right = f.x + f.width;
        let bottom = f.y + f.height;
        if right > rightmost {
            rightmost = right;
        }
        if bottom > bottommost {
            bottommost = bottom;
        }
        i += 1;
    }
    proof {
        assert(frames@.take(frames.len() as int) =~= frames@);
    }
    (rightmost, bottommost)
}

/// Whether another frame begins where frame `i` ends on the right, with a
/// vertical extent that meets its own.
fn right_neighbor_exists(frames: &Vec<Frame>, i: usize) -> (found: bool)
    requires
        i < frames.len(),
        all_fit(frames@),
    ensures
        found == has_right_neighbor(frames@, i as int),
{
    let f = frames[i];
    assert(frames@[i as int].fits());
    let right = f.x + f.width;
    let mut j: usize = 0;
    while j < frames.len()
        invariant
            j <= frames.len(),
            i < frames.len(),
            all_fit(frames@),
            f == frames@[i as int],
            right == f.right(),
            forall|k: int|
                0 <= k < j && k != i ==> !abuts_right(frames@[i as int], #[trigger] frames@[k]),
        decreases frames.len() - j,
    {
        if j != i {
            let o = frames[j];
            assert(frames@[j as int].fits());
            if o.x == right && ((o.y <= f.y && o.y + o.height > f.y) || (f.y <= o.y && f.y
                + f.height > o.y)) {
                assert(abuts_right(frames@[i as int], frames@[j as int]));
                return true;
            }
        }
        j += 1;
    }
    false
}

/// Whether another frame begins where frame `i` ends below, with a
/// horizontal extent that meets its own.
fn below_neighbor_exists(frames: &Vec<Frame>, i: usize) -> (found: bool)
    requires
        i < frames.len(),
        all_fit(frames@),
    ensures
        found == has_below_neighbor(frames@, i as int),
{
    let f = frames[i];
    assert(frames@[i as int].fits());
    let bottom = f.y + f.height;
    let mut j: usize = 0;
    while j < frames.len()
        invariant
            j <= frames.len(),
            i < frames.len(),
            all_fit(frames@),
            f == frames@[i as int],
            bottom == f.bottom(),
            forall|k: int|
                0 <= k < j && k != i ==> !abuts_below(frames@[i as int], #[trigger] frames@[k]),
        decreases frames.len() - j,
    {
        if j != i {
            let o = frames[j];
            assert(frames@[j as int].fits());
            if o.y == bottom && ((o.x <= f.x && o.x + o.width > f.x) || (f.x <= o.x && f.x
                + f.width > o.x)) {
                assert(abuts_below(frames@[i as int], frames@[j as int]));
                return true;
            }
        }
        j += 1;
    }
    false
}

/// The first frame that ends short of column `width` with nothing abutting
/// it on the right; the number of frames if there is none.
fn find_open_right(frames: &Vec<Frame>, width: i32) -> (i: usize)
    requires
        all_fit(frames@),
    ensures
        i == first_open_right(frames@, width as int),
        i <= frames.len(),
{
    let mut i: usize = 0;
    while i < frames.len()
        invariant
            i <= frames.len(),
            all_fit(frames@),
            first_open_right(frames@, width as int) == first_open_right_from(
                frames@,
                width as int,
                i as int,
            ),
        decreases frames.len() - i,
    {
        let f = frames[i];
        assert(frames@[i as int].fits());
        if f.x + f.width < width && !right_neighbor_exists(frames, i) {
            return i;
        }
        i += 1;
    }
    i
}

/// The first frame that ends short of row `height` with nothing abutting it
/// below; the number of frames if there is none.
fn find_open_below(frames: &Vec<Frame>, height: i32) -> (i: usize)
    requires
        all_fit(frames@),
    ensures
        i == first_open_below(frames@, height as int),
        i <= frames.len(),
{
    let mut i: usize = 0;
    while i < frames.len()
        invariant
            i <= frames.len(),
            all_fit(frames@),
            first_open_below(frames@, height as int) == first_open_below_from(
                frames@,
                height as int,
                i as int,
            ),
        decreases frames.len() - i,
    {
        let f = frames[i];
        assert(frames@[i as int].fits());
        if f.y + f.height < height && !below_neighbor_exists(frames, i) {
            return i;
        }
        i += 1;
    }
    i
}

/// Runs the gap-repair pass on `frames` for a canvas of `width` by `height`.
pub fn repair_frames(frames: &mut Vec<Frame>, width: i32, height: i32)
    requires
        all_fit(old(frames)@),
        width >= 0,
        height >= 0,
    ensures
        final(frames)@ == repaired(old(frames)@, width as int, height as int),
        all_fit(final(frames)@),
        final(frames).len() == old(frames).len(),
{
    let ghost w = width as int;
    let ghost h = height as int;
    let ghost given = frames@;
    let (rightmost, bottommost) = outermost_edges(frames);
    let mut i: usize = 0;
    while i < frames.len()
        invariant
            i <= frames.len(),
            frames.len() == given.len(),
            all_fit(given),
            0 <= w <= i32::MAX,
            0 <= h <= i32::MAX,
            w == width,
            h == height,
            rightmost == max_right(given),
            bottommost == max_bottom(given),
            forall|k: int|
                0 <= k < i ==> frames@[k] == stretch_one(
                    #[trigger] given[k],
                    rightmost as int,
                    bottommost as int,
                    w,
                    h,
                ),
            forall|k: int| i <= k < frames.len() ==> frames@[k] == #[trigger] given[k],
        decreases frames.len() - i,
    {
        let f = frames[i];
        assert(given[i as int].fits());
        let right = f.x + f.width;
        let bottom = f.y + f.height;
        if right == rightmost && right < width {
            frames[i].width = width - f.x;
        }
        if bottom == bottommost && bottom < height {
            frames[i].height = height - f.y;
        }
        i += 1;
    }
    let ghost stretched = frames@;
    proof {
        assert(stretched =~= stretch_outermost(given, w, h));
        assert forall|k: int| 0 <= k < stretched.len() implies (#[trigger] stretched[k]).fits() by {
            assert(given[k].fits());
        }
    }
    let mut has_gaps = true;
    while has_gaps
        invariant
            repairable(frames@, w, h),
            w == width,
            h == height,
            frames.len() == stretched.len(),
            has_gaps ==> settle(frames@, w, h) == settle(stretched, w, h),
            !has_gaps ==> frames@ == settle(stretched, w, h),
        decreases short_right(frames@, w) + short_below(frames@, h) + if has_gaps {
                1int
            } else {
                0int
            },
    {
        has_gaps = false;
        let ghost before = frames@;
        proof {
            lemma_round_shrinks_shortfall(before, w, h);
            lemma_close_gap_right(before, w, h);
            lemma_first_open_right(before, w, 0);
        }
        let i = find_open_right(frames, width);
        if i < frames.len() {
            let x = frames[i].x;
            assert(before[i as int].fits());
            frames[i].width = width - x;
            has_gaps = true;
        }
        assert(frames@ =~= close_gap_right(before, w));
        let ghost widened = frames@;
        proof {
            lemma_first_open_below(widened, h, 0);
        }
        let j = find_open_below(frames, height);
        if j < frames.len() {
            let y = frames[j].y;
            assert(widened[j as int].fits());
            frames[j].height = height - y;
            has_gaps = true;
        }
        assert(frames@ =~= round(before, w, h));
        assert(has_gaps == unsettled(before, w, h));
    }
}

} // verus!
