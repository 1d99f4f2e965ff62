//! Choosing the frame to move to from the active frame in one direction.
//!
//! A frame is a candidate if it lies wholly beyond the active frame's edge
//! in that direction. Candidates are scored by the distance between the
//! centers along the direction of travel, less half of what the two frames
//! share across it; a candidate that shares nothing is scored by both
//! distances together. The lowest score wins, and of equal scores the first
//! in sequence order. Scores are kept doubled, so that they are integers.

use vstd::prelude::*;
use crate::frame::{Direction, Frame, abs_int, max_int, min_int};
use crate::repair::all_fit;

verus! {

/// `f` lies wholly beyond the edge of `a` that faces the direction.
pub open spec fn in_direction(f: Frame, a: Frame, direction: Direction) -> bool {
    match direction {
        Direction::Up => f.bottom() <= a.y,
        Direction::Down => f.y >= a.bottom(),
        Direction::Left => f.right() <= a.x,
        Direction::Right => f.x >= a.right(),
    }
}

/// The length that the intervals from `lo1` to `hi1` and from `lo2` to
/// `hi2` have in common; zero if they are apart.
pub open spec fn shared_length(lo1: int, hi1: int, lo2: int, hi2: int) -> int {
    max_int(min_int(hi1, hi2) - max_int(lo1, lo2), 0)
}

/// Twice the score of `f` as seen from `a` in the direction.
pub open spec fn doubled_score(f: Frame, a: Frame, direction: Direction) -> int {
    let dx = abs_int(f.center_x() - a.center_x());
    let dy = abs_int(f.center_y() - a.center_y());
    let across = match direction {
        Direction::Left | Direction::Right => shared_length(
            a.y as int,
            a.bottom(),
            f.y as int,
            f.bottom(),
        ),
        Direction::Up | Direction::Down => shared_length(
            a.x as int,
            a.right(),
            f.x as int,
            f.right(),
        ),
    };
    let along = match direction {
        Direction::Left | Direction::Right => dx,
        Direction::Up | Direction::Down => dy,
    };
    if across > 0 {
        2 * along - across
    } else {
        2 * (dx + dy)
    }
}

/// Frame `j` is another frame than the active one and lies in the
/// direction.
pub open spec fn is_candidate(s: Seq<Frame>, active: int, direction: Direction, j: int) -> bool {
    j != active && in_direction(s[j], s[active], direction)
}

/// The best candidate among the first `n` frames: the one with the lowest
/// score, and of several the first. `None` if none of them is a candidate.
pub open spec fn best_upto(s: Seq<Frame>, active: int, direction: Direction, n: int) -> Option<int>
    decreases n,
{
    if n <= 0 {
        None
    } else {
        let earlier = best_upto(s, active, direction, n - 1);
        if is_candidate(s, active, direction, n - 1) && (earlier matches Some(b) ==> doubled_score(
            s[n - 1],
            s[active],
            direction,
        ) < doubled_score(s[b], s[active], direction)) {
            Some(n - 1)
        } else {
            earlier
        }
    }
}

/// The frame that becomes active: the best candidate, or the active frame
/// itself if there is no candidate.
pub open spec fn selection(s: Seq<Frame>, active: int, direction: Direction) -> int {
    match best_upto(s, active, direction, s.len() as int) {
        Some(j) => j,
        None => active,
    }
}

/// The best candidate is a candidate of the lowest score, and the first of
/// those; there is none exactly if no frame is a candidate.
pub proof fn lemma_best_upto(s: Seq<Frame>, active: int, direction: Direction, n: int)
    requires
        0 <= n <= s.len(),
    ensures
        match best_upto(s, active, direction, n) {
            Some(b) => {
                &&& 0 <= b < n
                &&& is_candidate(s, active, direction, b)
                &&& forall|k: int|
                    0 <= k < n && #[trigger] is_candidate(s, active, direction, k) ==> {
                        ||| doubled_score(s[b], s[active], direction) < doubled_score(
                            s[k],
                            s[active],
                            direction,
                        )
                        ||| doubled_score(s[b], s[active], direction) == doubled_score(
                            s[k],
                            s[active],
                            direction,
                        ) && b <= k
                    }
            },
            None => forall|k: int| 0 <= k < n ==> !#[trigger] is_candidate(s, active, direction, k),
        },
    decreases n,
{
    if n > 0 {
        lemma_best_upto(s, active, direction, n - 1);
    }
}

/// Whether `f` lies wholly beyond the edge of `a` that faces the direction.
fn lies_in_direction(f: Frame, a: Frame, direction: Direction) -> (b: bool)
    requires
        f.fits(),
        a.fits(),
    ensures
        b == in_direction(f, a, direction),
{
    match direction {
        Direction::Up => f.y + f.height <= a.y,
        Direction::Down => f.y >= a.y + a.height,
        Direction::Left => f.x + f.width <= a.x,
        Direction::Right => f.x >= a.x + a.width,
    }
}

/// The length that two intervals of frame coordinates have in common.
fn shared_length_of(lo1: i32, hi1: i32, lo2: i32, hi2: i32) -> (shared: i64)
    requires
        0 <= lo1 <= hi1,
        0 <= lo2 <= hi2,
    ensures
        shared == shared_length(lo1 as int, hi1 as int, lo2 as int, hi2 as int),
{
    let high = if hi1 < hi2 { hi1 } else { hi2 };
    let low = if lo1 > lo2 { lo1 } else { lo2 };
    if high > low {
        (high - low) as i64
    } else {
        0
    }
}

/// Twice the score of `f` as seen from `a` in the direction.
fn doubled_score_of(f: Frame, a: Frame, direction: Direction) -> (score: i64)
    requires
        f.fits(),
        a.fits(),
    ensures
        score == doubled_score(f, a, direction),
{
    let cx = (f.x + f.width / 2) as i64 - (a.x + a.width / 2) as i64;
    let cy = (f.y + f.height / 2) as i64 - (a.y + a.height / 2) as i64;
    let dx = if cx >= 0 { cx } else { -cx };
    let dy = if cy >= 0 { cy } else { -cy };
    let (along, across) = match direction {
        Direction::Left | Direction::Right => (
            dx,
            shared_length_of(a.y, a.y + a.height, f.y, f.y + f.height),
        ),
        Direction::Up | Direction::Down => (
            dy,
            shared_length_of(a.x, a.x + a.width, f.x, f.x + f.width),
        ),
    };
    if across > 0 {
        2 * along - across
    } else {
        2 * (dx + dy)
    }
}

/// The index of the frame to move to from frame `active` in the direction;
/// `active` itself if no frame lies there.
pub fn select_in_direction(frames: &Vec<Frame>, active: usize, direction: Direction) -> (chosen:
    usize)
    requires
        active < frames.len(),
        all_fit(frames@),
    ensures
        chosen == selection(frames@, active as int, direction),
        chosen < frames.len(),
{
    let a = frames[active];
    assert(frames@[active as int].fits());
    let mut best: Option<usize> = None;
    let mut best_score: i64 = 0;
    let mut j: usize = 0;
    while j < frames.len()
        invariant
            j <= frames.len(),
            active < frames.len(),
            all_fit(frames@),
            a == frames@[active as int],
            match best {
                Some(b) => best_upto(frames@, active as int, direction, j as int) == Some(b as int)
                    && b < j && best_score == doubled_score(frames@[b as int], a, direction),
                None => best_upto(frames@, active as int, direction, j as int).is_none(),
            },
        decreases frames.len() - j,
    {
        if j != active {
            let f = frames[j];
            assert(frames@[j as int].fits());
            if lies_in_direction(f, a, direction) {
                let score = doubled_score_of(f, a, direction);
                let better = match best {
                    Some(_) => score < best_score,
                    None => true,
                };
                if better {
                    best = Some(j);
                    best_score = score;
                }
            }
        }
        j += 1;
    }
    match best {
        Some(b) => b,
        None => active,
    }
}

} // verus!
