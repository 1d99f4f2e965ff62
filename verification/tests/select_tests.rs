use tiling_layout::frame::{Direction, Frame};
use tiling_layout::select::select_in_direction;

fn frame(x: i32, y: i32, width: i32, height: i32) -> Frame {
    Frame { x, y, width, height }
}

#[test]
fn selection_wants_the_whole_frame_beyond_the_edge() {
    // The second frame reaches one column into the active frame's span.
    let frames = vec![frame(0, 0, 100, 100), frame(99, 0, 100, 100)];
    assert_eq!(select_in_direction(&frames, 0, Direction::Right), 0);
    assert_eq!(select_in_direction(&frames, 1, Direction::Left), 1);
    let touching = vec![frame(0, 0, 100, 100), frame(100, 0, 100, 100)];
    assert_eq!(select_in_direction(&touching, 0, Direction::Right), 1);
    assert_eq!(select_in_direction(&touching, 1, Direction::Left), 0);
}

#[test]
fn selection_counts_half_of_what_is_shared_across() {
    // From frame 0 to the right: frame 1 is 10 away and shares 11 rows,
    // which scores 10 - 5.5; frame 2 is 9 away and shares 10 rows, which
    // scores 9 - 5. The half decides.
    let frames = vec![frame(0, 0, 10, 11), frame(10, 0, 10, 11), frame(10, 0, 8, 10)];
    assert_eq!(select_in_direction(&frames, 0, Direction::Right), 2);
    // With 10 rows shared by both, frame 1 scores 10 - 5 and frame 2
    // scores 9 - 5 still.
    let level = vec![frame(0, 0, 10, 10), frame(10, 0, 10, 10), frame(10, 0, 8, 10)];
    assert_eq!(select_in_direction(&level, 0, Direction::Right), 2);
    // With 12 rows shared, frame 1 scores 10 - 6 and wins.
    let taller = vec![frame(0, 0, 10, 12), frame(10, 0, 10, 12), frame(10, 0, 8, 10)];
    assert_eq!(select_in_direction(&taller, 0, Direction::Right), 1);
}

#[test]
fn selection_adds_both_distances_where_nothing_is_shared() {
    // Frame 1 shares no row with the active frame: it scores 60 + 100.
    // Frame 2 is further along but shares 10 rows: it scores 150 - 5.
    let frames = vec![frame(0, 0, 20, 20), frame(60, 100, 20, 20), frame(150, 10, 20, 20)];
    assert_eq!(select_in_direction(&frames, 0, Direction::Right), 2);
    // Without frame 2 the diagonal frame is the one candidate.
    let alone = vec![frame(0, 0, 20, 20), frame(60, 100, 20, 20)];
    assert_eq!(select_in_direction(&alone, 0, Direction::Right), 1);
    assert_eq!(select_in_direction(&alone, 0, Direction::Down), 1);
    assert_eq!(select_in_direction(&alone, 0, Direction::Left), 0);
    assert_eq!(select_in_direction(&alone, 0, Direction::Up), 0);
}

#[test]
fn selection_upwards_and_downwards_scores_by_shared_columns() {
    // Above the active frame: frame 1 shares 40 columns at distance 100,
    // scoring 100 - 20; frame 2 shares 100 columns at distance 130, scoring
    // 130 - 50, which ties; the first in order wins.
    let frames = vec![
        frame(0, 200, 100, 100),
        frame(60, 100, 100, 100),
        frame(0, 40, 100, 160),
    ];
    assert_eq!(select_in_direction(&frames, 0, Direction::Up), 1);
    let swapped = vec![
        frame(0, 200, 100, 100),
        frame(0, 40, 100, 160),
        frame(60, 100, 100, 100),
    ];
    assert_eq!(select_in_direction(&swapped, 0, Direction::Up), 1);
}

#[test]
fn selection_takes_centers_rounded_down() {
    // The active frame's center column is 0 + 5 / 2 = 2. Frame 1 has its
    // center at 10 + 3 / 2 = 11 and frame 2 at 10 + 2 / 2 = 11: equal
    // distances, equal shares, and the first wins.
    let frames = vec![frame(0, 0, 5, 10), frame(10, 0, 3, 10), frame(10, 0, 2, 10)];
    assert_eq!(select_in_direction(&frames, 0, Direction::Right), 1);
}

#[test]
fn selection_never_picks_the_active_frame_as_a_candidate() {
    // An empty active frame lies beyond its own edges in every direction.
    let frames = vec![frame(10, 10, 0, 0), frame(100, 100, 10, 10)];
    assert_eq!(select_in_direction(&frames, 0, Direction::Right), 1);
    assert_eq!(select_in_direction(&frames, 0, Direction::Left), 0);
}
