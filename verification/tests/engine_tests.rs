use tiling_layout::frame::{Direction, Frame};
use tiling_layout::manager::FrameManager;
use tiling_layout::theme::{Color, ColorTheme};

fn theme() -> ColorTheme {
    ColorTheme {
        background: Color { r: 20, g: 20, b: 50 },
        border_color: Color { r: 0, g: 0, b: 255 },
        active_frame_color: Color { r: 255, g: 128, b: 128 },
    }
}

fn frame(x: i32, y: i32, width: i32, height: i32) -> Frame {
    Frame { x, y, width, height }
}

/// Four frames in two rows and two columns on 800 by 600; the active one
/// is the upper right.
fn two_by_two() -> FrameManager {
    let mut m = FrameManager::new(800, 600, &theme());
    m.split_vertical();
    m.split_horizontal();
    m.select_frame_in_direction(Direction::Right);
    m.split_horizontal();
    m
}

/// A left column over the whole height and two frames stacked on the
/// right, on 800 by 600; the active one is the upper right.
fn column_and_stack() -> FrameManager {
    let mut m = FrameManager::new(800, 600, &theme());
    m.split_vertical();
    m.select_frame_in_direction(Direction::Right);
    m.split_horizontal();
    m
}

#[test]
fn new_manager_has_one_frame_over_the_canvas() {
    let m = FrameManager::new(800, 600, &theme());
    assert_eq!(m.frames(), &vec![frame(0, 0, 800, 600)]);
    assert_eq!(m.active_index(), 0);
    assert_eq!(m.window_width(), 800);
    assert_eq!(m.window_height(), 600);
    assert_eq!(m.color_theme(), theme());
    assert!(m.invariants_hold());
}

#[test]
fn split_horizontal_halves_the_height() {
    let mut m = FrameManager::new(800, 600, &theme());
    m.split_horizontal();
    assert_eq!(m.frames(), &vec![frame(0, 0, 800, 300), frame(0, 300, 800, 300)]);
    assert_eq!(m.active_index(), 0);
}

#[test]
fn split_vertical_halves_the_width() {
    let mut m = FrameManager::new(800, 600, &theme());
    m.split_vertical();
    assert_eq!(m.frames(), &vec![frame(0, 0, 400, 600), frame(400, 0, 400, 600)]);
    assert_eq!(m.active_index(), 0);
}

#[test]
fn split_of_an_odd_height_gives_the_odd_row_to_the_new_frame() {
    let mut m = FrameManager::new(800, 601, &theme());
    m.split_horizontal();
    assert_eq!(m.frames(), &vec![frame(0, 0, 800, 300), frame(0, 300, 800, 301)]);
    assert_eq!(m.active_index(), 0);
}

#[test]
fn split_of_an_odd_width_gives_the_odd_column_to_the_new_frame() {
    let mut m = FrameManager::new(801, 600, &theme());
    m.split_vertical();
    assert_eq!(m.frames(), &vec![frame(0, 0, 400, 600), frame(400, 0, 401, 600)]);
    assert_eq!(m.active_index(), 0);
}

#[test]
fn split_halves_always_make_up_the_frame() {
    for size in 1..=9u32 {
        let mut m = FrameManager::new(size, size + 100, &theme());
        m.split_vertical();
        let f = m.frames().clone();
        assert_eq!(f[0].width, size as i32 / 2);
        assert_eq!(f[1].x, f[0].x + f[0].width);
        assert_eq!(f[0].width + f[1].width, size as i32);
        m.split_horizontal();
        let g = m.frames().clone();
        assert_eq!(g[0].height, (size as i32 + 100) / 2);
        assert_eq!(g[2].y, g[0].y + g[0].height);
        assert_eq!(g[0].height + g[2].height, size as i32 + 100);
    }
}

#[test]
fn split_goes_below_the_minimum_size_without_a_guard() {
    let mut m = FrameManager::new(60, 60, &theme());
    m.split_horizontal();
    assert_eq!(m.frames(), &vec![frame(0, 0, 60, 30), frame(0, 30, 60, 30)]);
}

#[test]
fn split_appends_the_new_frame_at_the_end() {
    let m = two_by_two();
    assert_eq!(
        m.frames(),
        &vec![
            frame(0, 0, 400, 300),
            frame(400, 0, 400, 300),
            frame(0, 300, 400, 300),
            frame(400, 300, 400, 300),
        ]
    );
    assert_eq!(m.active_index(), 1);
}

#[test]
fn split_split_close_scenario() {
    let mut m = FrameManager::new(800, 600, &theme());
    m.split_horizontal();
    assert_eq!(m.frames(), &vec![frame(0, 0, 800, 300), frame(0, 300, 800, 300)]);
    assert_eq!(m.active_index(), 0);
    m.split_vertical();
    assert_eq!(
        m.frames(),
        &vec![frame(0, 0, 400, 300), frame(0, 300, 800, 300), frame(400, 0, 400, 300)]
    );
    assert_eq!(m.active_index(), 0);
    m.close_active_frame();
    assert_eq!(m.frames(), &vec![frame(0, 300, 800, 300), frame(0, 0, 800, 300)]);
    assert_eq!(m.active_index(), 0);
}

#[test]
fn close_of_the_only_frame_changes_nothing() {
    let mut m = FrameManager::new(800, 600, &theme());
    m.close_active_frame();
    assert_eq!(m.frames(), &vec![frame(0, 0, 800, 600)]);
    assert_eq!(m.active_index(), 0);
}

#[test]
fn split_then_close_gives_the_one_frame_back() {
    let mut m = FrameManager::new(800, 600, &theme());
    m.split_horizontal();
    m.close_active_frame();
    assert_eq!(m.frames(), &vec![frame(0, 0, 800, 600)]);
    assert_eq!(m.active_index(), 0);
    m.split_vertical();
    m.close_active_frame();
    assert_eq!(m.frames(), &vec![frame(0, 0, 800, 600)]);
    assert_eq!(m.active_index(), 0);
}

#[test]
fn split_then_close_of_the_new_frame_gives_the_one_frame_back() {
    let mut m = FrameManager::new(800, 600, &theme());
    m.split_horizontal();
    m.select_frame_in_direction(Direction::Down);
    assert_eq!(m.active_index(), 1);
    m.close_active_frame();
    assert_eq!(m.frames(), &vec![frame(0, 0, 800, 600)]);
    assert_eq!(m.active_index(), 0);
    m.split_vertical();
    m.select_frame_in_direction(Direction::Right);
    assert_eq!(m.active_index(), 1);
    m.close_active_frame();
    assert_eq!(m.frames(), &vec![frame(0, 0, 800, 600)]);
    assert_eq!(m.active_index(), 0);
}

#[test]
fn split_then_close_gives_an_odd_canvas_back_too() {
    let mut m = FrameManager::new(801, 601, &theme());
    m.split_horizontal();
    m.close_active_frame();
    assert_eq!(m.frames(), &vec![frame(0, 0, 801, 601)]);
    m.split_vertical();
    m.select_frame_in_direction(Direction::Right);
    m.close_active_frame();
    assert_eq!(m.frames(), &vec![frame(0, 0, 801, 601)]);
}

#[test]
fn split_then_close_on_a_canvas_of_one_unit() {
    let mut m = FrameManager::new(1, 1, &theme());
    m.split_horizontal();
    assert_eq!(m.frames(), &vec![frame(0, 0, 1, 0), frame(0, 0, 1, 1)]);
    m.close_active_frame();
    assert_eq!(m.frames(), &vec![frame(0, 0, 1, 1)]);
    m.split_vertical();
    assert_eq!(m.frames(), &vec![frame(0, 0, 0, 1), frame(0, 0, 1, 1)]);
    m.select_frame_in_direction(Direction::Right);
    assert_eq!(m.active_index(), 1);
    m.close_active_frame();
    assert_eq!(m.frames(), &vec![frame(0, 0, 1, 1)]);
}

#[test]
fn close_shares_the_width_between_both_side_neighbours() {
    let mut m = FrameManager::new(900, 600, &theme());
    m.split_vertical();
    m.select_frame_in_direction(Direction::Right);
    m.split_vertical();
    assert_eq!(
        m.frames(),
        &vec![frame(0, 0, 450, 600), frame(450, 0, 225, 600), frame(675, 0, 225, 600)]
    );
    assert_eq!(m.active_index(), 1);
    m.close_active_frame();
    // 225 shared by two: 112 each, and the odd unit to the first in order.
    assert_eq!(m.frames(), &vec![frame(0, 0, 563, 600), frame(563, 0, 337, 600)]);
    assert_eq!(m.active_index(), 1);
}

#[test]
fn close_shares_the_height_between_both_neighbours_above_and_below() {
    let mut m = FrameManager::new(600, 900, &theme());
    m.split_horizontal();
    m.select_frame_in_direction(Direction::Down);
    m.split_horizontal();
    assert_eq!(
        m.frames(),
        &vec![frame(0, 0, 600, 450), frame(0, 450, 600, 225), frame(0, 675, 600, 225)]
    );
    m.close_active_frame();
    assert_eq!(m.frames(), &vec![frame(0, 0, 600, 563), frame(0, 563, 600, 337)]);
}

#[test]
fn close_prefers_side_neighbours() {
    let mut m = two_by_two();
    m.close_active_frame();
    assert_eq!(
        m.frames(),
        &vec![frame(0, 0, 800, 300), frame(0, 300, 400, 300), frame(400, 300, 400, 300)]
    );
    assert_eq!(m.active_index(), 1);
}

#[test]
fn close_uses_neighbours_above_and_below_without_side_neighbours() {
    let mut m = column_and_stack();
    assert_eq!(
        m.frames(),
        &vec![frame(0, 0, 400, 600), frame(400, 0, 400, 300), frame(400, 300, 400, 300)]
    );
    m.close_active_frame();
    assert_eq!(m.frames(), &vec![frame(0, 0, 400, 600), frame(400, 0, 400, 600)]);
    assert_eq!(m.active_index(), 1);
}

#[test]
fn close_without_neighbours_grows_the_nearest_frame_over_the_rest() {
    let mut m = column_and_stack();
    m.select_frame_in_direction(Direction::Left);
    assert_eq!(m.active_index(), 0);
    m.close_active_frame();
    // Both frames on the right are equally near; the first grows to the
    // bounding box, which is the canvas, and so over the second.
    assert_eq!(m.frames(), &vec![frame(0, 0, 800, 600), frame(400, 300, 400, 300)]);
    assert_eq!(m.active_index(), 0);
}

#[test]
fn close_clamps_the_active_index_to_the_last_frame() {
    let mut m = FrameManager::new(800, 600, &theme());
    m.split_horizontal();
    m.select_frame_in_direction(Direction::Down);
    assert_eq!(m.active_index(), 1);
    m.close_active_frame();
    assert_eq!(m.frames().len(), 1);
    assert_eq!(m.active_index(), 0);
}

#[test]
fn delete_other_frames_leaves_one_frame_over_the_canvas() {
    let mut m = two_by_two();
    m.delete_other_frames();
    assert_eq!(m.frames(), &vec![frame(0, 0, 800, 600)]);
    assert_eq!(m.active_index(), 0);
}

#[test]
fn delete_other_frames_twice_is_as_once() {
    let mut once = two_by_two();
    once.delete_other_frames();
    let mut twice = two_by_two();
    twice.delete_other_frames();
    twice.delete_other_frames();
    assert_eq!(once.frames(), twice.frames());
    assert_eq!(once.active_index(), twice.active_index());
    assert_eq!(once.window_width(), twice.window_width());
    assert_eq!(once.window_height(), twice.window_height());
}

#[test]
fn resize_moves_the_shared_edge() {
    let mut m = FrameManager::new(800, 600, &theme());
    m.split_vertical();
    m.resize_active_frame(50, 0);
    assert_eq!(m.frames(), &vec![frame(0, 0, 450, 600), frame(450, 0, 350, 600)]);
    m.resize_active_frame(-100, 0);
    assert_eq!(m.frames(), &vec![frame(0, 0, 350, 600), frame(350, 0, 450, 600)]);
}

#[test]
fn resize_moves_the_shared_bottom_edge() {
    let mut m = FrameManager::new(800, 600, &theme());
    m.split_horizontal();
    m.resize_active_frame(0, 50);
    assert_eq!(m.frames(), &vec![frame(0, 0, 800, 350), frame(0, 350, 800, 250)]);
}

#[test]
fn resize_stops_at_the_minimum_size_of_the_neighbour() {
    let mut m = FrameManager::new(800, 600, &theme());
    m.split_vertical();
    m.resize_active_frame(351, 0);
    assert_eq!(m.frames(), &vec![frame(0, 0, 400, 600), frame(400, 0, 400, 600)]);
    m.resize_active_frame(350, 0);
    assert_eq!(m.frames(), &vec![frame(0, 0, 750, 600), frame(750, 0, 50, 600)]);
}

#[test]
fn resize_stops_at_the_minimum_size_of_the_active_frame() {
    let mut m = FrameManager::new(800, 600, &theme());
    m.split_vertical();
    m.resize_active_frame(-351, 0);
    assert_eq!(m.frames(), &vec![frame(0, 0, 400, 600), frame(400, 0, 400, 600)]);
    m.resize_active_frame(-350, 0);
    assert_eq!(m.frames(), &vec![frame(0, 0, 50, 600), frame(50, 0, 750, 600)]);
}

#[test]
fn resize_judges_the_two_axes_apart() {
    let mut m = two_by_two();
    m.select_frame_in_direction(Direction::Left);
    assert_eq!(m.active_index(), 0);
    // Along the width the neighbour would fall under the minimum; along
    // the height the move takes place.
    m.resize_active_frame(360, 20);
    assert_eq!(
        m.frames(),
        &vec![
            frame(0, 0, 400, 320),
            frame(400, 0, 400, 300),
            frame(0, 320, 400, 280),
            frame(400, 300, 400, 300),
        ]
    );
}

#[test]
fn resize_of_the_only_frame_changes_nothing() {
    let mut m = FrameManager::new(800, 600, &theme());
    m.resize_active_frame(10, 10);
    assert_eq!(m.frames(), &vec![frame(0, 0, 800, 600)]);
}

#[test]
fn resize_by_nothing_changes_nothing() {
    let mut m = two_by_two();
    let before = m.frames().clone();
    m.resize_active_frame(0, 0);
    assert_eq!(m.frames(), &before);
}

#[test]
fn resize_outwards_at_the_canvas_edge_leaves_the_canvas() {
    let mut m = FrameManager::new(800, 600, &theme());
    m.split_vertical();
    m.resize_active_frame(0, 10);
    assert_eq!(m.frames(), &vec![frame(0, 0, 400, 610), frame(400, 0, 400, 600)]);
}

#[test]
fn resize_inwards_at_the_canvas_edge_is_undone() {
    let mut m = FrameManager::new(800, 600, &theme());
    m.split_vertical();
    m.resize_active_frame(0, -10);
    assert_eq!(m.frames(), &vec![frame(0, 0, 400, 600), frame(400, 0, 400, 600)]);
    m.select_frame_in_direction(Direction::Right);
    m.resize_active_frame(-10, 0);
    assert_eq!(m.frames(), &vec![frame(0, 0, 400, 600), frame(400, 0, 400, 600)]);
}

#[test]
fn resize_inwards_at_the_bottom_edge_can_leave_a_frame_open() {
    let mut m = FrameManager::new(200, 200, &theme());
    m.split_vertical();
    m.split_horizontal();
    m.resize_active_frame(0, 20);
    assert_eq!(
        m.frames(),
        &vec![frame(0, 0, 100, 120), frame(100, 0, 100, 200), frame(0, 120, 100, 80)]
    );
    m.select_frame_in_direction(Direction::Right);
    assert_eq!(m.active_index(), 1);
    // The right frame gives up its lower half. The lower left frame began
    // level with that half: nothing begins at its right edge any more, and
    // it is widened before the right frame gets its height back.
    m.resize_active_frame(0, -100);
    assert_eq!(
        m.frames(),
        &vec![frame(0, 0, 100, 120), frame(100, 0, 100, 200), frame(0, 120, 200, 80)]
    );
}

#[test]
fn resize_inwards_at_the_bottom_edge_can_end_in_another_tiling() {
    let mut m = FrameManager::new(200, 200, &theme());
    m.split_horizontal();
    m.select_frame_in_direction(Direction::Down);
    m.split_vertical();
    m.split_horizontal();
    m.select_frame_in_direction(Direction::Right);
    assert_eq!(
        m.frames(),
        &vec![
            frame(0, 0, 200, 100),
            frame(0, 100, 100, 50),
            frame(100, 100, 100, 100),
            frame(0, 150, 100, 50),
        ]
    );
    assert_eq!(m.active_index(), 2);
    // The frame in the corner gives up its lower half, and the frame on
    // the lower left, level with that half, is widened into it.
    m.resize_active_frame(0, -50);
    assert_eq!(
        m.frames(),
        &vec![
            frame(0, 0, 200, 100),
            frame(0, 100, 100, 50),
            frame(100, 100, 100, 50),
            frame(0, 150, 200, 50),
        ]
    );
    assert!(is_tiling(m.frames(), 200, 200));
}

#[test]
fn resize_stays_in_bounds_is_false_where_an_edge_would_not_be_representable() {
    let mut m = FrameManager::new(800, 600, &theme());
    m.split_vertical();
    assert!(m.resize_stays_in_bounds(0, 10));
    assert!(m.resize_stays_in_bounds(0, i32::MAX - 600));
    assert!(!m.resize_stays_in_bounds(0, i32::MAX - 599));
    // Along the width the move does not take place, so it cannot overflow.
    assert!(m.resize_stays_in_bounds(i32::MAX, 0));
    assert!(m.resize_stays_in_bounds(i32::MIN, i32::MIN));
}

#[test]
fn resize_window_takes_the_scaled_frames_over() {
    let mut m = FrameManager::new(800, 600, &theme());
    m.split_vertical();
    m.resize_window(vec![frame(0, 0, 200, 300), frame(200, 0, 200, 300)], 400, 300);
    assert_eq!(m.frames(), &vec![frame(0, 0, 200, 300), frame(200, 0, 200, 300)]);
    assert_eq!(m.window_width(), 400);
    assert_eq!(m.window_height(), 300);
    assert_eq!(m.active_index(), 0);
}

#[test]
fn resize_window_stretches_the_outermost_frames_to_the_new_canvas() {
    let mut m = FrameManager::new(800, 600, &theme());
    m.split_vertical();
    m.resize_window(vec![frame(0, 0, 200, 299), frame(200, 0, 199, 299)], 400, 300);
    assert_eq!(m.frames(), &vec![frame(0, 0, 200, 300), frame(200, 0, 200, 300)]);
}

#[test]
fn resize_window_widens_a_frame_that_rounding_has_cut_off_from_its_neighbour() {
    let mut m = FrameManager::new(800, 600, &theme());
    m.split_vertical();
    m.resize_window(vec![frame(0, 0, 199, 300), frame(200, 0, 200, 300)], 400, 300);
    assert_eq!(m.frames(), &vec![frame(0, 0, 400, 300), frame(200, 0, 200, 300)]);
}

#[test]
fn adjust_frames_to_window_leaves_a_tiling_alone() {
    let mut m = two_by_two();
    let before = m.frames().clone();
    m.adjust_frames_to_window(800, 600);
    assert_eq!(m.frames(), &before);
}

#[test]
fn adjust_frames_to_window_stretches_to_a_larger_canvas() {
    let mut m = two_by_two();
    m.adjust_frames_to_window(1000, 700);
    assert_eq!(
        m.frames(),
        &vec![
            frame(0, 0, 400, 300),
            frame(400, 0, 600, 300),
            frame(0, 300, 400, 400),
            frame(400, 300, 600, 400),
        ]
    );
    assert_eq!(m.window_width(), 800);
    assert_eq!(m.window_height(), 600);
}

#[test]
fn select_picks_the_frame_that_shares_the_edge() {
    let mut m = two_by_two();
    m.select_frame_in_direction(Direction::Left);
    assert_eq!(m.active_index(), 0);
    m.select_frame_in_direction(Direction::Down);
    assert_eq!(m.active_index(), 2);
    m.select_frame_in_direction(Direction::Right);
    assert_eq!(m.active_index(), 3);
    m.select_frame_in_direction(Direction::Up);
    assert_eq!(m.active_index(), 1);
}

#[test]
fn select_without_a_candidate_changes_nothing() {
    let mut m = two_by_two();
    m.select_frame_in_direction(Direction::Up);
    assert_eq!(m.active_index(), 1);
    m.select_frame_in_direction(Direction::Right);
    assert_eq!(m.active_index(), 1);
}

#[test]
fn select_with_one_frame_changes_nothing() {
    let mut m = FrameManager::new(800, 600, &theme());
    m.select_frame_in_direction(Direction::Left);
    assert_eq!(m.active_index(), 0);
}

#[test]
fn select_takes_the_first_of_equal_scores() {
    let mut m = column_and_stack();
    m.select_frame_in_direction(Direction::Left);
    assert_eq!(m.active_index(), 0);
    // Both frames on the right score 400 - 300 / 2.
    m.select_frame_in_direction(Direction::Right);
    assert_eq!(m.active_index(), 1);
}

#[test]
fn select_gives_the_same_frame_for_the_same_frames() {
    let mut a = column_and_stack();
    let other_theme = ColorTheme {
        background: Color { r: 1, g: 2, b: 3 },
        border_color: Color { r: 4, g: 5, b: 6 },
        active_frame_color: Color { r: 7, g: 8, b: 9 },
    };
    let mut b = FrameManager::new(800, 600, &other_theme);
    b.split_vertical();
    b.select_frame_in_direction(Direction::Right);
    b.split_horizontal();
    assert_eq!(a.frames(), b.frames());
    for direction in [Direction::Left, Direction::Down, Direction::Up, Direction::Right] {
        a.select_frame_in_direction(direction);
        b.select_frame_in_direction(direction);
        assert_eq!(a.active_index(), b.active_index());
    }
}

fn is_tiling(frames: &[Frame], width: i32, height: i32) -> bool {
    for f in frames {
        if f.width <= 0 || f.height <= 0 || f.x < 0 || f.y < 0 {
            return false;
        }
        if f.x + f.width > width || f.y + f.height > height {
            return false;
        }
    }
    for py in 0..height {
        for px in 0..width {
            if frames.iter().filter(|f| f._contains(px, py)).count() != 1 {
                return false;
            }
        }
    }
    true
}

#[test]
fn tiling_is_kept_by_even_splits_closes_with_neighbours_and_shared_edge_resizes() {
    let mut m = FrameManager::new(400, 320, &theme());
    assert!(is_tiling(m.frames(), 400, 320));
    m.split_vertical();
    assert!(is_tiling(m.frames(), 400, 320));
    m.split_horizontal();
    assert!(is_tiling(m.frames(), 400, 320));
    m.resize_active_frame(0, 30);
    assert!(is_tiling(m.frames(), 400, 320));
    m.select_frame_in_direction(Direction::Right);
    m.split_horizontal();
    assert!(is_tiling(m.frames(), 400, 320));
    m.resize_active_frame(0, -20);
    assert!(is_tiling(m.frames(), 400, 320));
    m.close_active_frame();
    assert!(is_tiling(m.frames(), 400, 320));
    m.delete_other_frames();
    assert!(is_tiling(m.frames(), 400, 320));
}

#[test]
fn tiling_is_kept_by_splits_of_odd_sizes() {
    let mut m = FrameManager::new(101, 103, &theme());
    for _ in 0..3 {
        m.split_horizontal();
        assert!(is_tiling(m.frames(), 101, 103));
        m.split_vertical();
        assert!(is_tiling(m.frames(), 101, 103));
        m.select_frame_in_direction(Direction::Right);
    }
    assert_eq!(m.frames().len(), 7);
}

fn covers_the_canvas(frames: &[Frame], width: i32, height: i32) -> bool {
    (0..height).all(|py| (0..width).all(|px| frames.iter().any(|f| f._contains(px, py))))
}

#[test]
fn close_without_neighbours_leaves_no_gap() {
    let mut m = column_and_stack();
    m.select_frame_in_direction(Direction::Left);
    m.close_active_frame();
    assert!(covers_the_canvas(m.frames(), 800, 600));
    for f in m.frames() {
        assert!(f.x >= 0 && f.y >= 0 && f.x + f.width <= 800 && f.y + f.height <= 600);
    }
    // Three frames around a frame in the middle of the left column: none
    // shares a whole edge with it.
    let mut m = FrameManager::new(200, 300, &theme());
    m.split_vertical();
    m.split_horizontal();
    m.resize_active_frame(0, -50);
    m.select_frame_in_direction(Direction::Down);
    m.split_horizontal();
    assert_eq!(
        m.frames(),
        &vec![
            frame(0, 0, 100, 100),
            frame(100, 0, 100, 300),
            frame(0, 100, 100, 100),
            frame(0, 200, 100, 100),
        ]
    );
    m.select_frame_in_direction(Direction::Right);
    m.close_active_frame();
    assert!(covers_the_canvas(m.frames(), 200, 300));
    assert!(!is_tiling(m.frames(), 200, 300));
}

fn scaled_in_floating_point(frames: &[Frame], old: (u32, u32), new: (u32, u32)) -> Vec<Frame> {
    let width_ratio = new.0 as f32 / old.0 as f32;
    let height_ratio = new.1 as f32 / old.1 as f32;
    frames
        .iter()
        .map(|f| Frame {
            x: (f.x as f32 * width_ratio) as i32,
            y: (f.y as f32 * height_ratio) as i32,
            width: (f.width as f32 * width_ratio) as i32,
            height: (f.height as f32 * height_ratio) as i32,
        })
        .collect()
}

#[test]
fn resize_window_to_a_canvas_no_smaller_leaves_no_frame_smaller() {
    let sizes = [(800, 600), (801, 600), (801, 933), (1023, 933), (1024, 1000), (4099, 3001)];
    let mut m = two_by_two();
    m.select_frame_in_direction(Direction::Left);
    m.resize_active_frame(0, 37);
    for (width, height) in sizes {
        let before = m.frames().clone();
        assert!(before.iter().all(|f| f.width >= 50 && f.height >= 50));
        let old = (m.window_width(), m.window_height());
        let scaled = scaled_in_floating_point(&before, old, (width, height));
        m.resize_window(scaled, width, height);
        for (after, was) in m.frames().iter().zip(before.iter()) {
            assert!(after.width >= was.width && after.height >= was.height);
            assert!(after.width >= 50 && after.height >= 50);
        }
        assert_eq!((m.window_width(), m.window_height()), (width, height));
    }
}

#[test]
fn tiling_is_lost_by_a_close_without_neighbours() {
    let mut m = column_and_stack();
    m.select_frame_in_direction(Direction::Left);
    m.close_active_frame();
    assert!(!is_tiling(m.frames(), 800, 600));
}

#[test]
fn tiling_is_lost_by_a_resize_of_an_edge_shared_with_a_wider_frame() {
    let mut m = FrameManager::new(400, 400, &theme());
    m.split_horizontal();
    m.split_vertical();
    assert_eq!(
        m.frames(),
        &vec![frame(0, 0, 200, 200), frame(0, 200, 400, 200), frame(200, 0, 200, 200)]
    );
    // The frame below is wider than the active frame; its top edge moves
    // along, and away from the frame beside the active one.
    m.resize_active_frame(0, 20);
    assert!(!is_tiling(m.frames(), 400, 400));
}

#[test]
fn tiling_is_lost_by_a_resize_of_both_edges_at_once() {
    let mut m = two_by_two();
    m.select_frame_in_direction(Direction::Left);
    m.resize_active_frame(20, 20);
    assert_eq!(
        m.frames(),
        &vec![
            frame(0, 0, 420, 320),
            frame(420, 0, 380, 300),
            frame(0, 320, 400, 280),
            frame(400, 300, 400, 300),
        ]
    );
    assert!(!is_tiling(m.frames(), 800, 600));
}

#[test]
fn tiling_is_kept_by_a_resize_of_both_edges_where_a_neighbour_reaches_as_far() {
    let mut m = FrameManager::new(200, 200, &theme());
    m.split_vertical();
    m.split_horizontal();
    m.select_frame_in_direction(Direction::Right);
    m.split_horizontal();
    m.resize_active_frame(0, 50);
    m.select_frame_in_direction(Direction::Left);
    assert_eq!(
        m.frames(),
        &vec![
            frame(0, 0, 100, 100),
            frame(100, 0, 100, 150),
            frame(0, 100, 100, 100),
            frame(100, 150, 100, 50),
        ]
    );
    assert_eq!(m.active_index(), 0);
    // The frame on the right reaches 50 rows below the active frame. The
    // active frame grows by just these rows, and to the right.
    m.resize_active_frame(10, 50);
    assert_eq!(
        m.frames(),
        &vec![
            frame(0, 0, 110, 150),
            frame(110, 0, 90, 150),
            frame(0, 150, 100, 50),
            frame(100, 150, 100, 50),
        ]
    );
    assert!(is_tiling(m.frames(), 200, 200));
}

#[test]
fn minimum_size_is_kept_by_resizes() {
    let mut m = two_by_two();
    let moves = [(400, 0), (-400, 0), (0, 300), (0, -300), (250, 250), (-250, -250), (249, -251)];
    for _ in 0..3 {
        for direction in [Direction::Left, Direction::Down, Direction::Right, Direction::Up] {
            m.select_frame_in_direction(direction);
            for (dx, dy) in moves {
                assert!(m.resize_stays_in_bounds(dx, dy));
                m.resize_active_frame(dx, dy);
                for f in m.frames() {
                    assert!(f.width >= 50 && f.height >= 50);
                }
            }
        }
    }
}

#[test]
fn active_index_names_a_frame_after_every_operation() {
    let mut m = FrameManager::new(640, 480, &theme());
    let check = |m: &FrameManager| {
        assert!(m.active_index() < m.frames().len());
        assert!(m.invariants_hold());
    };
    for round in 0..4 {
        m.split_horizontal();
        check(&m);
        m.select_frame_in_direction(Direction::Down);
        check(&m);
        m.split_vertical();
        check(&m);
        m.select_frame_in_direction(Direction::Right);
        check(&m);
        if m.resize_stays_in_bounds(-5, 7) {
            m.resize_active_frame(-5, 7);
        }
        check(&m);
        if round % 2 == 1 {
            m.close_active_frame();
            check(&m);
            m.close_active_frame();
            check(&m);
        }
        m.select_frame_in_direction(Direction::Up);
        check(&m);
        m.adjust_frames_to_window(640, 480);
        check(&m);
    }
    while m.frames().len() > 1 {
        m.select_frame_in_direction(Direction::Left);
        m.close_active_frame();
        check(&m);
    }
    m.delete_other_frames();
    check(&m);
}
