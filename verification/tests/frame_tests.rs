use tiling_layout::frame::Frame;
use tiling_layout::repair::frames_fit;

fn frame(x: i32, y: i32, width: i32, height: i32) -> Frame {
    Frame { x, y, width, height }
}

#[test]
fn contains_takes_left_and_top_edge_in() {
    let f = frame(10, 20, 30, 40);
    assert!(f._contains(10, 20));
    assert!(f._contains(39, 59));
    assert!(f._contains(25, 40));
}

#[test]
fn contains_leaves_right_and_bottom_edge_out() {
    let f = frame(10, 20, 30, 40);
    assert!(!f._contains(40, 20));
    assert!(!f._contains(10, 60));
    assert!(!f._contains(40, 60));
    assert!(!f._contains(9, 20));
    assert!(!f._contains(10, 19));
}

#[test]
fn contains_is_false_for_an_empty_frame() {
    assert!(!frame(5, 5, 0, 10)._contains(5, 5));
    assert!(!frame(5, 5, 10, 0)._contains(5, 5));
}

#[test]
fn contains_works_next_to_the_largest_coordinate() {
    let f = frame(i32::MAX - 10, i32::MAX - 10, 10, 10);
    assert!(f._contains(i32::MAX - 1, i32::MAX - 1));
    assert!(!f._contains(i32::MAX, i32::MAX - 1));
    assert!(!f._contains(i32::MAX - 11, i32::MAX - 1));
}

#[test]
fn contains_works_with_a_far_edge_past_the_largest_coordinate() {
    let f = frame(i32::MAX - 1, 0, 10, 10);
    assert!(f._contains(i32::MAX, 0));
    assert!(!f._contains(i32::MAX - 2, 0));
}

#[test]
fn is_valid_wants_corner_and_extent_not_negative() {
    assert!(frame(0, 0, 0, 0).is_valid());
    assert!(frame(3, 4, 5, 6).is_valid());
    assert!(!frame(-1, 0, 5, 5).is_valid());
    assert!(!frame(0, -1, 5, 5).is_valid());
    assert!(!frame(0, 0, -5, 5).is_valid());
    assert!(!frame(0, 0, 5, -5).is_valid());
}

#[test]
fn is_valid_wants_far_edges_representable() {
    assert!(frame(i32::MAX - 5, 0, 5, 1).is_valid());
    assert!(!frame(i32::MAX - 5, 0, 6, 1).is_valid());
    assert!(frame(0, i32::MAX, 1, 0).is_valid());
    assert!(!frame(0, i32::MAX, 1, 1).is_valid());
}

#[test]
fn frames_fit_looks_at_every_frame() {
    assert!(frames_fit(&vec![]));
    assert!(frames_fit(&vec![frame(0, 0, 1, 1), frame(1, 1, 2, 2)]));
    assert!(!frames_fit(&vec![frame(0, 0, 1, 1), frame(1, 1, -2, 2)]));
    assert!(!frames_fit(&vec![frame(-1, 0, 1, 1), frame(1, 1, 2, 2)]));
}
