use tiling_layout::frame::Frame;
use tiling_layout::reflow::reflow_frames;
use tiling_layout::resize::{resize_fits, resize_frames};

fn frame(x: i32, y: i32, width: i32, height: i32) -> Frame {
    Frame { x, y, width, height }
}

fn reflowed(mut frames: Vec<Frame>, closed: Frame) -> Vec<Frame> {
    reflow_frames(&mut frames, closed);
    frames
}

fn resized(mut frames: Vec<Frame>, active: usize, dx: i32, dy: i32) -> Vec<Frame> {
    assert!(resize_fits(&frames, active, dx, dy));
    resize_frames(&mut frames, active, dx, dy);
    frames
}

#[test]
fn reflow_of_no_frames_is_no_frames() {
    assert_eq!(reflowed(vec![], frame(0, 0, 10, 10)), vec![]);
}

#[test]
fn reflow_gives_the_left_neighbour_the_whole_width() {
    assert_eq!(
        reflowed(vec![frame(0, 0, 30, 50)], frame(30, 0, 70, 50)),
        vec![frame(0, 0, 100, 50)]
    );
}

#[test]
fn reflow_moves_the_right_neighbour_over() {
    assert_eq!(
        reflowed(vec![frame(70, 0, 30, 50)], frame(0, 0, 70, 50)),
        vec![frame(0, 0, 100, 50)]
    );
}

#[test]
fn reflow_gives_the_remainder_to_the_first_in_order() {
    let closed = frame(30, 0, 41, 50);
    assert_eq!(
        reflowed(vec![frame(0, 0, 30, 50), frame(71, 0, 29, 50)], closed),
        vec![frame(0, 0, 51, 50), frame(51, 0, 49, 50)]
    );
    assert_eq!(
        reflowed(vec![frame(71, 0, 29, 50), frame(0, 0, 30, 50)], closed),
        vec![frame(50, 0, 50, 50), frame(0, 0, 50, 50)]
    );
}

#[test]
fn reflow_wants_the_same_rows_of_a_side_neighbour() {
    // The frame on the left is one row higher than the closed frame, so it
    // is no neighbour; the frame above is.
    assert_eq!(
        reflowed(vec![frame(0, 0, 30, 51), frame(30, 0, 70, 10)], frame(30, 10, 70, 40)),
        vec![frame(0, 0, 30, 51), frame(30, 0, 70, 50)]
    );
}

#[test]
fn reflow_moves_the_neighbour_below_up() {
    assert_eq!(
        reflowed(vec![frame(0, 60, 80, 40)], frame(0, 0, 80, 60)),
        vec![frame(0, 0, 80, 100)]
    );
}

#[test]
fn reflow_shares_among_more_than_two_neighbours() {
    // Three frames of no width lie on the closed frame's left edge. Each
    // gets a third of 100, and the first the odd unit as well.
    let edge = frame(50, 0, 0, 10);
    assert_eq!(
        reflowed(vec![edge, edge, edge], frame(50, 0, 100, 10)),
        vec![frame(50, 0, 34, 10), frame(50, 0, 33, 10), frame(50, 0, 33, 10)]
    );
}

#[test]
fn reflow_grows_the_nearest_frame_to_the_bounding_box() {
    // Centers: closed (50, 50); frame 0 (150, 25), at 100 * 100 + 25 * 25;
    // frame 1 (150, 125), at 100 * 100 + 75 * 75.
    assert_eq!(
        reflowed(
            vec![frame(100, 0, 100, 50), frame(100, 50, 100, 150)],
            frame(0, 0, 100, 100)
        ),
        vec![frame(0, 0, 200, 100), frame(100, 50, 100, 150)]
    );
    assert_eq!(
        reflowed(
            vec![frame(100, 50, 100, 150), frame(100, 0, 100, 50)],
            frame(0, 0, 100, 100)
        ),
        vec![frame(100, 50, 100, 150), frame(0, 0, 200, 100)]
    );
}

#[test]
fn reflow_compares_distances_exactly_where_they_are_large() {
    // Squared distances of 25_000_000 + 9 and 25_000_000 + 4: a rounding to
    // seven digits would take them for equal and keep the first frame.
    let closed = frame(0, 0, 2, 2);
    assert_eq!(
        reflowed(vec![frame(5000, 3, 2, 2), frame(5000, 2, 2, 2)], closed),
        vec![frame(5000, 3, 2, 2), frame(0, 0, 5002, 4)]
    );
}

#[test]
fn resize_frames_moves_every_frame_that_follows() {
    let frames = vec![
        frame(0, 0, 100, 200),
        frame(100, 0, 100, 100),
        frame(100, 100, 100, 100),
        frame(0, 200, 200, 100),
    ];
    assert_eq!(
        resized(frames.clone(), 0, 20, 0),
        vec![
            frame(0, 0, 120, 200),
            frame(120, 0, 80, 100),
            frame(120, 100, 80, 100),
            frame(0, 200, 200, 100),
        ]
    );
    assert_eq!(
        resized(frames, 0, -20, -30),
        vec![
            frame(0, 0, 80, 170),
            frame(80, 0, 120, 100),
            frame(80, 100, 120, 100),
            frame(0, 170, 200, 130),
        ]
    );
}

#[test]
fn resize_frames_leaves_a_frame_that_only_touches_a_corner() {
    let frames = vec![frame(0, 0, 100, 100), frame(100, 100, 100, 100)];
    assert_eq!(
        resized(frames, 0, 10, 10),
        vec![frame(0, 0, 110, 110), frame(100, 100, 100, 100)]
    );
}

#[test]
fn resize_frames_drops_a_move_that_one_follower_cannot_take() {
    let frames = vec![frame(0, 0, 100, 200), frame(100, 0, 100, 100), frame(100, 100, 59, 100)];
    assert_eq!(resized(frames.clone(), 0, 10, 0), frames);
    assert_eq!(
        resized(frames, 0, 9, 0),
        vec![frame(0, 0, 109, 200), frame(109, 0, 91, 100), frame(109, 100, 50, 100)]
    );
}

#[test]
fn resize_fits_is_false_where_the_right_edge_would_not_be_representable() {
    let frames = vec![frame(0, 0, 100, 100), frame(0, 100, 100, 100)];
    assert!(resize_fits(&frames, 0, i32::MAX - 100, 0));
    assert!(!resize_fits(&frames, 0, i32::MAX - 99, 0));
    assert!(!resize_fits(&frames, 0, i32::MAX, 0));
}
