use tiling_layout::frame::Frame;
use tiling_layout::repair::repair_frames;

fn frame(x: i32, y: i32, width: i32, height: i32) -> Frame {
    Frame { x, y, width, height }
}

fn repaired(mut frames: Vec<Frame>, width: i32, height: i32) -> Vec<Frame> {
    repair_frames(&mut frames, width, height);
    frames
}

#[test]
fn repair_of_no_frames_is_no_frames() {
    assert_eq!(repaired(vec![], 100, 100), vec![]);
}

#[test]
fn repair_stretches_a_lone_short_frame_to_both_edges() {
    assert_eq!(repaired(vec![frame(0, 0, 90, 90)], 100, 100), vec![frame(0, 0, 100, 100)]);
}

#[test]
fn repair_stretches_the_rightmost_frame_only() {
    assert_eq!(
        repaired(vec![frame(0, 0, 50, 100), frame(50, 0, 40, 100)], 100, 100),
        vec![frame(0, 0, 50, 100), frame(50, 0, 50, 100)]
    );
}

#[test]
fn repair_stretches_every_frame_at_the_bottommost_edge() {
    assert_eq!(
        repaired(vec![frame(0, 0, 50, 90), frame(50, 0, 50, 90)], 100, 100),
        vec![frame(0, 0, 50, 100), frame(50, 0, 50, 100)]
    );
}

#[test]
fn repair_leaves_a_tiling_alone() {
    let tiling = vec![
        frame(0, 0, 50, 50),
        frame(50, 0, 50, 50),
        frame(0, 50, 100, 50),
    ];
    assert_eq!(repaired(tiling.clone(), 100, 100), tiling);
}

#[test]
fn repair_widens_a_frame_with_nothing_beginning_at_its_right_edge() {
    // Column 40 to 50 is a gap; the frame left of it grows to the canvas
    // edge, over the frame on the right.
    assert_eq!(
        repaired(vec![frame(0, 0, 40, 100), frame(50, 0, 50, 100)], 100, 100),
        vec![frame(0, 0, 100, 100), frame(50, 0, 50, 100)]
    );
}

#[test]
fn repair_heightens_a_frame_with_nothing_beginning_at_its_bottom_edge() {
    assert_eq!(
        repaired(
            vec![frame(0, 0, 50, 50), frame(50, 0, 50, 40), frame(0, 50, 100, 50)],
            100,
            100
        ),
        vec![frame(0, 0, 50, 50), frame(50, 0, 50, 100), frame(0, 50, 100, 50)]
    );
}

#[test]
fn repair_does_not_widen_a_frame_with_a_neighbour_level_with_it() {
    // The second frame begins where the first ends and spans its top row.
    assert_eq!(
        repaired(vec![frame(0, 10, 50, 90), frame(50, 0, 50, 100)], 100, 100),
        vec![frame(0, 10, 50, 90), frame(50, 0, 50, 100)]
    );
}

#[test]
fn repair_widens_a_frame_whose_neighbour_lies_above_it() {
    // The second frame begins where the first ends but ends above its top
    // row, so it is no neighbour. Once the first frame is widened, the
    // second has it below and stays as it is.
    assert_eq!(
        repaired(
            vec![frame(0, 50, 50, 50), frame(50, 0, 50, 50), frame(0, 0, 50, 50)],
            100,
            100
        ),
        vec![frame(0, 50, 100, 50), frame(50, 0, 50, 50), frame(0, 0, 50, 50)]
    );
}

#[test]
fn repair_never_shrinks_a_frame_beyond_the_canvas() {
    assert_eq!(repaired(vec![frame(0, 0, 120, 130)], 100, 100), vec![frame(0, 0, 120, 130)]);
}

#[test]
fn repair_widens_before_it_heightens_in_each_round() {
    // Frame 0 is open to the right and below. It is widened first; being
    // as wide as the canvas, it then has frame 1 below it.
    assert_eq!(
        repaired(vec![frame(0, 0, 40, 50), frame(50, 50, 50, 50)], 100, 100),
        vec![frame(0, 0, 100, 50), frame(50, 50, 50, 50)]
    );
}
