use tiling_layout::frame::Direction;
use tiling_layout::manager::FrameManager;
use tiling_layout::render::{DrawOp, Stroke};
use tiling_layout::theme::{Color, ColorTheme};

fn theme() -> ColorTheme {
    ColorTheme {
        background: Color { r: 20, g: 20, b: 50 },
        border_color: Color { r: 0, g: 0, b: 255 },
        active_frame_color: Color { r: 255, g: 128, b: 128 },
    }
}

fn op(stroke: Stroke, x: i32, y: i32, width: u32, height: u32, color: Color) -> DrawOp {
    DrawOp { stroke, x, y, width, height, color }
}

#[test]
fn draw_fills_and_outlines_each_frame_in_order() {
    let mut m = FrameManager::new(800, 600, &theme());
    m.split_horizontal();
    let t = theme();
    assert_eq!(
        m.draw(),
        vec![
            op(Stroke::Fill, 0, 0, 800, 300, t.background),
            op(Stroke::Outline, 0, 0, 800, 300, t.active_frame_color),
            op(Stroke::Fill, 0, 300, 800, 300, t.background),
            op(Stroke::Outline, 0, 300, 800, 300, t.border_color),
        ]
    );
}

#[test]
fn draw_outlines_the_active_frame_in_its_own_color() {
    let mut m = FrameManager::new(800, 600, &theme());
    m.split_horizontal();
    m.select_frame_in_direction(Direction::Down);
    let t = theme();
    let ops = m.draw();
    assert_eq!(ops.len(), 4);
    assert_eq!(ops[1], op(Stroke::Outline, 0, 0, 800, 300, t.border_color));
    assert_eq!(ops[3], op(Stroke::Outline, 0, 300, 800, 300, t.active_frame_color));
}

#[test]
fn draw_of_one_frame_is_two_operations() {
    let m = FrameManager::new(640, 480, &theme());
    let t = theme();
    assert_eq!(
        m.draw(),
        vec![
            op(Stroke::Fill, 0, 0, 640, 480, t.background),
            op(Stroke::Outline, 0, 0, 640, 480, t.active_frame_color),
        ]
    );
}
