use tiling_layout::frame::Direction;
use tiling_layout::input::{Command, InputEvent, InputState, Key, Reaction};

fn down(key: Key) -> InputEvent {
    InputEvent::KeyDown(key)
}

fn up(key: Key) -> InputEvent {
    InputEvent::KeyUp(key)
}

#[test]
fn input_starts_idle() {
    let s = InputState::new();
    assert_eq!(
        s,
        InputState { resizing: false, select_pending: false, resize_dx: 0, resize_dy: 0 }
    );
}

#[test]
fn input_turns_the_plain_keys_into_commands() {
    let mut s = InputState::new();
    assert_eq!(s.on_event(down(Key::SplitHorizontal)), Reaction::Issue(Command::SplitHorizontal));
    assert_eq!(s.on_event(down(Key::SplitVertical)), Reaction::Issue(Command::SplitVertical));
    assert_eq!(s.on_event(down(Key::Close)), Reaction::Issue(Command::CloseActive));
    assert_eq!(s.on_event(down(Key::KeepOnly)), Reaction::Issue(Command::KeepActiveOnly));
    assert_eq!(s, InputState::new());
}

#[test]
fn input_passes_quit_and_window_size_on() {
    let mut s = InputState::new();
    assert_eq!(s.on_event(InputEvent::Quit), Reaction::Quit);
    assert_eq!(
        s.on_event(InputEvent::WindowResized { width: 1024, height: 768 }),
        Reaction::Issue(Command::CanvasResized(1024, 768))
    );
    assert_eq!(s, InputState::new());
}

#[test]
fn input_ignores_arrows_when_idle() {
    let mut s = InputState::new();
    assert_eq!(s.on_event(down(Key::Arrow(Direction::Up))), Reaction::Ignore);
    assert_eq!(s, InputState::new());
    assert_eq!(s.on_tick(), None);
}

#[test]
fn input_gathers_arrows_while_the_modifier_is_held() {
    let mut s = InputState::new();
    assert_eq!(s.on_event(down(Key::Modifier)), Reaction::Ignore);
    assert!(s.resizing);
    assert_eq!(s.on_event(down(Key::Arrow(Direction::Right))), Reaction::Ignore);
    assert_eq!(s.on_event(down(Key::Arrow(Direction::Right))), Reaction::Ignore);
    assert_eq!(s.on_event(down(Key::Arrow(Direction::Left))), Reaction::Ignore);
    assert_eq!(s.on_event(down(Key::Arrow(Direction::Up))), Reaction::Ignore);
    assert_eq!(s.on_event(down(Key::Arrow(Direction::Down))), Reaction::Ignore);
    assert_eq!(s.on_event(down(Key::Arrow(Direction::Down))), Reaction::Ignore);
    assert_eq!(s.on_event(down(Key::Arrow(Direction::Down))), Reaction::Ignore);
    assert_eq!(s.resize_dx, 10);
    assert_eq!(s.resize_dy, 20);
    assert_eq!(s.on_tick(), Some(Command::ResizeActiveBy(10, 20)));
    assert_eq!(s.resize_dx, 0);
    assert_eq!(s.resize_dy, 0);
    assert_eq!(s.on_tick(), Some(Command::ResizeActiveBy(0, 0)));
}

#[test]
fn input_selects_with_the_first_arrow_after_the_modifier_was_let_go() {
    let mut s = InputState::new();
    s.on_event(down(Key::Modifier));
    assert_eq!(s.on_event(up(Key::Modifier)), Reaction::Ignore);
    assert!(!s.resizing);
    assert!(s.select_pending);
    assert_eq!(
        s.on_event(down(Key::Arrow(Direction::Left))),
        Reaction::Issue(Command::SelectDirection(Direction::Left))
    );
    assert!(!s.select_pending);
    assert_eq!(s.on_event(down(Key::Arrow(Direction::Left))), Reaction::Ignore);
}

#[test]
fn input_ends_the_wait_for_a_selection_on_any_other_event() {
    for event in [
        down(Key::Other),
        down(Key::SplitHorizontal),
        down(Key::SplitVertical),
        down(Key::Close),
        down(Key::KeepOnly),
        down(Key::Modifier),
        up(Key::Other),
        up(Key::Arrow(Direction::Up)),
        up(Key::Close),
        InputEvent::Other,
    ] {
        let mut s = InputState::new();
        s.on_event(down(Key::Modifier));
        s.on_event(up(Key::Modifier));
        s.on_event(event);
        assert!(!s.select_pending);
        assert_eq!(s.on_event(down(Key::Arrow(Direction::Up))), Reaction::Ignore);
    }
}

#[test]
fn input_still_issues_the_command_of_a_key_that_ends_the_wait() {
    let mut s = InputState::new();
    s.on_event(down(Key::Modifier));
    s.on_event(up(Key::Modifier));
    assert_eq!(s.on_event(down(Key::Close)), Reaction::Issue(Command::CloseActive));
    assert!(!s.select_pending);
}

#[test]
fn input_keeps_the_wait_for_a_selection_over_a_new_window_size() {
    let mut s = InputState::new();
    s.on_event(down(Key::Modifier));
    s.on_event(up(Key::Modifier));
    s.on_event(InputEvent::WindowResized { width: 10, height: 10 });
    assert!(s.select_pending);
    assert_eq!(
        s.on_event(down(Key::Arrow(Direction::Down))),
        Reaction::Issue(Command::SelectDirection(Direction::Down))
    );
}

#[test]
fn input_gathers_at_once_when_the_modifier_is_held_again() {
    let mut s = InputState::new();
    s.on_event(down(Key::Modifier));
    s.on_event(up(Key::Modifier));
    s.on_event(down(Key::Modifier));
    assert!(s.resizing && !s.select_pending);
    assert_eq!(s.on_event(down(Key::Arrow(Direction::Right))), Reaction::Ignore);
    assert_eq!(s.resize_dx, 10);
}

#[test]
fn input_selects_before_it_gathers_where_both_are_set() {
    let mut s = InputState { resizing: true, select_pending: true, resize_dx: 0, resize_dy: 0 };
    assert_eq!(
        s.on_event(down(Key::Arrow(Direction::Right))),
        Reaction::Issue(Command::SelectDirection(Direction::Right))
    );
    assert_eq!(s.resize_dx, 0);
    assert_eq!(s.on_event(down(Key::Arrow(Direction::Right))), Reaction::Ignore);
    assert_eq!(s.resize_dx, 10);
}

#[test]
fn input_keeps_what_was_gathered_when_the_modifier_is_let_go_before_the_tick() {
    let mut s = InputState::new();
    s.on_event(down(Key::Modifier));
    s.on_event(down(Key::Arrow(Direction::Up)));
    s.on_event(up(Key::Modifier));
    assert_eq!(s.on_tick(), None);
    assert_eq!(s.resize_dy, -10);
    s.on_event(down(Key::Modifier));
    assert_eq!(s.on_tick(), Some(Command::ResizeActiveBy(0, -10)));
}

#[test]
fn input_can_accept_is_false_where_the_gathered_resize_would_overflow() {
    let full = InputState {
        resizing: true,
        select_pending: false,
        resize_dx: i32::MAX - 9,
        resize_dy: i32::MIN + 9,
    };
    assert!(!full.can_accept(down(Key::Arrow(Direction::Right))));
    assert!(full.can_accept(down(Key::Arrow(Direction::Left))));
    assert!(!full.can_accept(down(Key::Arrow(Direction::Up))));
    assert!(full.can_accept(down(Key::Arrow(Direction::Down))));
    assert!(full.can_accept(down(Key::Other)));
    let waiting = InputState { select_pending: true, ..full };
    assert!(waiting.can_accept(down(Key::Arrow(Direction::Right))));
    let idle = InputState { resizing: false, ..full };
    assert!(idle.can_accept(down(Key::Arrow(Direction::Right))));
    let room = InputState { resize_dx: i32::MAX - 10, ..full };
    assert!(room.can_accept(down(Key::Arrow(Direction::Right))));
}
