use sand_tetris::board::BoardGrid;
use sand_tetris::input::{
    desired_direction, input_system, HorizontalHoldState, InputFrame, HORIZONTAL_HOLD_INITIAL_DELAY_US,
    HORIZONTAL_HOLD_REPEAT_INTERVAL_US,
};
use sand_tetris::resources::GameStatus;

fn frame(now_us: u64) -> InputFrame {
    InputFrame {
        left_just_pressed: false,
        right_just_pressed: false,
        left_pressed: false,
        right_pressed: false,
        rotate_just_pressed: false,
        hard_drop_just_pressed: false,
        now_us,
    }
}

#[test]
fn direction_from_keys() {
    assert_eq!(desired_direction(true, true, true, true), -1);
    assert_eq!(desired_direction(false, true, true, true), 1);
    assert_eq!(desired_direction(false, false, true, false), -1);
    assert_eq!(desired_direction(false, false, false, true), 1);
    assert_eq!(desired_direction(false, false, true, true), 0);
    assert_eq!(desired_direction(false, false, false, false), 0);
}

#[test]
fn hold_moves_at_once_then_repeats() {
    assert_eq!(HORIZONTAL_HOLD_INITIAL_DELAY_US, 160_000);
    assert_eq!(HORIZONTAL_HOLD_REPEAT_INTERVAL_US, 50_000);
    let mut h = HorizontalHoldState::default();
    assert!(h.update(1, 1_000_000));
    assert_eq!(h, HorizontalHoldState { direction: 1, next_move_time_us: 1_160_000 });
    assert!(!h.update(1, 1_100_000));
    assert!(h.update(1, 1_160_000));
    assert_eq!(h.next_move_time_us, 1_210_000);
    assert!(!h.update(1, 1_200_000));
    assert!(h.update(-1, 1_200_000));
    assert_eq!(h, HorizontalHoldState { direction: -1, next_move_time_us: 1_360_000 });
    assert!(!h.update(0, 1_400_000));
    assert_eq!(h.direction, 0);
    assert!(h.update(-1, 1_400_001));
}

#[test]
fn hold_saturates_at_end_of_time() {
    let mut h = HorizontalHoldState::default();
    assert!(h.update(1, u64::MAX - 5));
    assert_eq!(h.next_move_time_us, u64::MAX);
}

#[test]
fn input_moves_rotates_and_drops() {
    let mut b = BoardGrid::new();
    let mut s = GameStatus::default();
    let mut h = HorizontalHoldState::default();
    let piece = vec![(1, 10, 10), (2, 11, 10), (3, 12, 10), (4, 13, 10)];
    let mut f = frame(0);
    f.right_just_pressed = true;
    f.right_pressed = true;
    let out = input_system(&mut b, &mut s, &mut h, &f, &piece);
    assert_eq!(out.grains, vec![(1, 11, 10), (2, 12, 10), (3, 13, 10), (4, 14, 10)]);
    assert!(out.locked.is_none());
    let mut f = frame(10);
    f.right_pressed = true;
    f.rotate_just_pressed = true;
    let out = input_system(&mut b, &mut s, &mut h, &f, &out.grains);
    assert_eq!(out.grains, vec![(1, 13, 12), (2, 13, 11), (3, 13, 10), (4, 13, 9)]);
    let mut f = frame(20);
    f.hard_drop_just_pressed = true;
    let out = input_system(&mut b, &mut s, &mut h, &f, &out.grains);
    assert_eq!(out.grains, vec![(1, 13, 3), (2, 13, 2), (3, 13, 1), (4, 13, 0)]);
    assert_eq!(out.locked, Some(vec![true, true, true, true]));
    assert_eq!(b.get(13, 0), Some(4));
    assert_eq!(b.get(13, 3), Some(1));
    assert!(!s.is_game_over);
}

#[test]
fn input_ignored_when_game_over() {
    let mut b = BoardGrid::new();
    let mut s = GameStatus { score: 0, is_game_over: true };
    let mut h = HorizontalHoldState::default();
    let piece = vec![(1, 10, 10)];
    let mut f = frame(0);
    f.left_just_pressed = true;
    f.hard_drop_just_pressed = true;
    let out = input_system(&mut b, &mut s, &mut h, &f, &piece);
    assert_eq!(out.grains, piece);
    assert!(out.locked.is_none());
    assert_eq!(h, HorizontalHoldState::default());
    assert!(b.get(10, 0).is_none());
}
