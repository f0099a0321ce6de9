use sand_tetris::board::{BoardGrid, CELL_COUNT};
use sand_tetris::constants::{BOARD_HEIGHT, BOARD_WIDTH, NUM_CANDIDATES};
use sand_tetris::resources::{game_over_check_system, ClearEffect, ClearScratch, GameStatus, NextPieceQueue};

#[test]
fn board_dimensions() {
    assert_eq!(BOARD_WIDTH, 80);
    assert_eq!(BOARD_HEIGHT, 176);
    assert_eq!(CELL_COUNT, (BOARD_WIDTH * BOARD_HEIGHT) as usize);
    assert_eq!(NUM_CANDIDATES, 2);
}

#[test]
fn new_board_is_empty() {
    let b = BoardGrid::default();
    for row in 0..BOARD_HEIGHT as usize {
        for col in 0..BOARD_WIDTH as usize {
            assert_eq!(b.get(col, row), None);
            assert!(b.is_free(col as i32, row as i32));
        }
    }
}

#[test]
fn is_free_outside_the_walls_and_floor() {
    let b = BoardGrid::new();
    assert!(!b.is_free(-1, 5));
    assert!(!b.is_free(BOARD_WIDTH, 5));
    assert!(!b.is_free(5, -1));
    assert!(!b.is_free(i32::MIN, i32::MIN));
    assert!(b.is_free(0, 0));
    assert!(b.is_free(BOARD_WIDTH - 1, BOARD_HEIGHT - 1));
}

#[test]
fn is_free_above_the_board() {
    let mut b = BoardGrid::new();
    b.set(3, (BOARD_HEIGHT - 1) as usize, 9);
    assert!(b.is_free(3, BOARD_HEIGHT));
    assert!(b.is_free(3, i32::MAX));
    assert!(!b.is_free(3, BOARD_HEIGHT - 1));
}

#[test]
fn set_then_get_and_clear() {
    let mut b = BoardGrid::new();
    b.set(7, 11, 42);
    assert_eq!(b.get(7, 11), Some(42));
    assert!(!b.is_free(7, 11));
    assert!(b.is_free(8, 11));
    assert!(b.is_free(7, 12));
    b.set(7, 11, 43);
    assert_eq!(b.get(7, 11), Some(43));
    b.clear_cell(7, 11);
    assert_eq!(b.get(7, 11), None);
    assert!(b.is_free(7, 11));
}

#[test]
fn is_free_at_wide_coordinates() {
    let b = BoardGrid::new();
    assert!(!b.is_free_at(i64::from(i32::MAX) + 1, 3));
    assert!(b.is_free_at(3, i64::from(i32::MAX) + 1));
    assert!(!b.is_free_at(3, -1));
}

#[test]
fn defaults() {
    let s = GameStatus::default();
    assert_eq!(s.score, 0);
    assert!(!s.is_game_over);
    assert!(ClearEffect::default().pending.is_none());
    assert!(NextPieceQueue::default().pieces.is_empty());
    let scratch = ClearScratch::default();
    assert_eq!(scratch.visited_stamp.len(), CELL_COUNT);
    assert!(scratch.visited_stamp.iter().all(|&s| s == 0));
    assert_eq!(scratch.current_stamp, 1);
    assert!(scratch.queue.is_empty());
    assert!(scratch.component.is_empty());
}

#[test]
fn game_over_when_top_row_reached() {
    let mut b = BoardGrid::new();
    let mut s = GameStatus { score: 12, is_game_over: false };
    game_over_check_system(&mut s, &b, false);
    assert!(!s.is_game_over);
    b.set(40, (BOARD_HEIGHT - 2) as usize, 1);
    game_over_check_system(&mut s, &b, false);
    assert!(!s.is_game_over);
    b.set(79, (BOARD_HEIGHT - 1) as usize, 2);
    game_over_check_system(&mut s, &b, true);
    assert!(!s.is_game_over);
    game_over_check_system(&mut s, &b, false);
    assert!(s.is_game_over);
    assert_eq!(s.score, 12);
}
