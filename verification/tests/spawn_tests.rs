use sand_tetris::board::BoardGrid;
use sand_tetris::constants::{BOARD_HEIGHT, BOARD_WIDTH};
use sand_tetris::resources::{GameStatus, NextPieceQueue};
use sand_tetris::spawn::{
    anchor_range, offset_x_bounds, preview_cell_color, preview_interaction_system, select_candidate, spawn_at,
    spawn_piece_system,
};
use sand_tetris::types::{GrainColor, TetrominoShape};
use std::collections::VecDeque;

#[test]
fn anchor_ranges() {
    assert_eq!(anchor_range(TetrominoShape::I), (8, 56));
    assert_eq!(anchor_range(TetrominoShape::O), (0, 64));
    assert_eq!(anchor_range(TetrominoShape::T), (8, 64));
    assert_eq!(anchor_range(TetrominoShape::S), (8, 64));
}

#[test]
fn offset_bounds() {
    assert_eq!(offset_x_bounds(&Vec::new()), (0, 0));
    assert_eq!(offset_x_bounds(&TetrominoShape::I.offsets()), (-8, 23));
    assert_eq!(offset_x_bounds(&vec![(3, 0), (-2, 5), (7, 1)]), (-2, 7));
}

#[test]
fn spawn_places_piece_near_the_top() {
    let b = BoardGrid::new();
    let mut s = GameStatus::default();
    let cells = spawn_at(&b, &mut s, TetrominoShape::O, 0).unwrap();
    assert_eq!(cells.len(), 256);
    assert_eq!(cells[0], (0, BOARD_HEIGHT - 2));
    assert_eq!(cells[255], (15, BOARD_HEIGHT - 2 + 15));
    assert!(!s.is_game_over);
}

#[test]
fn spawn_blocked_ends_game() {
    let mut b = BoardGrid::new();
    b.set(3, (BOARD_HEIGHT - 1) as usize, 1);
    let mut s = GameStatus::default();
    assert!(spawn_at(&b, &mut s, TetrominoShape::O, 0).is_none());
    assert!(s.is_game_over);
    let mut s2 = GameStatus::default();
    assert!(spawn_at(&b, &mut s2, TetrominoShape::O, 20).is_some());
    assert!(!s2.is_game_over);
}

#[test]
fn random_spawns_lie_between_the_walls() {
    let b = BoardGrid::new();
    let mut rng = rand::rng();
    let mut lowest = i32::MAX;
    let mut highest = i32::MIN;
    for _ in 0..500 {
        let mut s = GameStatus::default();
        let p = spawn_piece_system(&b, &mut s, &mut rng).unwrap();
        assert_eq!(p.cells.len(), 256);
        for &(c, _) in &p.cells {
            assert!(c >= 0 && c < BOARD_WIDTH);
            lowest = lowest.min(c);
            highest = highest.max(c);
        }
    }
    assert_eq!(lowest, 0);
    assert_eq!(highest, BOARD_WIDTH - 1);
}

#[test]
fn no_spawn_when_game_over() {
    let b = BoardGrid::new();
    let mut rng = rand::rng();
    let mut s = GameStatus { score: 0, is_game_over: true };
    assert!(spawn_piece_system(&b, &mut s, &mut rng).is_none());
}

fn queue() -> NextPieceQueue {
    let mut pieces = VecDeque::new();
    pieces.push_back((TetrominoShape::T, GrainColor::Red));
    pieces.push_back((TetrominoShape::I, GrainColor::Green));
    NextPieceQueue { pieces }
}

#[test]
fn preview_cells() {
    let q = queue();
    assert_eq!(preview_cell_color(&q, 0, 0, 0), Some(GrainColor::Red));
    assert_eq!(preview_cell_color(&q, 0, 2, 0), Some(GrainColor::Red));
    assert_eq!(preview_cell_color(&q, 0, 0, 1), None);
    assert_eq!(preview_cell_color(&q, 0, 1, 1), Some(GrainColor::Red));
    assert_eq!(preview_cell_color(&q, 0, 3, 0), None);
    assert_eq!(preview_cell_color(&q, 1, 3, 0), Some(GrainColor::Green));
    assert_eq!(preview_cell_color(&q, 1, 0, 1), None);
    assert_eq!(preview_cell_color(&q, 2, 0, 0), None);
}

#[test]
fn selecting_a_candidate_spawns_it_centred() {
    let b = BoardGrid::new();
    let mut q = queue();
    let mut s = GameStatus::default();
    let p = select_candidate(&mut q, &b, &mut s, 1, false, false, (TetrominoShape::O, GrainColor::Cyan)).unwrap();
    assert_eq!(p.shape, TetrominoShape::I);
    assert_eq!(p.color, GrainColor::Green);
    assert_eq!(p.cells[0], (32 - 8, BOARD_HEIGHT - 2));
    assert_eq!(q.pieces.len(), 2);
    assert_eq!(q.pieces[0], (TetrominoShape::T, GrainColor::Red));
    assert_eq!(q.pieces[1], (TetrominoShape::O, GrainColor::Cyan));
}

#[test]
fn selecting_is_refused_while_busy() {
    let b = BoardGrid::new();
    let mut q = queue();
    let mut s = GameStatus::default();
    assert!(select_candidate(&mut q, &b, &mut s, 0, true, false, (TetrominoShape::O, GrainColor::Cyan)).is_none());
    assert!(select_candidate(&mut q, &b, &mut s, 0, false, true, (TetrominoShape::O, GrainColor::Cyan)).is_none());
    assert!(select_candidate(&mut q, &b, &mut s, 5, false, false, (TetrominoShape::O, GrainColor::Cyan)).is_none());
    assert_eq!(q.pieces.len(), 2);
    assert_eq!(q.pieces[0], (TetrominoShape::T, GrainColor::Red));
}

#[test]
fn selecting_into_a_blocked_spot_ends_game() {
    let mut b = BoardGrid::new();
    b.set(36, (BOARD_HEIGHT - 2) as usize, 5);
    let mut q = queue();
    let mut s = GameStatus::default();
    let mut rng = rand::rng();
    assert!(preview_interaction_system(&mut q, &b, &mut s, 0, false, false, &mut rng).is_none());
    assert!(s.is_game_over);
    assert_eq!(q.pieces.len(), 2);
    assert_eq!(q.pieces[0], (TetrominoShape::I, GrainColor::Green));
}
