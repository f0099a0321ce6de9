use sand_tetris::board::BoardGrid;
use sand_tetris::constants::{BOARD_HEIGHT, BOARD_WIDTH};
use sand_tetris::piece::{
    can_drop, can_shift, falling_system, ghost_system, hard_drop, hard_drop_distance, lock_piece, pivot, try_rotate,
    FallOutcome,
};
use sand_tetris::resources::GameStatus;

fn line(col: i32, row: i32, n: i32) -> Vec<(u64, i32, i32)> {
    (0..n).map(|k| (k as u64 + 1, col + k, row)).collect()
}

#[test]
fn shift_blocked_by_walls_and_grains() {
    let mut b = BoardGrid::new();
    let p = line(0, 10, 4);
    assert!(!can_shift(&b, &p, -1));
    assert!(can_shift(&b, &p, 1));
    assert!(can_shift(&b, &p, 0));
    b.set(4, 10, 99);
    assert!(!can_shift(&b, &p, 1));
    let right = line(BOARD_WIDTH - 4, 10, 4);
    assert!(!can_shift(&b, &right, 1));
}

#[test]
fn shift_into_own_cells_is_allowed_even_off_board() {
    let b = BoardGrid::new();
    // Grains at columns -1 and 0: moving right, the one at -1 moves onto 0 (its own cell).
    let p = vec![(1, -1, 5), (2, 0, 5)];
    assert!(can_shift(&b, &p, 1));
    assert!(!can_shift(&b, &p, -1));
}

#[test]
fn drop_checks_floor() {
    let b = BoardGrid::new();
    let p = line(3, 2, 2);
    assert!(can_drop(&b, &p, 1));
    assert!(can_drop(&b, &p, 2));
    assert!(!can_drop(&b, &p, 3));
}

#[test]
fn hard_drop_distance_on_empty_board_reaches_floor() {
    let b = BoardGrid::new();
    let p = vec![(1, 5, 30), (2, 6, 31)];
    assert_eq!(hard_drop_distance(&b, &p), 30);
    let below = vec![(1, 5, -3)];
    assert_eq!(hard_drop_distance(&b, &below), 0);
}

#[test]
fn hard_drop_distance_stops_on_grains() {
    let mut b = BoardGrid::new();
    b.set(5, 7, 9);
    let p = vec![(1, 5, 30), (2, 6, 30)];
    assert_eq!(hard_drop_distance(&b, &p), 22);
}

#[test]
fn hard_drop_locks_at_landing() {
    let mut b = BoardGrid::new();
    let mut s = GameStatus::default();
    let p = vec![(1, 5, 30), (2, 5, 31)];
    let (d, placed) = hard_drop(&mut b, &mut s, &p);
    assert_eq!(d, 30);
    assert_eq!(placed, vec![true, true]);
    assert_eq!(b.get(5, 0), Some(1));
    assert_eq!(b.get(5, 1), Some(2));
    assert!(!s.is_game_over);
}

#[test]
fn hard_drop_above_top_ends_game() {
    let mut b = BoardGrid::new();
    for row in 0..BOARD_HEIGHT as usize {
        b.set(5, row, 100 + row as u64);
    }
    let mut s = GameStatus::default();
    let p = vec![(1, 5, BOARD_HEIGHT + 3)];
    let (d, placed) = hard_drop(&mut b, &mut s, &p);
    assert_eq!(d, 3);
    assert_eq!(placed, vec![false]);
    assert!(s.is_game_over);
}

#[test]
fn ghost_shows_hard_drop_landing() {
    let mut b = BoardGrid::new();
    b.set(5, 7, 9);
    let p = vec![(1, 5, 30), (2, 6, 30), (3, 6, 200)];
    let rows = ghost_system(&b, &p);
    let d = hard_drop_distance(&b, &p);
    assert_eq!(d, 22);
    assert_eq!(rows, vec![Some(8), Some(8), None]);
    assert!(ghost_system(&b, &Vec::new()).is_empty());
}

#[test]
fn lock_piece_places_on_board_grains() {
    let mut b = BoardGrid::new();
    let mut s = GameStatus { score: 3, is_game_over: false };
    let p = vec![(1, 0, 0), (2, 79, 175)];
    let placed = lock_piece(&mut b, &mut s, &p);
    assert_eq!(placed, vec![true, true]);
    assert_eq!(b.get(0, 0), Some(1));
    assert_eq!(b.get(79, 175), Some(2));
    assert!(!s.is_game_over);
    assert_eq!(s.score, 3);
}

#[test]
fn lock_piece_off_board_ends_game() {
    let mut b = BoardGrid::new();
    let mut s = GameStatus::default();
    let p = vec![(1, 0, 176), (2, 3, 3), (3, -1, 3)];
    let placed = lock_piece(&mut b, &mut s, &p);
    assert_eq!(placed, vec![false, true, false]);
    assert_eq!(b.get(3, 3), Some(2));
    assert!(s.is_game_over);
}

#[test]
fn falling_moves_then_locks() {
    let mut b = BoardGrid::new();
    let mut s = GameStatus::default();
    let p = vec![(1, 5, 1)];
    assert_eq!(falling_system(&mut b, &mut s, &p), FallOutcome::Fell);
    let p = vec![(1, 5, 0)];
    assert_eq!(falling_system(&mut b, &mut s, &p), FallOutcome::Locked(vec![true]));
    assert_eq!(b.get(5, 0), Some(1));
    assert_eq!(falling_system(&mut b, &mut s, &Vec::new()), FallOutcome::Idle);
    s.is_game_over = true;
    assert_eq!(falling_system(&mut b, &mut s, &vec![(2, 5, 9)]), FallOutcome::Idle);
}

#[test]
fn falling_piece_rests_on_its_own_grains() {
    let b0 = BoardGrid::new();
    let mut b = b0.clone();
    let mut s = GameStatus::default();
    let p = vec![(1, 5, 2), (2, 5, 1)];
    assert_eq!(falling_system(&mut b, &mut s, &p), FallOutcome::Fell);
}

#[test]
fn pivot_rounds_half_away_from_zero() {
    assert_eq!(pivot(&vec![(1, 0, 0), (2, 1, 0)]), (1, 0));
    assert_eq!(pivot(&vec![(1, -1, 0), (2, 0, 0)]), (-1, 0));
    assert_eq!(pivot(&vec![(1, 0, 0), (2, 0, 1), (3, 0, 1)]), (0, 1));
    assert_eq!(pivot(&vec![(1, 10, 10), (2, 11, 10), (3, 12, 10), (4, 13, 10)]), (12, 10));
    assert_eq!(pivot(&vec![(1, i32::MAX, i32::MIN), (2, i32::MAX, i32::MIN)]), (i32::MAX as i128, i32::MIN as i128));
}

#[test]
fn rotation_turns_clockwise_about_the_pivot() {
    let b = BoardGrid::new();
    let p = vec![(1, 10, 10), (2, 11, 10), (3, 12, 10), (4, 13, 10)];
    let r = try_rotate(&b, &p).unwrap();
    assert_eq!(r, vec![(1, 12, 12), (2, 12, 11), (3, 12, 10), (4, 12, 9)]);
}

#[test]
fn rotation_blocked_by_grains_or_walls() {
    let mut b = BoardGrid::new();
    let p = vec![(1, 10, 10), (2, 11, 10), (3, 12, 10), (4, 13, 10)];
    b.set(12, 9, 7);
    assert!(try_rotate(&b, &p).is_none());
    let at_floor = vec![(1, 0, 0), (2, 1, 0), (3, 2, 0)];
    assert!(try_rotate(&BoardGrid::new(), &at_floor).is_none());
    assert!(try_rotate(&BoardGrid::new(), &Vec::new()).is_none());
}

#[test]
fn locking_keeps_board_ids_distinct_and_old_grains_in_place() {
    let mut b = BoardGrid::new();
    b.set(5, 0, 100);
    b.set(6, 0, 101);
    let mut s = GameStatus::default();
    let p = vec![(1, 5, 3), (2, 6, 3), (3, 5, 4)];
    let mut current = p.clone();
    loop {
        match falling_system(&mut b, &mut s, &current) {
            FallOutcome::Fell => {
                current = current.iter().map(|&(e, c, r)| (e, c, r - 1)).collect();
                for &(_, c, r) in &current {
                    assert!(b.is_free(c, r));
                }
            }
            FallOutcome::Locked(placed) => {
                assert_eq!(placed, vec![true, true, true]);
                break;
            }
            FallOutcome::Idle => panic!("piece should move or lock"),
        }
    }
    assert_eq!(b.get(5, 0), Some(100));
    assert_eq!(b.get(6, 0), Some(101));
    assert_eq!(b.get(5, 1), Some(1));
    assert_eq!(b.get(6, 1), Some(2));
    assert_eq!(b.get(5, 2), Some(3));
    let mut ids = Vec::new();
    for row in 0..BOARD_HEIGHT as usize {
        for col in 0..BOARD_WIDTH as usize {
            if let Some(e) = b.get(col, row) {
                ids.push(e);
            }
        }
    }
    let n = ids.len();
    ids.sort();
    ids.dedup();
    assert_eq!(ids.len(), n);
    assert_eq!(n, 5);
}

#[test]
fn locking_grains_that_share_a_cell_records_the_later_one() {
    let mut b = BoardGrid::new();
    b.set(2, 0, 100);
    let mut s = GameStatus::default();
    let p = vec![(1, 5, 0), (2, 5, 0), (3, 6, 0)];
    let placed = lock_piece(&mut b, &mut s, &p);
    assert_eq!(placed, vec![true, true, true]);
    assert_eq!(b.get(5, 0), Some(2));
    assert_eq!(b.get(6, 0), Some(3));
    assert_eq!(b.get(2, 0), Some(100));
    let mut ids = Vec::new();
    for row in 0..BOARD_HEIGHT as usize {
        for col in 0..BOARD_WIDTH as usize {
            if let Some(e) = b.get(col, row) {
                ids.push(e);
            }
        }
    }
    ids.sort();
    assert_eq!(ids, vec![2, 3, 100]);
}
