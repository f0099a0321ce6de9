use sand_tetris::board::{BoardGrid, CELL_COUNT};
use sand_tetris::constants::{BOARD_HEIGHT, BOARD_WIDTH};
use sand_tetris::resources::GameStatus;
use sand_tetris::sand::{sand_physics_system, sand_step, sand_step_with};

const W: usize = BOARD_WIDTH as usize;
const H: usize = BOARD_HEIGHT as usize;

fn grains(b: &BoardGrid) -> Vec<u64> {
    let mut v = Vec::new();
    for row in 0..H {
        for col in 0..W {
            if let Some(e) = b.get(col, row) {
                v.push(e);
            }
        }
    }
    v.sort();
    v
}

#[test]
fn grain_falls_one_row_per_pass() {
    let mut b = BoardGrid::new();
    b.set(5, 5, 1);
    sand_step_with(&mut b, &vec![false; CELL_COUNT]);
    assert_eq!(b.get(5, 5), None);
    assert_eq!(b.get(5, 4), Some(1));
}

#[test]
fn grain_on_floor_stays() {
    let mut b = BoardGrid::new();
    b.set(5, 0, 1);
    sand_step_with(&mut b, &vec![true; CELL_COUNT]);
    assert_eq!(b.get(5, 0), Some(1));
}

#[test]
fn blocked_grain_slides_to_chosen_diagonal_first() {
    let mut b = BoardGrid::new();
    b.set(5, 0, 1);
    b.set(5, 1, 2);
    let mut choices = vec![false; CELL_COUNT];
    choices[W + 5] = true;
    let mut left = b.clone();
    sand_step_with(&mut left, &choices);
    assert_eq!(left.get(4, 0), Some(2));
    assert_eq!(left.get(5, 1), None);
    let mut right = b.clone();
    sand_step_with(&mut right, &vec![false; CELL_COUNT]);
    assert_eq!(right.get(6, 0), Some(2));
}

#[test]
fn blocked_grain_tries_the_other_diagonal() {
    let mut b = BoardGrid::new();
    b.set(4, 0, 1);
    b.set(5, 0, 2);
    b.set(5, 1, 3);
    let mut choices = vec![false; CELL_COUNT];
    choices[W + 5] = true;
    sand_step_with(&mut b, &choices);
    assert_eq!(b.get(6, 0), Some(3));
}

#[test]
fn wall_blocks_diagonal() {
    let mut b = BoardGrid::new();
    b.set(0, 0, 1);
    b.set(1, 0, 2);
    b.set(0, 1, 3);
    let mut choices = vec![false; CELL_COUNT];
    choices[W] = true;
    sand_step_with(&mut b, &choices);
    assert_eq!(b.get(0, 1), Some(3));
}

#[test]
fn fully_supported_grain_stays() {
    let mut b = BoardGrid::new();
    b.set(4, 0, 1);
    b.set(5, 0, 2);
    b.set(6, 0, 3);
    b.set(5, 1, 4);
    sand_step_with(&mut b, &vec![true; CELL_COUNT]);
    assert_eq!(b.get(5, 1), Some(4));
}

#[test]
fn column_settles_one_cell_per_grain_per_pass() {
    let mut b = BoardGrid::new();
    b.set(10, 3, 1);
    b.set(10, 4, 2);
    sand_step_with(&mut b, &vec![false; CELL_COUNT]);
    // Rows are scanned from the bottom: the lower grain moves first, then the upper one follows.
    assert_eq!(b.get(10, 2), Some(1));
    assert_eq!(b.get(10, 3), Some(2));
}

#[test]
fn random_pass_keeps_every_grain() {
    let mut rng = rand::rng();
    let mut b = BoardGrid::new();
    let mut id = 0;
    for row in 0..20 {
        for col in 0..W {
            if (col * 7 + row * 3) % 5 != 0 {
                id += 1;
                b.set(col, row + 10, id);
            }
        }
    }
    let before = grains(&b);
    for _ in 0..30 {
        sand_step(&mut b, &mut rng);
        assert_eq!(grains(&b), before);
    }
}

#[test]
fn random_pass_settles_a_pile() {
    let mut rng = rand::rng();
    let mut b = BoardGrid::new();
    for k in 0..10u64 {
        b.set(40, 10 + k as usize, k + 1);
    }
    for _ in 0..200 {
        sand_step(&mut b, &mut rng);
    }
    for k in 0..10 {
        assert!(b.get(40, 10 + k).is_none());
    }
    assert!(b.get(40, 0).is_some());
    assert_eq!(grains(&b).len(), 10);
}

#[test]
fn sand_physics_waits_for_clear_and_game_over() {
    let mut rng = rand::rng();
    let mut b = BoardGrid::new();
    b.set(5, 5, 1);
    let running = GameStatus::default();
    let over = GameStatus { score: 0, is_game_over: true };
    sand_physics_system(&mut b, &over, false, &mut rng);
    assert_eq!(b.get(5, 5), Some(1));
    sand_physics_system(&mut b, &running, true, &mut rng);
    assert_eq!(b.get(5, 5), Some(1));
    sand_physics_system(&mut b, &running, false, &mut rng);
    assert_eq!(b.get(5, 4), Some(1));
}
