use sand_tetris::board::{BoardGrid, CELL_COUNT};
use sand_tetris::clear::{clear_system, find_clear_targets, spanning_mask, ClearOutcome};
use sand_tetris::constants::BOARD_WIDTH;
use sand_tetris::resources::{ClearEffect, GameStatus};
use sand_tetris::types::GrainColor;

const W: usize = BOARD_WIDTH as usize;

struct Scene {
    board: BoardGrid,
    colors: Vec<Option<GrainColor>>,
    next_id: u64,
}

impl Scene {
    fn new() -> Scene {
        Scene { board: BoardGrid::new(), colors: vec![None; CELL_COUNT], next_id: 1 }
    }

    fn put(&mut self, col: usize, row: usize, color: GrainColor) -> u64 {
        let id = self.next_id;
        self.next_id += 1;
        self.board.set(col, row, id);
        self.colors[row * W + col] = Some(color);
        id
    }

    fn refresh_colors(&mut self) {
        for row in 0..CELL_COUNT / W {
            for col in 0..W {
                if self.board.get(col, row).is_none() {
                    self.colors[row * W + col] = None;
                }
            }
        }
    }
}

#[test]
fn full_row_of_one_colour_is_cleared_in_order() {
    let mut s = Scene::new();
    let mut ids = Vec::new();
    for col in 0..W {
        ids.push(s.put(col, 0, GrainColor::Cyan));
    }
    let t = find_clear_targets(&s.board, &s.colors);
    assert_eq!(t.len(), W);
    for (col, entry) in t.iter().enumerate() {
        assert_eq!(*entry, (col, 0, ids[col]));
    }
}

#[test]
fn row_with_a_gap_is_not_cleared() {
    let mut s = Scene::new();
    for col in 0..W {
        if col != 40 {
            s.put(col, 0, GrainColor::Cyan);
        }
    }
    assert!(find_clear_targets(&s.board, &s.colors).is_empty());
}

#[test]
fn row_of_two_colours_is_not_cleared() {
    let mut s = Scene::new();
    for col in 0..W {
        let c = if col < 50 { GrainColor::Red } else { GrainColor::Green };
        s.put(col, 0, c);
    }
    assert!(find_clear_targets(&s.board, &s.colors).is_empty());
}

#[test]
fn diagonal_touching_grains_connect() {
    let mut s = Scene::new();
    for col in 0..W {
        s.put(col, col % 2, GrainColor::Yellow);
    }
    let t = find_clear_targets(&s.board, &s.colors);
    assert_eq!(t.len(), W);
    // Row-major order: the 40 grains of row 0 first, then those of row 1.
    assert_eq!((t[0].0, t[0].1), (0, 0));
    assert_eq!((t[39].0, t[39].1), (78, 0));
    assert_eq!((t[40].0, t[40].1), (1, 1));
    assert_eq!((t[79].0, t[79].1), (79, 1));
}

#[test]
fn only_the_spanning_cluster_is_cleared() {
    let mut s = Scene::new();
    for col in 0..W {
        s.put(col, 2, GrainColor::Purple);
    }
    // A purple grain not touching the row, and a red one touching it.
    s.put(10, 5, GrainColor::Purple);
    s.put(20, 3, GrainColor::Red);
    // A purple grain hanging below the row, touching it diagonally.
    s.put(30, 1, GrainColor::Purple);
    let t = find_clear_targets(&s.board, &s.colors);
    assert_eq!(t.len(), W + 1);
    assert_eq!((t[0].0, t[0].1), (30, 1));
    assert!(t.iter().all(|e| e.1 == 1 || e.1 == 2));
    let mask = spanning_mask(&s.colors);
    assert!(mask[2 * W + 5]);
    assert!(!mask[5 * W + 10]);
    assert!(!mask[3 * W + 20]);
    assert_eq!(mask.iter().filter(|&&m| m).count(), W + 1);
}

#[test]
fn cluster_touching_one_wall_only_is_not_cleared() {
    let mut s = Scene::new();
    for row in 0..10 {
        for col in 0..W - 1 {
            s.put(col, row, GrainColor::Green);
        }
    }
    assert!(find_clear_targets(&s.board, &s.colors).is_empty());
}

#[test]
fn grain_without_colour_is_not_a_target() {
    let mut s = Scene::new();
    for col in 0..W {
        s.put(col, 0, GrainColor::Cyan);
    }
    s.board.set(5, 1, 999);
    let t = find_clear_targets(&s.board, &s.colors);
    assert_eq!(t.len(), W);
    assert!(t.iter().all(|e| e.2 != 999));
}

#[test]
fn clear_system_starts_waits_and_finishes() {
    let mut s = Scene::new();
    for col in 0..W {
        s.put(col, 0, GrainColor::Red);
    }
    s.put(3, 1, GrainColor::Cyan);
    let mut effect = ClearEffect::default();
    let mut status = GameStatus { score: 5, is_game_over: false };
    assert_eq!(clear_system(&mut effect, &mut status, &mut s.board, &s.colors, true), ClearOutcome::Started);
    let p = effect.pending.as_ref().unwrap();
    assert_eq!(p.points, 80);
    assert_eq!(p.targets.len(), 80);
    assert_eq!(status.score, 5);
    assert_eq!(clear_system(&mut effect, &mut status, &mut s.board, &s.colors, false), ClearOutcome::Waiting);
    assert!(effect.pending.is_some());
    match clear_system(&mut effect, &mut status, &mut s.board, &s.colors, true) {
        ClearOutcome::Cleared(t) => assert_eq!(t.len(), 80),
        other => panic!("unexpected {:?}", other),
    }
    assert!(effect.pending.is_none());
    assert_eq!(status.score, 85);
    for col in 0..W {
        assert_eq!(s.board.get(col, 0), None);
    }
    assert!(s.board.get(3, 1).is_some());
    s.refresh_colors();
    assert_eq!(clear_system(&mut effect, &mut status, &mut s.board, &s.colors, true), ClearOutcome::Waiting);
    assert!(effect.pending.is_none());
}

#[test]
fn nothing_left_to_clear_after_a_clear() {
    let mut s = Scene::new();
    for row in 0..3 {
        for col in 0..W {
            let c = if row == 1 { GrainColor::Green } else { GrainColor::Yellow };
            s.put(col, row, c);
        }
    }
    let t = find_clear_targets(&s.board, &s.colors);
    assert_eq!(t.len(), 3 * W);
    for e in &t {
        s.board.clear_cell(e.0, e.1);
    }
    s.refresh_colors();
    assert!(find_clear_targets(&s.board, &s.colors).is_empty());
    assert!(spanning_mask(&s.colors).iter().all(|&m| !m));
}

#[test]
fn clear_system_waits_when_game_over() {
    let mut s = Scene::new();
    for col in 0..W {
        s.put(col, 0, GrainColor::Red);
    }
    let mut effect = ClearEffect::default();
    let mut status = GameStatus { score: 0, is_game_over: true };
    assert_eq!(clear_system(&mut effect, &mut status, &mut s.board, &s.colors, true), ClearOutcome::Waiting);
    assert!(effect.pending.is_none());
    assert!(s.board.get(0, 0).is_some());
}

#[test]
fn diagonal_of_one_colour_is_cleared_and_one_odd_grain_prevents_it() {
    let mut s = Scene::new();
    let mut ids = Vec::new();
    for k in 0..W {
        ids.push(s.put(k, k, GrainColor::Cyan));
    }
    let mut effect = ClearEffect::default();
    let mut status = GameStatus::default();
    assert_eq!(clear_system(&mut effect, &mut status, &mut s.board, &s.colors, false), ClearOutcome::Started);
    let p = effect.pending.as_ref().unwrap();
    assert_eq!(p.points, W as u32);
    let expected: Vec<(usize, usize, u64)> = (0..W).map(|k| (k, k, ids[k])).collect();
    assert_eq!(p.targets, expected);

    let mut odd = Scene::new();
    for k in 0..W {
        let c = if k == 37 { GrainColor::Red } else { GrainColor::Cyan };
        odd.put(k, k, c);
    }
    let mut effect = ClearEffect::default();
    let mut status = GameStatus::default();
    assert_eq!(clear_system(&mut effect, &mut status, &mut odd.board, &odd.colors, false), ClearOutcome::Waiting);
    assert!(effect.pending.is_none());
    assert!(spanning_mask(&odd.colors).iter().all(|&m| !m));
}
