//! Game-wide state: score, game-over flag, the pending clear, the queue of
//! upcoming pieces, and scratch space for the cluster search.
use vstd::prelude::*;
use std::collections::VecDeque;
use crate::board::{cell_index, on_board, BoardGrid, CELL_COUNT};
use crate::constants::{BOARD_HEIGHT, BOARD_WIDTH};
use crate::types::{GrainColor, TetrominoShape};

verus! {

/// Score and game-over flag.
#[derive(Clone, Copy, Debug, PartialEq, Eq, Structural)]
pub struct GameStatus {
    pub score: u32,
    pub is_game_over: bool,
}

impl Default for GameStatus {
    /// A fresh game: no points, not over.
    fn default() -> (s: GameStatus)
        ensures
            s.score == 0,
            !s.is_game_over,
    {
        GameStatus { score: 0, is_game_over: false }
    }
}

/// A clear that has been found and is being shown before the grains vanish:
/// the cells (column, row, grain) to empty and the points they score.
#[derive(Debug)]
pub struct PendingClear {
    pub targets: Vec<(usize, usize, u64)>,
    pub points: u32,
}

impl PendingClear {
    /// Every target is a board cell.
    pub open spec fn wf(&self) -> bool {
        forall|i: int| 0 <= i < self.targets@.len()
            ==> on_board(#[trigger] self.targets@[i].0 as int, self.targets@[i].1 as int)
    }
}

/// The clear in progress, if any.
#[derive(Debug)]
pub struct ClearEffect {
    pub pending: Option<PendingClear>,
}

impl ClearEffect {
    /// A pending clear, if any, names only board cells.
    pub open spec fn wf(&self) -> bool {
        self.pending matches Some(p) ==> p.wf()
    }
}

impl Default for ClearEffect {
    /// No clear in progress.
    fn default() -> (e: ClearEffect)
        ensures
            e.pending is None,
    {
        ClearEffect { pending: None }
    }
}

/// Reusable buffers for searching clusters: a visit stamp per cell, the current
/// stamp, a work queue and the cluster found so far.
pub struct ClearScratch {
    pub visited_stamp: Vec<u32>,
    pub current_stamp: u32,
    pub queue: VecDeque<(usize, usize)>,
    pub component: Vec<(usize, usize)>,
}

impl Default for ClearScratch {
    /// One zero stamp per cell, stamp 1 current, both buffers empty.
    fn default() -> (s: ClearScratch)
        ensures
            s.visited_stamp@.len() == CELL_COUNT,
            forall|i: int| 0 <= i < CELL_COUNT ==> #[trigger] s.visited_stamp@[i] == 0,
            s.current_stamp == 1,
            s.queue@.len() == 0,
            s.component@.len() == 0,
    {
        let mut visited_stamp: Vec<u32> = Vec::with_capacity(CELL_COUNT);
        let mut i: usize = 0;
        while i < CELL_COUNT
            invariant
                i <= CELL_COUNT,
                visited_stamp@.len() == i,
                forall|j: int| 0 <= j < i ==> #[trigger] visited_stamp@[j] == 0,
            decreases CELL_COUNT - i,
        {
            visited_stamp.push(0);
            i = i + 1;
        }
        ClearScratch { visited_stamp, current_stamp: 1, queue: VecDeque::new(), component: Vec::new() }
    }
}

/// The upcoming pieces, first one first.
#[derive(Debug)]
pub struct NextPieceQueue {
    pub pieces: VecDeque<(TetrominoShape, GrainColor)>,
}

impl Default for NextPieceQueue {
    /// No upcoming pieces.
    fn default() -> (q: NextPieceQueue)
        ensures
            q.pieces@.len() == 0,
    {
        NextPieceQueue { pieces: VecDeque::new() }
    }
}


/// Some grain has settled in the top row of the board.
pub open spec fn top_row_occupied(cells: Seq<Option<u64>>) -> bool {
    exists|c: int| 0 <= c < BOARD_WIDTH && #[trigger] cells[cell_index(c, BOARD_HEIGHT - 1)] is Some
}

/// Ends the game once a grain has settled in the top row, unless the game is
/// already over or a clear is showing.
pub fn game_over_check_system(status: &mut GameStatus, board: &BoardGrid, clear_pending: bool)
    requires
        board.wf(),
    ensures
        final(status).score == old(status).score,
        if old(status).is_game_over || clear_pending {
            final(status).is_game_over == old(status).is_game_over
        } else {
            final(status).is_game_over == top_row_occupied(board@)
        },
{
    if status.is_game_over || clear_pending {
        return;
    }
    let top_row = (BOARD_HEIGHT - 1) as usize;
    let mut col: usize = 0;
    while col < BOARD_WIDTH as usize
        invariant
            board.wf(),
            col <= BOARD_WIDTH,
            top_row == BOARD_HEIGHT - 1,
            *status == *old(status),
            !old(status).is_game_over,
            !clear_pending,
            forall|c: int| 0 <= c < col ==> !(#[trigger] board@[cell_index(c, BOARD_HEIGHT - 1)] is Some),
        decreases BOARD_WIDTH - col,
    {
        if board.get(col, top_row).is_some() {
            assert(board@[cell_index(col as int, BOARD_HEIGHT - 1)] is Some);
            status.is_game_over = true;
            return;
        }
        col = col + 1;
    }
}

} // verus!
