//! The falling piece: its grains move as one group, left, right, down or by a
//! quarter turn, and lock into the board when they can fall no further.
//! A piece is a list of (grain, column, row) triples.
use vstd::prelude::*;
use crate::board::{cell_index, free_at, on_board, BoardGrid};
use crate::constants::{BOARD_HEIGHT, BOARD_WIDTH};
use crate::resources::GameStatus;

verus! {

/// Some grain of the piece is at (`c`, `r`).
pub open spec fn occupied_by(pieces: Seq<(u64, i32, i32)>, c: int, r: int) -> bool {
    exists|j: int| 0 <= j < pieces.len() && #[trigger] pieces[j].1 == c && pieces[j].2 == r
}

/// A grain of the piece may move to (`c`, `r`): the cell is free, or a grain of
/// the piece itself is there now.
pub open spec fn target_ok(cells: Seq<Option<u64>>, pieces: Seq<(u64, i32, i32)>, c: int, r: int) -> bool {
    free_at(cells, c, r) || occupied_by(pieces, c, r)
}

/// Every grain may move `dc` columns sideways.
pub open spec fn can_shift_spec(cells: Seq<Option<u64>>, pieces: Seq<(u64, i32, i32)>, dc: int) -> bool {
    forall|i: int| 0 <= i < pieces.len() ==> target_ok(cells, pieces, #[trigger] pieces[i].1 + dc, pieces[i].2 as int)
}

/// Every grain may move `k` rows down without leaving the floor.
pub open spec fn can_drop_spec(cells: Seq<Option<u64>>, pieces: Seq<(u64, i32, i32)>, k: int) -> bool {
    forall|i: int| 0 <= i < pieces.len() ==> #[trigger] pieces[i].2 - k >= 0
        && target_ok(cells, pieces, pieces[i].1 as int, pieces[i].2 - k)
}

/// `d` is how far the piece drops: it can drop by every distance from 1 to `d`,
/// but not by `d + 1`.
pub open spec fn is_drop_distance(cells: Seq<Option<u64>>, pieces: Seq<(u64, i32, i32)>, d: int) -> bool {
    &&& d >= 0
    &&& forall|k: int| 1 <= k <= d ==> #[trigger] can_drop_spec(cells, pieces, k)
    &&& !can_drop_spec(cells, pieces, d + 1)
}

/// Whether some grain of the piece is at (`c`, `r`).
fn occupied(pieces: &Vec<(u64, i32, i32)>, c: i64, r: i64) -> (res: bool)
    ensures
        res == occupied_by(pieces@, c as int, r as int),
{
    let mut j: usize = 0;
    while j < pieces.len()
        invariant
            j <= pieces@.len(),
            forall|k: int| 0 <= k < j ==> !(#[trigger] pieces@[k].1 == c && pieces@[k].2 == r),
        decreases pieces@.len() - j,
    {
        if pieces[j].1 as i64 == c && pieces[j].2 as i64 == r {
            assert(pieces@[j as int].1 == c && pieces@[j as int].2 == r);
            return true;
        }
        j = j + 1;
    }
    false
}

/// Whether a grain of the piece may move to (`c`, `r`).
fn target_free(board: &BoardGrid, pieces: &Vec<(u64, i32, i32)>, c: i64, r: i64) -> (res: bool)
    requires
        board.wf(),
    ensures
        res == target_ok(board@, pieces@, c as int, r as int),
{
    board.is_free_at(c, r) || occupied(pieces, c, r)
}

/// Whether every grain may move `dc` columns sideways, each onto a free cell or
/// onto a cell of the piece itself.
pub fn can_shift(board: &BoardGrid, pieces: &Vec<(u64, i32, i32)>, dc: i32) -> (res: bool)
    requires
        board.wf(),
    ensures
        res == can_shift_spec(board@, pieces@, dc as int),
{
    let mut i: usize = 0;
    while i < pieces.len()
        invariant
            board.wf(),
            i <= pieces@.len(),
            forall|k: int| 0 <= k < i ==> target_ok(board@, pieces@, #[trigger] pieces@[k].1 + dc, pieces@[k].2 as int),
        decreases pieces@.len() - i,
    {
        let (_, c, r) = pieces[i];
        if !target_free(board, pieces, c as i64 + dc as i64, r as i64) {
            return false;
        }
        i = i + 1;
    }
    true
}

/// Whether every grain may move `k` rows down, each onto a free cell or onto a
/// cell of the piece itself, none going below the floor.
pub fn can_drop(board: &BoardGrid, pieces: &Vec<(u64, i32, i32)>, k: u32) -> (res: bool)
    requires
        board.wf(),
    ensures
        res == can_drop_spec(board@, pieces@, k as int),
{
    let mut i: usize = 0;
    while i < pieces.len()
        invariant
            board.wf(),
            i <= pieces@.len(),
            forall|j: int| 0 <= j < i ==> #[trigger] pieces@[j].2 - k >= 0
                && target_ok(board@, pieces@, pieces@[j].1 as int, pieces@[j].2 - k),
        decreases pieces@.len() - i,
    {
        let (_, c, r) = pieces[i];
        let nr = r as i64 - k as i64;
        if nr < 0 {
            return false;
        }
        if !target_free(board, pieces, c as i64, nr) {
            return false;
        }
        i = i + 1;
    }
    true
}

/// How many rows the piece falls on a hard drop: the largest distance it can
/// drop with every shorter distance also possible.
pub fn hard_drop_distance(board: &BoardGrid, pieces: &Vec<(u64, i32, i32)>) -> (d: i32)
    requires
        board.wf(),
        pieces@.len() > 0,
    ensures
        is_drop_distance(board@, pieces@, d as int),
{
    let ghost r0 = pieces@[0].2 as int;
    let mut d: u32 = 0;
    while can_drop(board, pieces, d + 1)
        invariant
            board.wf(),
            pieces@.len() > 0,
            r0 == pieces@[0].2,
            d == 0 || d <= r0,
            forall|k: int| 1 <= k <= d ==> #[trigger] can_drop_spec(board@, pieces@, k),
        decreases r0 - d,
    {
        assert(pieces@[0].2 - (d + 1) >= 0);
        d = d + 1;
    }
    d as i32
}


/// The drop distance is unique: any two distances that meet the definition are
/// equal, so the ghost preview lands exactly where a hard drop would.
pub proof fn lemma_drop_distance_unique(cells: Seq<Option<u64>>, pieces: Seq<(u64, i32, i32)>, d1: int, d2: int)
    requires
        is_drop_distance(cells, pieces, d1),
        is_drop_distance(cells, pieces, d2),
    ensures
        d1 == d2,
{
    if d1 < d2 {
        assert(can_drop_spec(cells, pieces, d1 + 1));
    } else if d2 < d1 {
        assert(can_drop_spec(cells, pieces, d2 + 1));
    }
}

/// Grain `g` is on the board.
pub open spec fn grain_on_board(g: (u64, i32, i32)) -> bool {
    on_board(g.1 as int, g.2 as int)
}

/// Some grain lies off the board.
pub open spec fn any_off_board(grains: Seq<(u64, i32, i32)>) -> bool {
    exists|i: int| 0 <= i < grains.len() && !grain_on_board(#[trigger] grains[i])
}

/// The board after locking `grains` in order: each grain on the board is
/// recorded in its cell, a later grain overwriting an earlier one in the same
/// cell; grains off the board are dropped.
pub open spec fn lock_cells(cells: Seq<Option<u64>>, grains: Seq<(u64, i32, i32)>) -> Seq<Option<u64>>
    decreases grains.len(),
{
    if grains.len() == 0 {
        cells
    } else {
        let g = grains.last();
        let rest = lock_cells(cells, grains.drop_last());
        if grain_on_board(g) {
            rest.update(cell_index(g.1 as int, g.2 as int), Some(g.0))
        } else {
            rest
        }
    }
}

proof fn lemma_lock_cells_len(cells: Seq<Option<u64>>, grains: Seq<(u64, i32, i32)>)
    requires
        cells.len() == crate::board::CELL_COUNT,
    ensures
        lock_cells(cells, grains).len() == crate::board::CELL_COUNT,
    decreases grains.len(),
{
    if grains.len() > 0 {
        lemma_lock_cells_len(cells, grains.drop_last());
    }
}

/// No two grains of the list share a cell.
pub open spec fn distinct_cells(grains: Seq<(u64, i32, i32)>) -> bool {
    forall|j: int, k: int| 0 <= j < grains.len() && 0 <= k < grains.len() && j != k
        ==> (#[trigger] grains[j].1, grains[j].2) != (#[trigger] grains[k].1, grains[k].2)
}

/// Locking a piece whose grains occupy distinct cells records every grain
/// that lies on the board in its own cell, and leaves every cell that no grain
/// of the piece covers as it was.
pub proof fn lemma_lock_reads_back(cells: Seq<Option<u64>>, grains: Seq<(u64, i32, i32)>)
    requires
        cells.len() == crate::board::CELL_COUNT,
        distinct_cells(grains),
    ensures
        forall|i: int| 0 <= i < grains.len() && grain_on_board(#[trigger] grains[i])
            ==> lock_cells(cells, grains)[cell_index(grains[i].1 as int, grains[i].2 as int)] == Some(grains[i].0),
        forall|c: int, r: int| on_board(c, r)
            && !(exists|i: int| 0 <= i < grains.len() && #[trigger] grains[i].1 == c && grains[i].2 == r)
            ==> #[trigger] lock_cells(cells, grains)[cell_index(c, r)] == cells[cell_index(c, r)],
    decreases grains.len(),
{
    if grains.len() > 0 {
        let n = grains.len() - 1;
        let rest = grains.drop_last();
        assert(distinct_cells(rest)) by {
            assert forall|j: int, k: int| 0 <= j < rest.len() && 0 <= k < rest.len() && j != k
                implies (#[trigger] rest[j].1, rest[j].2) != (#[trigger] rest[k].1, rest[k].2) by {
                assert(rest[j] == grains[j] && rest[k] == grains[k]);
            }
        }
        lemma_lock_reads_back(cells, rest);
        lemma_lock_cells_len(cells, rest);
        let g = grains[n];
        assert forall|i: int| 0 <= i < grains.len() && grain_on_board(#[trigger] grains[i])
            implies lock_cells(cells, grains)[cell_index(grains[i].1 as int, grains[i].2 as int)] == Some(grains[i].0) by {
            crate::board::lemma_cell_index(grains[i].1 as int, grains[i].2 as int);
            if i < n {
                assert(rest[i] == grains[i]);
                if grain_on_board(g) {
                    crate::board::lemma_cell_index(g.1 as int, g.2 as int);
                    assert((grains[i].1, grains[i].2) != (grains[n].1, grains[n].2));
                    if cell_index(grains[i].1 as int, grains[i].2 as int) == cell_index(g.1 as int, g.2 as int) {
                        crate::clear::lemma_cell_index_injective((grains[i].1 as int, grains[i].2 as int), (g.1 as int, g.2 as int));
                    }
                }
            }
        }
        assert forall|c: int, r: int| on_board(c, r)
            && !(exists|i: int| 0 <= i < grains.len() && #[trigger] grains[i].1 == c && grains[i].2 == r)
            implies #[trigger] lock_cells(cells, grains)[cell_index(c, r)] == cells[cell_index(c, r)] by {
            crate::board::lemma_cell_index(c, r);
            assert(!(grains[n].1 == c && grains[n].2 == r));
            if exists|i: int| 0 <= i < rest.len() && #[trigger] rest[i].1 == c && rest[i].2 == r {
                let i = choose|i: int| 0 <= i < rest.len() && #[trigger] rest[i].1 == c && rest[i].2 == r;
                assert(grains[i].1 == c && grains[i].2 == r);
            }
            if grain_on_board(g) {
                crate::board::lemma_cell_index(g.1 as int, g.2 as int);
                if cell_index(c, r) == cell_index(g.1 as int, g.2 as int) {
                    crate::clear::lemma_cell_index_injective((c, r), (g.1 as int, g.2 as int));
                }
            }
        }
    }
}

/// No grain id is recorded in two cells.
pub open spec fn ids_distinct(cells: Seq<Option<u64>>) -> bool {
    forall|i: int, j: int| 0 <= i < cells.len() && 0 <= j < cells.len() && i != j && (#[trigger] cells[i]) is Some
        ==> cells[i] != #[trigger] cells[j]
}

/// No two grains of the piece carry the same id, and no id of the piece is
/// recorded on the board.
pub open spec fn piece_ids_new(cells: Seq<Option<u64>>, grains: Seq<(u64, i32, i32)>) -> bool {
    &&& forall|i: int, j: int| 0 <= i < grains.len() && 0 <= j < grains.len() && i != j
        ==> (#[trigger] grains[i]).0 != (#[trigger] grains[j]).0
    &&& forall|i: int, k: int| 0 <= i < grains.len() && 0 <= k < cells.len()
        ==> #[trigger] cells[k] != Some((#[trigger] grains[i]).0)
}

/// Every cell of the piece is free on the board.
pub open spec fn piece_fits(cells: Seq<Option<u64>>, grains: Seq<(u64, i32, i32)>) -> bool {
    forall|i: int| 0 <= i < grains.len() ==> free_at(cells, (#[trigger] grains[i]).1 as int, grains[i].2 as int)
}

/// When every cell of the piece is free and the piece can fall one row, every
/// cell it falls into is free too: falling keeps the piece clear of the board.
pub proof fn lemma_fall_keeps_piece_clear(cells: Seq<Option<u64>>, grains: Seq<(u64, i32, i32)>)
    requires
        piece_fits(cells, grains),
        can_drop_spec(cells, grains, 1),
    ensures
        piece_fits(cells, dropped_by(grains, 1)),
{
    lemma_drop_keeps_piece_clear(cells, grains, 1);
}

/// When every cell of the piece is free and the piece can drop `d` rows, every
/// cell it drops into is free too; in particular a hard drop lands on free cells.
pub proof fn lemma_drop_keeps_piece_clear(cells: Seq<Option<u64>>, grains: Seq<(u64, i32, i32)>, d: int)
    requires
        piece_fits(cells, grains),
        d >= 0,
        d == 0 || can_drop_spec(cells, grains, d),
    ensures
        piece_fits(cells, dropped_by(grains, d)),
{
    assert forall|i: int| 0 <= i < grains.len() implies
        free_at(cells, (#[trigger] dropped_by(grains, d)[i]).1 as int, dropped_by(grains, d)[i].2 as int) by {
        assert(dropped_by(grains, d)[i] == (grains[i].0, grains[i].1, (grains[i].2 - d) as i32));
        if d == 0 {
            assert(dropped_by(grains, d)[i] == grains[i]);
        } else {
            assert(grains[i].2 - d >= 0 && target_ok(cells, grains, grains[i].1 as int, grains[i].2 - d));
            assert((grains[i].2 - d) as i32 == grains[i].2 - d);
            if occupied_by(grains, grains[i].1 as int, grains[i].2 - d) {
                let j = choose|j: int| 0 <= j < grains.len() && #[trigger] grains[j].1 == grains[i].1 as int
                    && grains[j].2 == grains[i].2 - d;
                assert(free_at(cells, grains[j].1 as int, grains[j].2 as int));
            }
        }
    }
}

/// Locking a piece keeps the board consistent: when the board records no id
/// twice, the piece's grains sit in free cells and carry fresh, distinct ids,
/// then after locking no id is recorded twice, every grain already on the board
/// is still in its cell, and each cell either reads as before or holds a grain
/// of the piece that was locked there (where two grains of the piece share a
/// cell, the later one is recorded).
pub proof fn lemma_lock_keeps_board_consistent(cells: Seq<Option<u64>>, grains: Seq<(u64, i32, i32)>)
    requires
        cells.len() == crate::board::CELL_COUNT,
        ids_distinct(cells),
        piece_ids_new(cells, grains),
        piece_fits(cells, grains),
    ensures
        lock_cells(cells, grains).len() == crate::board::CELL_COUNT,
        ids_distinct(lock_cells(cells, grains)),
        forall|k: int| 0 <= k < cells.len() && (#[trigger] cells[k]) is Some ==> lock_cells(cells, grains)[k] == cells[k],
        forall|k: int| 0 <= k < cells.len() ==> #[trigger] lock_cells(cells, grains)[k] == cells[k]
            || exists|i: int| 0 <= i < grains.len() && grain_on_board(#[trigger] grains[i])
                && k == cell_index(grains[i].1 as int, grains[i].2 as int) && lock_cells(cells, grains)[k] == Some(grains[i].0),
    decreases grains.len(),
{
    lemma_lock_cells_len(cells, grains);
    if grains.len() > 0 {
        let n = grains.len() - 1;
        let rest = grains.drop_last();
        let g = grains[n];
        assert(piece_ids_new(cells, rest)) by {
            assert forall|i: int, j: int| 0 <= i < rest.len() && 0 <= j < rest.len() && i != j
                implies (#[trigger] rest[i]).0 != (#[trigger] rest[j]).0 by {
                assert(rest[i] == grains[i] && rest[j] == grains[j]);
            }
            assert forall|i: int, k: int| 0 <= i < rest.len() && 0 <= k < cells.len()
                implies #[trigger] cells[k] != Some((#[trigger] rest[i]).0) by {
                assert(rest[i] == grains[i]);
            }
        }
        assert(piece_fits(cells, rest)) by {
            assert forall|i: int| 0 <= i < rest.len() implies free_at(cells, (#[trigger] rest[i]).1 as int, rest[i].2 as int) by {
                assert(rest[i] == grains[i]);
            }
        }
        lemma_lock_keeps_board_consistent(cells, rest);
        let before = lock_cells(cells, rest);
        let after = lock_cells(cells, grains);
        if grain_on_board(g) {
            let k0 = cell_index(g.1 as int, g.2 as int);
            crate::board::lemma_cell_index(g.1 as int, g.2 as int);
            assert(free_at(cells, g.1 as int, g.2 as int));
            assert(cells[k0] is None);
            // The id of the last grain is nowhere on the board yet.
            assert forall|k: int| 0 <= k < before.len() implies before[k] != Some(g.0) by {
                if before[k] != cells[k] {
                    let i = choose|i: int| 0 <= i < rest.len() && grain_on_board(#[trigger] rest[i])
                        && k == cell_index(rest[i].1 as int, rest[i].2 as int) && before[k] == Some(rest[i].0);
                    assert(rest[i] == grains[i]);
                    assert(grains[i].0 != grains[n].0);
                } else {
                    assert(cells[k] != Some(grains[n].0));
                }
            }
            assert(after == before.update(k0, Some(g.0)));
            assert forall|i: int, j: int| 0 <= i < after.len() && 0 <= j < after.len() && i != j && (#[trigger] after[i]) is Some
                implies after[i] != #[trigger] after[j] by {
                if i != k0 && j != k0 {
                    assert(before[i] != before[j]);
                } else if i == k0 {
                    assert(before[j] != Some(g.0));
                } else {
                    assert(before[i] != Some(g.0));
                }
            }
            assert forall|k: int| 0 <= k < cells.len() implies #[trigger] after[k] == cells[k]
                || exists|i: int| 0 <= i < grains.len() && grain_on_board(#[trigger] grains[i])
                    && k == cell_index(grains[i].1 as int, grains[i].2 as int) && after[k] == Some(grains[i].0) by {
                if k == k0 {
                    assert(grain_on_board(grains[n]) && after[k] == Some(grains[n].0));
                } else if before[k] != cells[k] {
                    let i = choose|i: int| 0 <= i < rest.len() && grain_on_board(#[trigger] rest[i])
                        && k == cell_index(rest[i].1 as int, rest[i].2 as int) && before[k] == Some(rest[i].0);
                    assert(rest[i] == grains[i]);
                }
            }
        } else {
            assert(after == before);
            assert forall|k: int| 0 <= k < cells.len() implies #[trigger] after[k] == cells[k]
                || exists|i: int| 0 <= i < grains.len() && grain_on_board(#[trigger] grains[i])
                    && k == cell_index(grains[i].1 as int, grains[i].2 as int) && after[k] == Some(grains[i].0) by {
                if before[k] != cells[k] {
                    let i = choose|i: int| 0 <= i < rest.len() && grain_on_board(#[trigger] rest[i])
                        && k == cell_index(rest[i].1 as int, rest[i].2 as int) && before[k] == Some(rest[i].0);
                    assert(rest[i] == grains[i]);
                }
            }
        }
        assert forall|k: int| 0 <= k < cells.len() && (#[trigger] cells[k]) is Some implies after[k] == cells[k] by {
            if after[k] != cells[k] {
                let i = choose|i: int| 0 <= i < grains.len() && grain_on_board(#[trigger] grains[i])
                    && k == cell_index(grains[i].1 as int, grains[i].2 as int) && after[k] == Some(grains[i].0);
                assert(free_at(cells, grains[i].1 as int, grains[i].2 as int));
            }
        }
    }
}

/// Locks the piece into the board: every grain on the board is recorded in its
/// cell; a grain off the board (beside the walls, below the floor or above the
/// top) is not, and ends the game. Returns, per grain, whether it was placed.
pub fn lock_piece(board: &mut BoardGrid, status: &mut GameStatus, grains: &Vec<(u64, i32, i32)>) -> (placed: Vec<bool>)
    requires
        old(board).wf(),
    ensures
        final(board).wf(),
        final(board)@ == lock_cells(old(board)@, grains@),
        placed@.len() == grains@.len(),
        forall|i: int| 0 <= i < grains@.len() ==> #[trigger] placed@[i] == grain_on_board(grains@[i]),
        final(status).score == old(status).score,
        final(status).is_game_over == (old(status).is_game_over || any_off_board(grains@)),
{
    let ghost start = board@;
    let mut placed: Vec<bool> = Vec::new();
    let mut overflowed_top = false;
    let mut i: usize = 0;
    while i < grains.len()
        invariant
            board.wf(),
            i <= grains@.len(),
            start.len() == crate::board::CELL_COUNT,
            board@ == lock_cells(start, grains@.take(i as int)),
            placed@.len() == i,
            forall|j: int| 0 <= j < i ==> #[trigger] placed@[j] == grain_on_board(grains@[j]),
            overflowed_top == exists|j: int| 0 <= j < i && !grain_on_board(#[trigger] grains@[j]),
        decreases grains@.len() - i,
    {
        let (entity, col, row) = grains[i];
        assert(grains@.take(i + 1).drop_last() =~= grains@.take(i as int));
        assert(grains@.take(i + 1).last() == grains@[i as int]);
        if col < 0 || col >= BOARD_WIDTH || row < 0 || row >= BOARD_HEIGHT {
            overflowed_top = true;
            placed.push(false);
        } else {
            board.set(col as usize, row as usize, entity);
            placed.push(true);
        }
        i = i + 1;
    }
    assert(grains@.take(grains@.len() as int) =~= grains@);
    if overflowed_top {
        status.is_game_over = true;
    }
    placed
}

/// The piece moved `d` rows down.
pub open spec fn dropped_by(grains: Seq<(u64, i32, i32)>, d: int) -> Seq<(u64, i32, i32)> {
    Seq::new(grains.len(), |i: int| (grains[i].0, grains[i].1, (grains[i].2 - d) as i32))
}

/// The piece moved `d` rows down, for `d` no larger than the lowest row.
pub(crate) fn drop_rows(grains: &Vec<(u64, i32, i32)>, d: i32) -> (res: Vec<(u64, i32, i32)>)
    requires
        d >= 0,
        forall|i: int| 0 <= i < grains@.len() ==> #[trigger] grains@[i].2 - d >= i32::MIN,
    ensures
        res@ == dropped_by(grains@, d as int),
{
    let mut res: Vec<(u64, i32, i32)> = Vec::new();
    let mut i: usize = 0;
    while i < grains.len()
        invariant
            d >= 0,
            i <= grains@.len(),
            forall|j: int| 0 <= j < grains@.len() ==> #[trigger] grains@[j].2 - d >= i32::MIN,
            res@.len() == i,
            forall|j: int| 0 <= j < i ==> #[trigger] res@[j] == dropped_by(grains@, d as int)[j],
        decreases grains@.len() - i,
    {
        let (e, c, r) = grains[i];
        res.push((e, c, r - d));
        i = i + 1;
    }
    assert(res@ =~= dropped_by(grains@, d as int));
    res
}

/// Hard drop: the piece falls by its drop distance and locks there (see
/// `lock_piece`). Returns the distance and, per grain, whether it was placed.
pub fn hard_drop(board: &mut BoardGrid, status: &mut GameStatus, grains: &Vec<(u64, i32, i32)>) -> (res: (i32, Vec<bool>))
    requires
        old(board).wf(),
        grains@.len() > 0,
    ensures
        final(board).wf(),
        is_drop_distance(old(board)@, grains@, res.0 as int),
        final(board)@ == lock_cells(old(board)@, dropped_by(grains@, res.0 as int)),
        res.1@.len() == grains@.len(),
        forall|i: int| 0 <= i < grains@.len() ==> #[trigger] res.1@[i]
            == grain_on_board(dropped_by(grains@, res.0 as int)[i]),
        final(status).score == old(status).score,
        final(status).is_game_over == (old(status).is_game_over || any_off_board(dropped_by(grains@, res.0 as int))),
{
    let d = hard_drop_distance(board, grains);
    if d > 0 {
        assert(can_drop_spec(board@, grains@, d as int));
    }
    assert forall|i: int| 0 <= i < grains@.len() implies #[trigger] grains@[i].2 - d >= i32::MIN by {
        if d > 0 {
            assert(grains@[i].2 - d >= 0);
        }
    }
    let moved = drop_rows(grains, d);
    let placed = lock_piece(board, status, &moved);
    (d, placed)
}


/// What one tick of gravity did to the falling piece.
#[derive(Debug, PartialEq, Eq)]
pub enum FallOutcome {
    /// Nothing happened: the game is over or there is no falling piece.
    Idle,
    /// Every grain moved one row down.
    Fell,
    /// The piece could not fall and was locked; per grain, whether it was placed.
    Locked(Vec<bool>),
}

/// One tick of gravity: the piece falls one row if every grain can, and
/// otherwise locks into the board (see `lock_piece`).
pub fn falling_system(board: &mut BoardGrid, status: &mut GameStatus, grains: &Vec<(u64, i32, i32)>) -> (o: FallOutcome)
    requires
        old(board).wf(),
    ensures
        final(board).wf(),
        final(status).score == old(status).score,
        if old(status).is_game_over || grains@.len() == 0 {
            &&& o is Idle
            &&& final(board)@ == old(board)@
            &&& final(status).is_game_over == old(status).is_game_over
        } else if can_drop_spec(old(board)@, grains@, 1) {
            &&& o is Fell
            &&& final(board)@ == old(board)@
            &&& final(status).is_game_over == old(status).is_game_over
        } else {
            &&& o matches FallOutcome::Locked(placed) && placed@.len() == grains@.len()
                && forall|i: int| 0 <= i < grains@.len() ==> #[trigger] placed@[i] == grain_on_board(grains@[i])
            &&& final(board)@ == lock_cells(old(board)@, grains@)
            &&& final(status).is_game_over == any_off_board(grains@)
        },
{
    if status.is_game_over || grains.len() == 0 {
        return FallOutcome::Idle;
    }
    if can_drop(board, grains, 1) {
        return FallOutcome::Fell;
    }
    let placed = lock_piece(board, status, grains);
    FallOutcome::Locked(placed)
}

/// The ghost preview: per grain, the row it would land on after a hard drop,
/// or `None` where that row is off the board. Empty for an empty piece.
pub fn ghost_system(board: &BoardGrid, pieces: &Vec<(u64, i32, i32)>) -> (rows: Vec<Option<i32>>)
    requires
        board.wf(),
    ensures
        rows@.len() == pieces@.len(),
        pieces@.len() > 0 ==> exists|d: int| #[trigger] is_drop_distance(board@, pieces@, d)
            && forall|i: int| 0 <= i < pieces@.len() ==> #[trigger] rows@[i]
                == if 0 <= pieces@[i].2 - d < BOARD_HEIGHT { Some((pieces@[i].2 - d) as i32) } else { None },
{
    let mut rows: Vec<Option<i32>> = Vec::new();
    if pieces.len() == 0 {
        return rows;
    }
    let d = hard_drop_distance(board, pieces);
    let mut i: usize = 0;
    while i < pieces.len()
        invariant
            i <= pieces@.len(),
            d >= 0,
            rows@.len() == i,
            forall|j: int| 0 <= j < i ==> #[trigger] rows@[j]
                == if 0 <= pieces@[j].2 - d < BOARD_HEIGHT { Some((pieces@[j].2 - d) as i32) } else { None },
        decreases pieces@.len() - i,
    {
        let r = pieces[i].2 as i64 - d as i64;
        if 0 <= r && r < BOARD_HEIGHT as i64 {
            rows.push(Some(r as i32));
        } else {
            rows.push(None);
        }
        i = i + 1;
    }
    rows
}

/// Sum of the columns of the first `n` grains.
pub open spec fn sum_cols(pieces: Seq<(u64, i32, i32)>, n: int) -> int
    decreases n,
{
    if n <= 0 { 0 } else { sum_cols(pieces, n - 1) + pieces[n - 1].1 }
}

/// Sum of the rows of the first `n` grains.
pub open spec fn sum_rows(pieces: Seq<(u64, i32, i32)>, n: int) -> int
    decreases n,
{
    if n <= 0 { 0 } else { sum_rows(pieces, n - 1) + pieces[n - 1].2 }
}

/// `s / n` rounded to the nearest integer, halves away from zero.
pub open spec fn round_div(s: int, n: int) -> int {
    if s >= 0 {
        (2 * s + n) / (2 * n)
    } else {
        -((-2 * s + n) / (2 * n))
    }
}

/// The pivot of a quarter turn: the piece's centre of mass, rounded.
pub open spec fn pivot_of(pieces: Seq<(u64, i32, i32)>) -> (int, int) {
    (round_div(sum_cols(pieces, pieces.len() as int), pieces.len() as int),
     round_div(sum_rows(pieces, pieces.len() as int), pieces.len() as int))
}

/// Where grain `g` goes under a clockwise quarter turn about `p`: the offset
/// (dc, dr) from the pivot becomes (dr, -dc).
pub open spec fn turned(p: (int, int), g: (u64, i32, i32)) -> (int, int) {
    (p.0 + (g.2 - p.1), p.1 - (g.1 - p.0))
}

/// Whether `x` fits in an `i32`.
pub open spec fn fits_i32(x: int) -> bool {
    i32::MIN <= x <= i32::MAX
}

/// Whether grain `i`'s turned position fits in `i32` coordinates.
pub open spec fn turn_fits_at(pieces: Seq<(u64, i32, i32)>, i: int) -> bool {
    fits_i32(turned(pivot_of(pieces), pieces[i]).0) && fits_i32(turned(pivot_of(pieces), pieces[i]).1)
}

/// Whether every grain's turned position fits in `i32` coordinates.
pub open spec fn turn_fits(pieces: Seq<(u64, i32, i32)>) -> bool {
    forall|i: int| 0 <= i < pieces.len() ==> #[trigger] turn_fits_at(pieces, i)
}

/// Whether grain `i` may move to its turned position.
pub open spec fn turn_ok_at(cells: Seq<Option<u64>>, pieces: Seq<(u64, i32, i32)>, i: int) -> bool {
    target_ok(cells, pieces, turned(pivot_of(pieces), pieces[i]).0, turned(pivot_of(pieces), pieces[i]).1)
}

/// Whether every grain may move to its turned position.
pub open spec fn can_turn_spec(cells: Seq<Option<u64>>, pieces: Seq<(u64, i32, i32)>) -> bool {
    forall|i: int| 0 <= i < pieces.len() ==> #[trigger] turn_ok_at(cells, pieces, i)
}

/// The piece after a clockwise quarter turn about its pivot.
pub open spec fn turned_piece(pieces: Seq<(u64, i32, i32)>) -> Seq<(u64, i32, i32)> {
    Seq::new(pieces.len(), |i: int| (pieces[i].0, turned(pivot_of(pieces), pieces[i]).0 as i32,
        turned(pivot_of(pieces), pieces[i]).1 as i32))
}

proof fn lemma_round_div_bound(s: int, n: int)
    requires
        n >= 1,
    ensures
        -(if s >= 0 { s } else { -s }) - 1 <= round_div(s, n) <= (if s >= 0 { s } else { -s }) + 1,
{
    if s >= 0 {
        assert(0 <= (2 * s + n) / (2 * n) <= s + 1) by (nonlinear_arith)
            requires s >= 0, n >= 1;
    } else {
        assert(0 <= (-2 * s + n) / (2 * n) <= -s + 1) by (nonlinear_arith)
            requires s < 0, n >= 1;
    }
}

/// `s / n` rounded to the nearest integer, halves away from zero.
fn round_div_exec(s: i128, n: i128) -> (r: i128)
    requires
        n >= 1,
        -0x1000_0000_0000_0000_0000_0000_0000 <= s <= 0x1000_0000_0000_0000_0000_0000_0000,
        n <= 0x1_0000_0000_0000_0000,
    ensures
        r == round_div(s as int, n as int),
{
    proof {
        lemma_round_div_bound(s as int, n as int);
    }
    if s >= 0 {
        let q = ((2 * s + n) as u128) / ((2 * n) as u128);
        q as i128
    } else {
        let q = ((-2 * s + n) as u128) / ((2 * n) as u128);
        -(q as i128)
    }
}

/// The pivot of a quarter turn: the centre of mass of the grains, each
/// coordinate rounded to the nearest integer, halves away from zero.
pub fn pivot(pieces: &Vec<(u64, i32, i32)>) -> (p: (i128, i128))
    requires
        pieces@.len() > 0,
    ensures
        (p.0 as int, p.1 as int) == pivot_of(pieces@),
        -0x1_0000_0000_0000_0000_0000_0000 <= p.0 <= 0x1_0000_0000_0000_0000_0000_0000,
        -0x1_0000_0000_0000_0000_0000_0000 <= p.1 <= 0x1_0000_0000_0000_0000_0000_0000,
{
    let mut sc: i128 = 0;
    let mut sr: i128 = 0;
    let mut i: usize = 0;
    while i < pieces.len()
        invariant
            i <= pieces@.len(),
            sc == sum_cols(pieces@, i as int),
            sr == sum_rows(pieces@, i as int),
            -(i as int) * 0x8000_0000 <= sc <= (i as int) * 0x8000_0000,
            -(i as int) * 0x8000_0000 <= sr <= (i as int) * 0x8000_0000,
        decreases pieces@.len() - i,
    {
        sc = sc + pieces[i].1 as i128;
        sr = sr + pieces[i].2 as i128;
        i = i + 1;
    }
    let n = pieces.len() as i128;
    let pc = round_div_exec(sc, n);
    let pr = round_div_exec(sr, n);
    proof {
        lemma_round_div_bound(sc as int, n as int);
        lemma_round_div_bound(sr as int, n as int);
    }
    (pc, pr)
}

/// A quarter turn is a clockwise rotation, not a reflection: for any two grains
/// of the piece, the step (dx, dy) from the first to the second becomes
/// (dy, -dx), and every grain keeps its id. The grain on the pivot stays put,
/// and a grain one row above the pivot moves to one column right of it.
pub proof fn lemma_turn_rotates(pieces: Seq<(u64, i32, i32)>, i: int, j: int)
    requires
        turn_fits(pieces),
        0 <= i < pieces.len(),
        0 <= j < pieces.len(),
    ensures
        turned_piece(pieces)[i].0 == pieces[i].0,
        turned_piece(pieces)[j].1 - turned_piece(pieces)[i].1 == pieces[j].2 - pieces[i].2,
        turned_piece(pieces)[j].2 - turned_piece(pieces)[i].2 == pieces[i].1 - pieces[j].1,
        (pieces[i].1 as int, pieces[i].2 as int) == pivot_of(pieces)
            ==> (turned_piece(pieces)[i].1 as int, turned_piece(pieces)[i].2 as int) == pivot_of(pieces),
        (pieces[i].1 as int, pieces[i].2 as int) == (pivot_of(pieces).0, pivot_of(pieces).1 + 1)
            ==> (turned_piece(pieces)[i].1 as int, turned_piece(pieces)[i].2 as int) == (pivot_of(pieces).0 + 1, pivot_of(pieces).1),
{
    assert(turn_fits_at(pieces, i));
    assert(turn_fits_at(pieces, j));
}

/// Four quarter turns about a fixed point bring every cell back, and two of
/// them reflect it through that point (a half turn, not the identity).
pub proof fn lemma_turns_compose(p: (int, int), g: (u64, i32, i32))
    ensures
        ({
            let t1 = turned(p, g);
            let t2 = turned(p, (g.0, t1.0 as i32, t1.1 as i32));
            fits_i32(t1.0) && fits_i32(t1.1) ==> t2 == (2 * p.0 - g.1, 2 * p.1 - g.2)
        }),
        ({
            let t1 = turned(p, g);
            let t2 = turned(p, (g.0, t1.0 as i32, t1.1 as i32));
            let t3 = turned(p, (g.0, t2.0 as i32, t2.1 as i32));
            let t4 = turned(p, (g.0, t3.0 as i32, t3.1 as i32));
            fits_i32(t1.0) && fits_i32(t1.1) && fits_i32(t2.0) && fits_i32(t2.1) && fits_i32(t3.0) && fits_i32(t3.1)
                ==> t4 == (g.1 as int, g.2 as int)
        }),
{
}

/// A clockwise quarter turn of the piece about its pivot (see `pivot`): each
/// grain's offset (dc, dr) from the pivot becomes (dr, -dc). Returns the turned
/// piece when every grain may move to its turned position (a free cell or one
/// of the piece's own cells), and `None` when one may not, when a turned
/// coordinate does not fit in `i32`, or when the piece is empty.
pub fn try_rotate(board: &BoardGrid, pieces: &Vec<(u64, i32, i32)>) -> (res: Option<Vec<(u64, i32, i32)>>)
    requires
        board.wf(),
    ensures
        pieces@.len() == 0 ==> res is None,
        pieces@.len() > 0 ==> (res is Some <==> (turn_fits(pieces@) && can_turn_spec(board@, pieces@))),
        res matches Some(v) ==> v@ == turned_piece(pieces@),
        res matches Some(v) ==> v@.len() == pieces@.len() && forall|i: int, j: int|
            0 <= i < pieces@.len() && 0 <= j < pieces@.len() ==> {
                &&& (#[trigger] v@[i]).0 == pieces@[i].0
                &&& (#[trigger] v@[j]).1 - v@[i].1 == pieces@[j].2 - pieces@[i].2
                &&& v@[j].2 - v@[i].2 == pieces@[i].1 - pieces@[j].1
            },
{
    if pieces.len() == 0 {
        return None;
    }
    let (pc, pr) = pivot(pieces);
    let ghost p = pivot_of(pieces@);
    let mut out: Vec<(u64, i32, i32)> = Vec::new();
    let mut i: usize = 0;
    while i < pieces.len()
        invariant
            board.wf(),
            pieces@.len() > 0,
            p == pivot_of(pieces@),
            (pc as int, pr as int) == p,
            -0x1_0000_0000_0000_0000_0000_0000 <= pc <= 0x1_0000_0000_0000_0000_0000_0000,
            -0x1_0000_0000_0000_0000_0000_0000 <= pr <= 0x1_0000_0000_0000_0000_0000_0000,
            i <= pieces@.len(),
            out@.len() == i,
            forall|j: int| 0 <= j < i ==> #[trigger] turn_fits_at(pieces@, j),
            forall|j: int| 0 <= j < i ==> #[trigger] turn_ok_at(board@, pieces@, j),
            forall|j: int| 0 <= j < i ==> #[trigger] out@[j] == turned_piece(pieces@)[j],
        decreases pieces@.len() - i,
    {
        let (e, c, r) = pieces[i];
        let nc = pc + (r as i128 - pr);
        let nr = pr - (c as i128 - pc);
        assert((nc as int, nr as int) == turned(p, pieces@[i as int]));
        if nc < i32::MIN as i128 || nc > i32::MAX as i128 || nr < i32::MIN as i128 || nr > i32::MAX as i128 {
            assert(!turn_fits_at(pieces@, i as int));
            return None;
        }
        if !target_free(board, pieces, nc as i64, nr as i64) {
            assert(!turn_ok_at(board@, pieces@, i as int));
            return None;
        }
        assert(turn_fits_at(pieces@, i as int));
        assert(turn_ok_at(board@, pieces@, i as int));
        out.push((e, nc as i32, nr as i32));
        i = i + 1;
    }
    assert(out@ =~= turned_piece(pieces@));
    assert(turn_fits(pieces@));
    assert forall|i: int, j: int| 0 <= i < pieces@.len() && 0 <= j < pieces@.len() implies {
        &&& (#[trigger] out@[i]).0 == pieces@[i].0
        &&& (#[trigger] out@[j]).1 - out@[i].1 == pieces@[j].2 - pieces@[i].2
        &&& out@[j].2 - out@[i].2 == pieces@[i].1 - pieces@[j].1
    } by {
        lemma_turn_rotates(pieces@, i, j);
    }
    Some(out)
}

} // verus!
