//! Sand physics: settled grains fall straight down into an empty cell, or else
//! slide diagonally down, trying one diagonal and then the other.
use vstd::prelude::*;
use crate::board::{cell_index, free_at, lemma_cell_index, on_board, BoardGrid, CELL_COUNT};
use crate::constants::{BOARD_HEIGHT, BOARD_WIDTH};
use crate::random::random_coin;
use crate::resources::GameStatus;

verus! {

/// `cells` with the grain `e` moved from (`fc`, `fr`) to (`tc`, `tr`).
pub open spec fn moved(cells: Seq<Option<u64>>, fc: int, fr: int, tc: int, tr: int, e: u64) -> Seq<Option<u64>> {
    cells.update(cell_index(fc, fr), None).update(cell_index(tc, tr), Some(e))
}

/// One grain's step at (`c`, `r`): if the cell below is free the grain falls
/// into it; otherwise it tries the lower-left cell first when `left_first`
/// (else the lower-right), then the other lower diagonal; if none is free, or
/// the grain is on the bottom row, or there is no grain, nothing changes.
pub open spec fn settle_cell(cells: Seq<Option<u64>>, c: int, r: int, left_first: bool) -> Seq<Option<u64>> {
    match cells[cell_index(c, r)] {
        None => cells,
        Some(e) => if r > 0 && free_at(cells, c, r - 1) {
            moved(cells, c, r, c, r - 1, e)
        } else if r > 0 {
            let first: int = if left_first { -1 } else { 1 };
            if free_at(cells, c + first, r - 1) {
                moved(cells, c, r, c + first, r - 1, e)
            } else if free_at(cells, c - first, r - 1) {
                moved(cells, c, r, c - first, r - 1, e)
            } else {
                cells
            }
        } else {
            cells
        },
    }
}

/// What one grain's step does, stated cell by cell. A grain with a free cell
/// below falls straight into it. A grain that cannot fall straight but has a
/// free lower diagonal always moves into one: the lower-left when it tries left
/// first and that cell is free, the lower-right when it tries right first and
/// that cell is free, and otherwise the other one; the choice only decides the
/// order, as mirroring demands. A grain on the bottom row, or blocked below and
/// on both lower diagonals, stays. No other cell changes.
pub proof fn lemma_settle_moves(cells: Seq<Option<u64>>, c: int, r: int, left_first: bool, e: u64)
    requires
        cells.len() == CELL_COUNT,
        on_board(c, r),
        cells[cell_index(c, r)] == Some(e),
    ensures
        ({
            let res = settle_cell(cells, c, r, left_first);
            let below = r > 0 && free_at(cells, c, r - 1);
            let left = r > 0 && free_at(cells, c - 1, r - 1);
            let right = r > 0 && free_at(cells, c + 1, r - 1);
            let dest: int = if below { c } else if left && (left_first || !right) { c - 1 }
                else if right { c + 1 } else { c };
            &&& res.len() == CELL_COUNT
            &&& below ==> res[cell_index(c, r - 1)] == Some(e)
            &&& !below && left && (left_first || !right) ==> res[cell_index(c - 1, r - 1)] == Some(e)
            &&& !below && right && (!left_first || !left) ==> res[cell_index(c + 1, r - 1)] == Some(e)
            &&& (below || left || right) ==> res[cell_index(c, r)] is None
            &&& !(below || left || right) ==> res == cells
            &&& forall|a: int, b: int| on_board(a, b) && (a, b) != (c, r) && (a, b) != (dest, r - 1)
                ==> #[trigger] res[cell_index(a, b)] == cells[cell_index(a, b)]
        }),
{
    lemma_cell_index(c, r);
    let res = settle_cell(cells, c, r, left_first);
    let below = r > 0 && free_at(cells, c, r - 1);
    let left = r > 0 && free_at(cells, c - 1, r - 1);
    let right = r > 0 && free_at(cells, c + 1, r - 1);
    let dest: int = if below { c } else if left && (left_first || !right) { c - 1 }
        else if right { c + 1 } else { c };
    if below || left || right {
        lemma_cell_index(dest, r - 1);
        assert(free_at(cells, dest, r - 1));
        assert(res == moved(cells, c, r, dest, r - 1, e));
        assert(cell_index(dest, r - 1) != cell_index(c, r));
    }
    assert forall|a: int, b: int| on_board(a, b) && (a, b) != (c, r) && (a, b) != (dest, r - 1)
        implies #[trigger] res[cell_index(a, b)] == cells[cell_index(a, b)] by {
        lemma_cell_index(a, b);
        if cell_index(a, b) == cell_index(c, r) {
            crate::clear::lemma_cell_index_injective((a, b), (c, r));
        }
        if below || left || right {
            if cell_index(a, b) == cell_index(dest, r - 1) {
                crate::clear::lemma_cell_index_injective((a, b), (dest, r - 1));
            }
        }
    }
}

/// The first `n` steps of one pass: cells are visited bottom row first, each
/// row from the left, and the grain at cell index `k` uses `choices[k]` to pick
/// which diagonal it tries first.
pub open spec fn sand_pass(cells: Seq<Option<u64>>, choices: Seq<bool>, n: nat) -> Seq<Option<u64>>
    decreases n,
{
    if n == 0 {
        cells
    } else {
        let k = n - 1;
        settle_cell(sand_pass(cells, choices, (n - 1) as nat), k % 80, k / 80, choices[k])
    }
}

/// Moving a grain into an empty cell neither creates nor destroys grains.
proof fn lemma_update_multiset(s: Seq<Option<u64>>, i: int, x: Option<u64>)
    requires
        0 <= i < s.len(),
    ensures
        s.update(i, x).to_multiset() =~= s.to_multiset().remove(s[i]).insert(x),
{
    broadcast use vstd::seq_lib::group_to_multiset_ensures;
    let u = s.update(i, x);
    assert(u.remove(i) =~= s.remove(i));
    assert(u.to_multiset().remove(u[i]) =~= s.to_multiset().remove(s[i]));
    assert(u.contains(x)) by {
        assert(u[i] == x);
    }
    assert(u.to_multiset().count(x) > 0);
    assert(u.to_multiset() =~= u.to_multiset().remove(x).insert(x));
}

/// One grain's step keeps every grain on the board.
pub proof fn lemma_settle_keeps_grains(cells: Seq<Option<u64>>, c: int, r: int, left_first: bool)
    requires
        cells.len() == CELL_COUNT,
        on_board(c, r),
    ensures
        settle_cell(cells, c, r, left_first).to_multiset() == cells.to_multiset(),
        settle_cell(cells, c, r, left_first).len() == CELL_COUNT,
{
    broadcast use vstd::seq_lib::group_to_multiset_ensures;
    lemma_cell_index(c, r);
    let res = settle_cell(cells, c, r, left_first);
    if let Some(e) = cells[cell_index(c, r)] {
        if r > 0 {
            let first: int = if left_first { -1 } else { 1 };
            let tc: int = if free_at(cells, c, r - 1) {
                c
            } else if free_at(cells, c + first, r - 1) {
                c + first
            } else {
                c - first
            };
            if free_at(cells, tc, r - 1) {
                lemma_cell_index(tc, r - 1);
                let m1 = cells.update(cell_index(c, r), None);
                lemma_update_multiset(cells, cell_index(c, r), None);
                lemma_update_multiset(m1, cell_index(tc, r - 1), Some(e));
                assert(m1[cell_index(tc, r - 1)] is None);
                assert(res == m1.update(cell_index(tc, r - 1), Some(e)));
                assert(cells.to_multiset().count(Some(e)) > 0) by {
                    assert(cells.contains(Some(e)));
                }
                assert(res.to_multiset() =~= cells.to_multiset());
            }
        }
    }
}

/// A pass of the sand physics never creates or destroys a grain: the board
/// holds the same grains, as a multiset of cell contents, before and after.
pub proof fn lemma_sand_pass_keeps_grains(cells: Seq<Option<u64>>, choices: Seq<bool>, n: nat)
    requires
        cells.len() == CELL_COUNT,
        n <= CELL_COUNT,
    ensures
        sand_pass(cells, choices, n).to_multiset() == cells.to_multiset(),
        sand_pass(cells, choices, n).len() == CELL_COUNT,
    decreases n,
{
    if n > 0 {
        let k = n - 1;
        lemma_sand_pass_keeps_grains(cells, choices, (n - 1) as nat);
        lemma_scan_position(k);
        lemma_settle_keeps_grains(sand_pass(cells, choices, (n - 1) as nat), k % 80, k / 80, choices[k]);
    }
}

/// Scan position `k` names the board cell (`k % 80`, `k / 80`), whose index is `k`.
proof fn lemma_scan_position(k: int)
    requires
        0 <= k < CELL_COUNT,
    ensures
        on_board(k % 80, k / 80),
        cell_index(k % 80, k / 80) == k,
{
    assert(0 <= k % 80 < 80 && 0 <= k / 80 < 176 && (k / 80) * 80 + k % 80 == k) by (nonlinear_arith)
        requires 0 <= k < 14080;
}

/// A pass reads only the first `n` choices.
proof fn lemma_sand_pass_prefix(cells: Seq<Option<u64>>, a: Seq<bool>, b: Seq<bool>, n: nat)
    requires
        forall|k: int| 0 <= k < n ==> a[k] == b[k],
    ensures
        sand_pass(cells, a, n) == sand_pass(cells, b, n),
    decreases n,
{
    if n > 0 {
        lemma_sand_pass_prefix(cells, a, b, (n - 1) as nat);
    }
}

/// Applies one grain's step at (`col`, `row`).
fn settle(board: &mut BoardGrid, col: usize, row: usize, left_first: bool)
    requires
        old(board).wf(),
        on_board(col as int, row as int),
    ensures
        final(board).wf(),
        final(board)@ == settle_cell(old(board)@, col as int, row as int, left_first),
{
    proof {
        lemma_cell_index(col as int, row as int);
    }
    let entity = match board.get(col, row) {
        Some(e) => e,
        None => return,
    };
    if row == 0 {
        return;
    }
    let c = col as i64;
    let r = row as i64;
    if board.is_free_at(c, r - 1) {
        board.clear_cell(col, row);
        board.set(col, row - 1, entity);
        return;
    }
    let first: i64 = if left_first { -1 } else { 1 };
    if board.is_free_at(c + first, r - 1) {
        board.clear_cell(col, row);
        board.set((c + first) as usize, row - 1, entity);
        return;
    }
    if board.is_free_at(c - first, r - 1) {
        board.clear_cell(col, row);
        board.set((c - first) as usize, row - 1, entity);
    }
}

/// One pass of the sand physics with the diagonal choices given: cells are
/// visited bottom row first, each row from the left, and the grain found at
/// cell index `k` tries the lower-left diagonal first exactly when `choices[k]`.
pub fn sand_step_with(board: &mut BoardGrid, choices: &Vec<bool>)
    requires
        old(board).wf(),
        choices@.len() == CELL_COUNT,
    ensures
        final(board).wf(),
        final(board)@ == sand_pass(old(board)@, choices@, CELL_COUNT as nat),
{
    let ghost start = board@;
    let mut row: usize = 0;
    while row < BOARD_HEIGHT as usize
        invariant
            board.wf(),
            row <= BOARD_HEIGHT,
            choices@.len() == CELL_COUNT,
            board@ == sand_pass(start, choices@, (row * 80) as nat),
        decreases BOARD_HEIGHT - row,
    {
        let mut col: usize = 0;
        while col < BOARD_WIDTH as usize
            invariant
                board.wf(),
                row < BOARD_HEIGHT,
                col <= BOARD_WIDTH,
                choices@.len() == CELL_COUNT,
                board@ == sand_pass(start, choices@, (row * 80 + col) as nat),
            decreases BOARD_WIDTH - col,
        {
            proof {
                lemma_cell_index(col as int, row as int);
                lemma_scan_position(row * 80 + col);
            }
            settle(board, col, row, choices[row * (BOARD_WIDTH as usize) + col]);
            col = col + 1;
        }
        row = row + 1;
    }
}

/// One pass of the sand physics, each grain that cannot fall straight down
/// tossing a fair coin for the diagonal it tries first. Whatever the coins
/// show, the result is a pass with some choice per cell.
pub fn sand_step(board: &mut BoardGrid, rng: &mut rand::rngs::ThreadRng)
    requires
        old(board).wf(),
    ensures
        final(board).wf(),
        exists|choices: Seq<bool>| choices.len() == CELL_COUNT
            && final(board)@ == #[trigger] sand_pass(old(board)@, choices, CELL_COUNT as nat),
{
    let ghost start = board@;
    let ghost mut choices: Seq<bool> = Seq::empty();
    let mut row: usize = 0;
    while row < BOARD_HEIGHT as usize
        invariant
            board.wf(),
            row <= BOARD_HEIGHT,
            choices.len() == row * 80,
            board@ == sand_pass(start, choices, (row * 80) as nat),
        decreases BOARD_HEIGHT - row,
    {
        let mut col: usize = 0;
        while col < BOARD_WIDTH as usize
            invariant
                board.wf(),
                row < BOARD_HEIGHT,
                col <= BOARD_WIDTH,
                choices.len() == row * 80 + col,
                board@ == sand_pass(start, choices, (row * 80 + col) as nat),
            decreases BOARD_WIDTH - col,
        {
            proof {
                lemma_cell_index(col as int, row as int);
                lemma_scan_position(row * 80 + col);
            }
            let occupied = board.get(col, row).is_some();
            let blocked = row > 0 && !board.is_free_at(col as i64, row as i64 - 1);
            let left_first = if occupied && blocked { random_coin(rng) } else { false };
            let ghost before = choices;
            proof {
                choices = choices.push(left_first);
                lemma_sand_pass_prefix(start, before, choices, (row * 80 + col) as nat);
            }
            settle(board, col, row, left_first);
            col = col + 1;
        }
        row = row + 1;
    }
    assert(board@ == sand_pass(start, choices, CELL_COUNT as nat));
}


/// The sand physics of one tick: a pass of `sand_step`, except while the game
/// is over or a clear is showing, when the board stays as it is.
pub fn sand_physics_system(board: &mut BoardGrid, status: &GameStatus, clear_pending: bool, rng: &mut rand::rngs::ThreadRng)
    requires
        old(board).wf(),
    ensures
        final(board).wf(),
        status.is_game_over || clear_pending ==> final(board)@ == old(board)@,
        !(status.is_game_over || clear_pending) ==> exists|choices: Seq<bool>| choices.len() == CELL_COUNT
            && final(board)@ == #[trigger] sand_pass(old(board)@, choices, CELL_COUNT as nat),
{
    if status.is_game_over || clear_pending {
        return;
    }
    sand_step(board, rng);
}

} // verus!
