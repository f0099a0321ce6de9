//! New pieces: where a piece appears, whether it fits, the preview of the
//! upcoming pieces, and choosing one of them.
use vstd::prelude::*;
use crate::board::{free_at, BoardGrid};
use crate::constants::{BOARD_HEIGHT, BOARD_WIDTH};
use crate::random::random_in_range;
use crate::resources::{GameStatus, NextPieceQueue};
use crate::types::{grain_offset, mino_cells, GrainColor, TetrominoShape, GRAINS_PER_PIECE};

verus! {

/// Smaller of two integers.
pub open spec fn min2(a: int, b: int) -> int {
    if a <= b { a } else { b }
}

/// Larger of two integers.
pub open spec fn max2(a: int, b: int) -> int {
    if a >= b { a } else { b }
}

/// Leftmost mino column of a shape.
pub open spec fn min_mino_x(shape: TetrominoShape) -> int {
    let m = mino_cells(shape);
    min2(min2(m[0].0 as int, m[1].0 as int), min2(m[2].0 as int, m[3].0 as int))
}

/// Rightmost mino column of a shape.
pub open spec fn max_mino_x(shape: TetrominoShape) -> int {
    let m = mino_cells(shape);
    max2(max2(m[0].0 as int, m[1].0 as int), max2(m[2].0 as int, m[3].0 as int))
}

/// Leftmost anchor column at which every grain of the shape is on the board.
pub open spec fn anchor_min(shape: TetrominoShape) -> int {
    -(8 * min_mino_x(shape))
}

/// Rightmost anchor column at which every grain of the shape is on the board.
pub open spec fn anchor_max(shape: TetrominoShape) -> int {
    BOARD_WIDTH - 1 - (8 * max_mino_x(shape) + 7)
}

/// The row of the piece anchor when a piece appears: two rows below the top.
pub open spec fn spawn_row() -> int {
    BOARD_HEIGHT - 2
}

/// Cell of grain `k` of a new piece anchored at column `anchor`.
pub open spec fn spawn_cell(shape: TetrominoShape, anchor: int, k: int) -> (int, int) {
    (anchor + grain_offset(shape, k).0, spawn_row() + grain_offset(shape, k).1)
}

/// Some grain of a new piece anchored at `anchor` would sit on a settled grain.
pub open spec fn spawn_blocked(cells: Seq<Option<u64>>, shape: TetrominoShape, anchor: int) -> bool {
    exists|k: int| 0 <= k < GRAINS_PER_PIECE && !free_at(cells, #[trigger] spawn_cell(shape, anchor, k).0, spawn_cell(shape, anchor, k).1)
}

/// The grain cells of a new piece anchored at `anchor`, in the order of `offsets`.
pub open spec fn spawn_cells(shape: TetrominoShape, anchor: int) -> Seq<(i32, i32)> {
    Seq::new(GRAINS_PER_PIECE as nat, |k: int| (spawn_cell(shape, anchor, k).0 as i32, spawn_cell(shape, anchor, k).1 as i32))
}

/// The smallest and largest x among `offsets`, or (0, 0) when there are none.
pub fn offset_x_bounds(offsets: &Vec<(i32, i32)>) -> (b: (i32, i32))
    ensures
        offsets@.len() == 0 ==> b == (0i32, 0i32),
        offsets@.len() > 0 ==> {
            &&& forall|k: int| 0 <= k < offsets@.len() ==> b.0 <= #[trigger] offsets@[k].0 <= b.1
            &&& exists|k: int| 0 <= k < offsets@.len() && #[trigger] offsets@[k].0 == b.0
            &&& exists|k: int| 0 <= k < offsets@.len() && #[trigger] offsets@[k].0 == b.1
        },
{
    if offsets.len() == 0 {
        return (0, 0);
    }
    let mut lo = offsets[0].0;
    let mut hi = offsets[0].0;
    let mut i: usize = 1;
    while i < offsets.len()
        invariant
            1 <= i <= offsets@.len(),
            forall|k: int| 0 <= k < i ==> lo <= #[trigger] offsets@[k].0 <= hi,
            exists|k: int| 0 <= k < i && #[trigger] offsets@[k].0 == lo,
            exists|k: int| 0 <= k < i && #[trigger] offsets@[k].0 == hi,
        decreases offsets@.len() - i,
    {
        let x = offsets[i].0;
        if x < lo {
            lo = x;
        }
        if x > hi {
            hi = x;
        }
        i = i + 1;
    }
    (lo, hi)
}

/// The x offsets of a shape's grains span from 8 times its leftmost mino column
/// to 8 times its rightmost mino column plus 7.
proof fn lemma_grain_x_bounds(shape: TetrominoShape, k: int)
    requires
        0 <= k < GRAINS_PER_PIECE,
    ensures
        8 * min_mino_x(shape) <= grain_offset(shape, k).0 <= 8 * max_mino_x(shape) + 7,
{
    let m = mino_cells(shape)[k / 64];
    assert(0 <= k / 64 < 4);
    assert(0 <= (k % 64) % 8 < 8);
    assert(min_mino_x(shape) <= m.0 <= max_mino_x(shape));
}

/// Grain `64 * j + d` of a shape lies `d` columns right of the left edge of mino `j`.
proof fn lemma_grain_x_at(shape: TetrominoShape, j: int, d: int)
    requires
        0 <= j < 4,
        0 <= d < 8,
    ensures
        grain_offset(shape, 64 * j + d).0 == 8 * mino_cells(shape)[j].0 + d,
{
    assert((64 * j + d) / 64 == j && ((64 * j + d) % 64) % 8 == d) by (nonlinear_arith)
        requires 0 <= j < 4, 0 <= d < 8;
}

/// The smallest and largest x offsets of a shape's grains.
proof fn lemma_offset_bounds(shape: TetrominoShape, offsets: Seq<(i32, i32)>, lo: int, hi: int)
    requires
        offsets.len() == GRAINS_PER_PIECE,
        forall|k: int| 0 <= k < GRAINS_PER_PIECE ==> #[trigger] offsets[k] == grain_offset(shape, k),
        forall|k: int| 0 <= k < offsets.len() ==> lo <= #[trigger] offsets[k].0 <= hi,
        exists|k: int| 0 <= k < offsets.len() && #[trigger] offsets[k].0 == lo,
        exists|k: int| 0 <= k < offsets.len() && #[trigger] offsets[k].0 == hi,
    ensures
        lo == 8 * min_mino_x(shape),
        hi == 8 * max_mino_x(shape) + 7,
{
    let kl = choose|k: int| 0 <= k < offsets.len() && #[trigger] offsets[k].0 == lo;
    lemma_grain_x_bounds(shape, kl);
    let kh = choose|k: int| 0 <= k < offsets.len() && #[trigger] offsets[k].0 == hi;
    lemma_grain_x_bounds(shape, kh);
    let m = mino_cells(shape);
    assert forall|j: int| 0 <= j < 4 implies lo <= 8 * (#[trigger] m[j]).0 && 8 * m[j].0 + 7 <= hi by {
        lemma_grain_x_at(shape, j, 0);
        lemma_grain_x_at(shape, j, 7);
        assert(lo <= offsets[64 * j].0);
        assert(offsets[64 * j + 7].0 <= hi);
    }
    assert(lo <= 8 * m[0].0 && lo <= 8 * m[1].0 && lo <= 8 * m[2].0 && lo <= 8 * m[3].0);
    assert(hi >= 8 * m[0].0 + 7 && hi >= 8 * m[1].0 + 7 && hi >= 8 * m[2].0 + 7 && hi >= 8 * m[3].0 + 7);
}

/// The range of anchor columns at which every grain of the shape lies between the walls.
pub fn anchor_range(shape: TetrominoShape) -> (r: (i32, i32))
    ensures
        r.0 == anchor_min(shape),
        r.1 == anchor_max(shape),
{
    let offsets = shape.offsets();
    let (lo, hi) = offset_x_bounds(&offsets);
    proof {
        lemma_offset_bounds(shape, offsets@, lo as int, hi as int);
    }
    (-lo, (BOARD_WIDTH - 1) - hi)
}

/// A new piece: its shape, its colour and the cells of its grains.
#[derive(Debug, PartialEq, Eq)]
pub struct SpawnedPiece {
    pub shape: TetrominoShape,
    pub color: GrainColor,
    pub cells: Vec<(i32, i32)>,
}

/// Places a new piece anchored at column `anchor`, its anchor row two rows
/// below the top. If any grain would sit on a settled grain the game is over
/// and nothing is placed; otherwise returns the grain cells.
pub fn spawn_at(board: &BoardGrid, status: &mut GameStatus, shape: TetrominoShape, anchor: i32) -> (res: Option<Vec<(i32, i32)>>)
    requires
        board.wf(),
        anchor_min(shape) <= anchor <= anchor_max(shape),
    ensures
        final(status).score == old(status).score,
        spawn_blocked(board@, shape, anchor as int) ==> res is None && final(status).is_game_over,
        !spawn_blocked(board@, shape, anchor as int) ==> (res matches Some(c) && c@ == spawn_cells(shape, anchor as int)
            && final(status).is_game_over == old(status).is_game_over),
{
    let offsets = shape.offsets();
    let mut cells: Vec<(i32, i32)> = Vec::new();
    let mut k: usize = 0;
    while k < offsets.len()
        invariant
            board.wf(),
            anchor_min(shape) <= anchor <= anchor_max(shape),
            *status == *old(status),
            offsets@.len() == GRAINS_PER_PIECE,
            forall|j: int| 0 <= j < GRAINS_PER_PIECE ==> #[trigger] offsets@[j] == grain_offset(shape, j),
            k <= GRAINS_PER_PIECE,
            cells@.len() == k,
            forall|j: int| 0 <= j < k ==> #[trigger] cells@[j] == spawn_cells(shape, anchor as int)[j],
            forall|j: int| 0 <= j < k ==> free_at(board@, #[trigger] spawn_cell(shape, anchor as int, j).0, spawn_cell(shape, anchor as int, j).1),
        decreases GRAINS_PER_PIECE - k,
    {
        let (ox, oy) = offsets[k];
        proof {
            lemma_grain_x_bounds(shape, k as int);
            assert(0 <= (k as int % 64) / 8 < 8);
            assert(0 <= mino_cells(shape)[k as int / 64].1 <= 1);
        }
        let col = anchor + ox;
        let row = (BOARD_HEIGHT - 2) + oy;
        if !board.is_free(col, row) {
            assert(!free_at(board@, spawn_cell(shape, anchor as int, k as int).0, spawn_cell(shape, anchor as int, k as int).1));
            status.is_game_over = true;
            return None;
        }
        cells.push((col, row));
        k = k + 1;
    }
    assert(cells@ =~= spawn_cells(shape, anchor as int));
    Some(cells)
}

/// A new piece of random shape and colour at a random anchor column where it
/// lies between the walls, unless the game is over. If the chosen spot is
/// blocked the game ends and no piece is returned.
pub fn spawn_piece_system(board: &BoardGrid, status: &mut GameStatus, rng: &mut rand::rngs::ThreadRng) -> (res: Option<SpawnedPiece>)
    requires
        board.wf(),
    ensures
        final(status).score == old(status).score,
        old(status).is_game_over ==> res is None && final(status).is_game_over,
        !old(status).is_game_over ==> exists|shape: TetrominoShape, anchor: int|
            anchor_min(shape) <= anchor <= anchor_max(shape)
            && #[trigger] spawn_blocked(board@, shape, anchor) == final(status).is_game_over
            && (res is None <==> spawn_blocked(board@, shape, anchor))
            && (res matches Some(p) ==> p.shape == shape && p.cells@ == spawn_cells(shape, anchor)),
{
    if status.is_game_over {
        return None;
    }
    let shape = TetrominoShape::random(rng);
    let color = GrainColor::random(rng);
    let (lo, hi) = anchor_range(shape);
    let anchor = random_in_range(rng, lo, hi + 1);
    let cells = spawn_at(board, status, shape, anchor);
    match cells {
        Some(cells) => {
            proof {
                assert(spawn_blocked(board@, shape, anchor as int) == final(status).is_game_over);
            }
            Some(SpawnedPiece { shape, color, cells })
        },
        None => {
            proof {
                assert(spawn_blocked(board@, shape, anchor as int) == final(status).is_game_over);
            }
            None
        },
    }
}


/// Whether cell (`col`, `row`) of a preview grid shows a mino of `shape`; the
/// minos are shifted so that the leftmost one is in column 0.
pub open spec fn preview_occupied(shape: TetrominoShape, col: int, row: int) -> bool {
    exists|j: int| 0 <= j < 4 && (#[trigger] mino_cells(shape)[j]).0 - min_mino_x(shape) == col
        && mino_cells(shape)[j].1 == row
}

/// The colour shown by cell (`col`, `row`) of the preview of upcoming piece
/// `slot`: the piece's colour where one of its minos is, and none elsewhere or
/// when there is no such upcoming piece.
pub fn preview_cell_color(queue: &NextPieceQueue, slot: usize, col: i32, row: i32) -> (c: Option<GrainColor>)
    ensures
        c == if slot < queue.pieces@.len() && preview_occupied(queue.pieces@[slot as int].0, col as int, row as int) {
            Some(queue.pieces@[slot as int].1)
        } else {
            None
        },
{
    broadcast use vstd::std_specs::vecdeque::group_vec_dequeue_axioms;
    if slot >= queue.pieces.len() {
        return None;
    }
    let (shape, grain_color) = queue.pieces[slot];
    assert(queue.pieces@[slot as int] == (shape, grain_color));
    let minos = shape.mino_offsets();
    let mut min_x = minos[0].0;
    let mut j: usize = 1;
    while j < 4
        invariant
            1 <= j <= 4,
            minos@ == mino_cells(shape),
            exists|i: int| 0 <= i < j && #[trigger] minos@[i].0 == min_x,
            forall|i: int| 0 <= i < j ==> min_x <= #[trigger] minos@[i].0,
        decreases 4 - j,
    {
        if minos[j].0 < min_x {
            min_x = minos[j].0;
        }
        j = j + 1;
    }
    assert(min_x == min_mino_x(shape));
    let mut k: usize = 0;
    while k < 4
        invariant
            k <= 4,
            minos@ == mino_cells(shape),
            min_x == min_mino_x(shape),
            slot < queue.pieces@.len(),
            queue.pieces@[slot as int] == (shape, grain_color),
            forall|i: int| 0 <= i < k ==> !(#[trigger] minos@[i].0 - min_x == col && minos@[i].1 == row),
        decreases 4 - k,
    {
        if minos[k].0 - min_x == col && minos[k].1 == row {
            assert(mino_cells(shape)[k as int] == minos@[k as int]);
            assert(queue.pieces@[slot as int] == (shape, grain_color));
            assert(preview_occupied(shape, col as int, row as int));
            return Some(grain_color);
        }
        k = k + 1;
    }
    None
}

/// The anchor column of a piece the player picks: the middle of its anchor range.
pub open spec fn center_anchor(shape: TetrominoShape) -> int {
    (anchor_min(shape) + anchor_max(shape)) / 2
}

/// What picking upcoming piece `slot` does, with `rep` the piece that refills
/// the queue. When the game runs, no piece is falling, no clear is showing and
/// the slot exists, the picked piece leaves the queue, `rep` joins its end, and
/// the picked piece is placed at its centre anchor (see `spawn_at`); otherwise
/// nothing changes.
pub open spec fn picked(
    q0: Seq<(TetrominoShape, GrainColor)>,
    q1: Seq<(TetrominoShape, GrainColor)>,
    s0: GameStatus,
    s1: GameStatus,
    cells: Seq<Option<u64>>,
    slot: int,
    piece_falling: bool,
    clear_pending: bool,
    rep: (TetrominoShape, GrainColor),
    res: Option<SpawnedPiece>,
) -> bool {
    if !s0.is_game_over && !piece_falling && !clear_pending && 0 <= slot < q0.len() {
        let shape = q0[slot].0;
        let anchor = center_anchor(shape);
        &&& q1 == q0.remove(slot).push(rep)
        &&& s1.score == s0.score
        &&& if spawn_blocked(cells, shape, anchor) {
            res is None && s1.is_game_over
        } else {
            (res matches Some(p) && p.shape == shape && p.color == q0[slot].1 && p.cells@ == spawn_cells(shape, anchor))
            && s1.is_game_over == s0.is_game_over
        }
    } else {
        &&& q1 == q0
        &&& s1 == s0
        &&& res is None
    }
}

/// Picks upcoming piece `slot` (see `picked`), refilling the queue with `replacement`.
pub fn select_candidate(
    queue: &mut NextPieceQueue,
    board: &BoardGrid,
    status: &mut GameStatus,
    slot: usize,
    piece_falling: bool,
    clear_pending: bool,
    replacement: (TetrominoShape, GrainColor),
) -> (res: Option<SpawnedPiece>)
    requires
        board.wf(),
    ensures
        picked(old(queue).pieces@, final(queue).pieces@, *old(status), *final(status), board@, slot as int,
            piece_falling, clear_pending, replacement, res),
{
    broadcast use vstd::std_specs::vecdeque::group_vec_dequeue_axioms;
    if status.is_game_over || piece_falling || clear_pending || slot >= queue.pieces.len() {
        return None;
    }
    let (shape, color) = match queue.pieces.remove(slot) {
        Some(p) => p,
        None => return None,
    };
    queue.pieces.push_back(replacement);
    let (lo, hi) = anchor_range(shape);
    assert(lo + hi >= 0);
    let anchor = ((lo + hi) as u32 / 2) as i32;
    match spawn_at(board, status, shape, anchor) {
        Some(cells) => Some(SpawnedPiece { shape, color, cells }),
        None => None,
    }
}

/// Picks upcoming piece `slot` (see `picked`), refilling the queue with a
/// piece of random shape and colour.
pub fn preview_interaction_system(
    queue: &mut NextPieceQueue,
    board: &BoardGrid,
    status: &mut GameStatus,
    slot: usize,
    piece_falling: bool,
    clear_pending: bool,
    rng: &mut rand::rngs::ThreadRng,
) -> (res: Option<SpawnedPiece>)
    requires
        board.wf(),
    ensures
        exists|rep: (TetrominoShape, GrainColor)| #[trigger] picked(old(queue).pieces@, final(queue).pieces@, *old(status),
            *final(status), board@, slot as int, piece_falling, clear_pending, rep, res),
{
    broadcast use vstd::std_specs::vecdeque::group_vec_dequeue_axioms;
    if status.is_game_over || piece_falling || clear_pending || slot >= queue.pieces.len() {
        let res = None;
        assert(picked(old(queue).pieces@, queue.pieces@, *old(status), *status, board@, slot as int,
            piece_falling, clear_pending, (TetrominoShape::I, GrainColor::Cyan), res));
        return res;
    }
    let replacement = (TetrominoShape::random(rng), GrainColor::random(rng));
    let res = select_candidate(queue, board, status, slot, piece_falling, clear_pending, replacement);
    res
}


/// A new piece anchored anywhere in its anchor range lies between the walls.
pub proof fn lemma_spawn_within_walls(shape: TetrominoShape, anchor: int, k: int)
    requires
        anchor_min(shape) <= anchor <= anchor_max(shape),
        0 <= k < GRAINS_PER_PIECE,
    ensures
        0 <= spawn_cell(shape, anchor, k).0 < BOARD_WIDTH,
{
    lemma_grain_x_bounds(shape, k);
}

} // verus!
