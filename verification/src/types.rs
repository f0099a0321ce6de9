//! Grain colours and tetromino shapes.
use vstd::prelude::*;
use crate::constants::PIECE_SUBDIVISION;
use crate::random::random_below;

verus! {

/// The colour of a grain; all grains of one piece share a colour.
#[derive(Clone, Copy, Debug, PartialEq, Eq, Structural)]
pub enum GrainColor {
    Cyan,
    Yellow,
    Purple,
    Green,
    Red,
}

/// Number of grain colours.
pub const GRAIN_COLOR_COUNT: usize = 5;

/// The colours in their fixed order, the order in which a random index picks them.
pub open spec fn color_at(i: int) -> GrainColor {
    if i == 0 {
        GrainColor::Cyan
    } else if i == 1 {
        GrainColor::Yellow
    } else if i == 2 {
        GrainColor::Purple
    } else if i == 3 {
        GrainColor::Green
    } else {
        GrainColor::Red
    }
}

impl GrainColor {
    /// The colour at position `i` of the fixed colour order.
    pub fn from_index(i: usize) -> (c: GrainColor)
        requires
            i < GRAIN_COLOR_COUNT,
        ensures
            c == color_at(i as int),
    {
        match i {
            0 => GrainColor::Cyan,
            1 => GrainColor::Yellow,
            2 => GrainColor::Purple,
            3 => GrainColor::Green,
            _ => GrainColor::Red,
        }
    }

    /// A colour drawn uniformly at random. Every colour can come back.
    pub fn random(rng: &mut rand::rngs::ThreadRng) -> (c: GrainColor)
        ensures
            exists|i: int| 0 <= i < GRAIN_COLOR_COUNT && c == color_at(i),
    {
        let i = random_below(rng, GRAIN_COLOR_COUNT);
        GrainColor::from_index(i)
    }
}

/// The seven tetromino shapes.
#[derive(Clone, Copy, Debug, PartialEq, Eq, Structural)]
pub enum TetrominoShape {
    I,
    O,
    T,
    S,
    Z,
    J,
    L,
}

/// Number of tetromino shapes.
pub const SHAPE_COUNT: usize = 7;

/// Number of grains in one piece: four minos of subdivided grains.
pub const GRAINS_PER_PIECE: usize = 256;

/// The shapes in their fixed order, the order in which a random index picks them.
pub open spec fn shape_at(i: int) -> TetrominoShape {
    if i == 0 {
        TetrominoShape::I
    } else if i == 1 {
        TetrominoShape::O
    } else if i == 2 {
        TetrominoShape::T
    } else if i == 3 {
        TetrominoShape::S
    } else if i == 4 {
        TetrominoShape::Z
    } else if i == 5 {
        TetrominoShape::J
    } else {
        TetrominoShape::L
    }
}

/// The four minos of a shape, as (x, y) offsets from the piece anchor, y upward.
pub open spec fn mino_cells(shape: TetrominoShape) -> Seq<(i32, i32)> {
    match shape {
        TetrominoShape::I => seq![(-1i32, 0i32), (0i32, 0i32), (1i32, 0i32), (2i32, 0i32)],
        TetrominoShape::O => seq![(0i32, 0i32), (1i32, 0i32), (0i32, 1i32), (1i32, 1i32)],
        TetrominoShape::T => seq![(-1i32, 0i32), (0i32, 0i32), (1i32, 0i32), (0i32, 1i32)],
        TetrominoShape::S => seq![(0i32, 0i32), (1i32, 0i32), (-1i32, 1i32), (0i32, 1i32)],
        TetrominoShape::Z => seq![(-1i32, 0i32), (0i32, 0i32), (0i32, 1i32), (1i32, 1i32)],
        TetrominoShape::J => seq![(-1i32, 0i32), (0i32, 0i32), (1i32, 0i32), (-1i32, 1i32)],
        TetrominoShape::L => seq![(-1i32, 0i32), (0i32, 0i32), (1i32, 0i32), (1i32, 1i32)],
    }
}

/// Grain `k` of a shape: grain `k` lies in mino `k / 64`, at column `k % 8` and
/// row `(k % 64) / 8` of that mino's square of grains.
pub open spec fn grain_offset(shape: TetrominoShape, k: int) -> (i32, i32) {
    let m = mino_cells(shape)[k / 64];
    let d = k % 64;
    ((m.0 * 8 + d % 8) as i32, (m.1 * 8 + d / 8) as i32)
}

impl TetrominoShape {
    /// The shape at position `i` of the fixed shape order.
    pub fn from_index(i: usize) -> (s: TetrominoShape)
        requires
            i < SHAPE_COUNT,
        ensures
            s == shape_at(i as int),
    {
        match i {
            0 => TetrominoShape::I,
            1 => TetrominoShape::O,
            2 => TetrominoShape::T,
            3 => TetrominoShape::S,
            4 => TetrominoShape::Z,
            5 => TetrominoShape::J,
            _ => TetrominoShape::L,
        }
    }

    /// A shape drawn uniformly at random. Every shape can come back.
    pub fn random(rng: &mut rand::rngs::ThreadRng) -> (s: TetrominoShape)
        ensures
            exists|i: int| 0 <= i < SHAPE_COUNT && s == shape_at(i),
    {
        let i = random_below(rng, SHAPE_COUNT);
        TetrominoShape::from_index(i)
    }

    /// The four mino offsets of the shape.
    pub fn mino_offsets(self) -> (r: [(i32, i32); 4])
        ensures
            r@ == mino_cells(self),
    {
        let r = match self {
            TetrominoShape::I => [(-1i32, 0i32), (0, 0), (1, 0), (2, 0)],
            TetrominoShape::O => [(0i32, 0i32), (1, 0), (0, 1), (1, 1)],
            TetrominoShape::T => [(-1i32, 0i32), (0, 0), (1, 0), (0, 1)],
            TetrominoShape::S => [(0i32, 0i32), (1, 0), (-1, 1), (0, 1)],
            TetrominoShape::Z => [(-1i32, 0i32), (0, 0), (0, 1), (1, 1)],
            TetrominoShape::J => [(-1i32, 0i32), (0, 0), (1, 0), (-1, 1)],
            TetrominoShape::L => [(-1i32, 0i32), (0, 0), (1, 0), (1, 1)],
        };
        assert(r@ =~= mino_cells(self));
        r
    }

    /// Every grain of the shape, as (x, y) offsets from the piece anchor: each
    /// mino becomes a square of 8 by 8 grains, minos in order, each square filled
    /// row by row from the bottom, each row from the left.
    pub fn offsets(self) -> (r: Vec<(i32, i32)>)
        ensures
            r@.len() == GRAINS_PER_PIECE,
            forall|k: int| 0 <= k < GRAINS_PER_PIECE ==> #[trigger] r@[k] == grain_offset(self, k),
    {
        let minos = self.mino_offsets();
        let mut result: Vec<(i32, i32)> = Vec::with_capacity(GRAINS_PER_PIECE);
        let mut m: usize = 0;
        while m < 4
            invariant
                m <= 4,
                minos@ == mino_cells(self),
                result@.len() == m * 64,
                forall|k: int| 0 <= k < m * 64 ==> #[trigger] result@[k] == grain_offset(self, k),
            decreases 4 - m,
        {
            let mino = minos[m];
            let base_x = mino.0 * PIECE_SUBDIVISION;
            let base_y = mino.1 * PIECE_SUBDIVISION;
            let mut dy: i32 = 0;
            while dy < PIECE_SUBDIVISION
                invariant
                    m < 4,
                    0 <= dy <= 8,
                    minos@ == mino_cells(self),
                    mino == mino_cells(self)[m as int],
                    base_x == mino.0 * 8,
                    base_y == mino.1 * 8,
                    result@.len() == m * 64 + dy * 8,
                    forall|k: int| 0 <= k < m * 64 + dy * 8 ==> #[trigger] result@[k] == grain_offset(self, k),
                decreases 8 - dy,
            {
                let mut dx: i32 = 0;
                while dx < PIECE_SUBDIVISION
                    invariant
                        m < 4,
                        0 <= dy < 8,
                        0 <= dx <= 8,
                        minos@ == mino_cells(self),
                        mino == mino_cells(self)[m as int],
                        base_x == mino.0 * 8,
                        base_y == mino.1 * 8,
                        result@.len() == m * 64 + dy * 8 + dx,
                        forall|k: int| 0 <= k < m * 64 + dy * 8 + dx ==> #[trigger] result@[k] == grain_offset(self, k),
                    decreases 8 - dx,
                {
                    let ghost k: int = m * 64 + dy * 8 + dx;
                    assert(k / 64 == m as int && k % 64 == dy * 8 + dx) by (nonlinear_arith)
                        requires k == m * 64 + dy * 8 + dx, 0 <= dy < 8, 0 <= dx < 8, m >= 0;
                    assert((dy * 8 + dx) % 8 == dx && (dy * 8 + dx) / 8 == dy) by (nonlinear_arith)
                        requires 0 <= dy < 8, 0 <= dx < 8;
                    result.push((base_x + dx, base_y + dy));
                    dx = dx + 1;
                }
                dy = dy + 1;
            }
            m = m + 1;
        }
        result
    }
}


/// The colour order lists each of the five colours exactly once, so a uniform
/// draw of an index in `0..GRAIN_COLOR_COUNT` (what `GrainColor::random` makes)
/// can give every colour, each with one index of its own.
pub proof fn lemma_color_order_bijective(c: GrainColor)
    ensures
        exists|i: int| 0 <= i < GRAIN_COLOR_COUNT && #[trigger] color_at(i) == c,
        forall|i: int, j: int| 0 <= i < GRAIN_COLOR_COUNT && 0 <= j < GRAIN_COLOR_COUNT && i != j
            ==> #[trigger] color_at(i) != #[trigger] color_at(j),
{
    let i: int = match c {
        GrainColor::Cyan => 0,
        GrainColor::Yellow => 1,
        GrainColor::Purple => 2,
        GrainColor::Green => 3,
        GrainColor::Red => 4,
    };
    assert(color_at(i) == c);
}

/// The shape order lists each of the seven shapes exactly once, so a uniform
/// draw of an index in `0..SHAPE_COUNT` (what `TetrominoShape::random` makes)
/// can give every shape, each with one index of its own.
pub proof fn lemma_shape_order_bijective(s: TetrominoShape)
    ensures
        exists|i: int| 0 <= i < SHAPE_COUNT && #[trigger] shape_at(i) == s,
        forall|i: int, j: int| 0 <= i < SHAPE_COUNT && 0 <= j < SHAPE_COUNT && i != j
            ==> #[trigger] shape_at(i) != #[trigger] shape_at(j),
{
    let i: int = match s {
        TetrominoShape::I => 0,
        TetrominoShape::O => 1,
        TetrominoShape::T => 2,
        TetrominoShape::S => 3,
        TetrominoShape::Z => 4,
        TetrominoShape::J => 5,
        TetrominoShape::L => 6,
    };
    assert(shape_at(i) == s);
}

/// Whether the shape has a mino at (x, y).
pub open spec fn has_mino(shape: TetrominoShape, x: int, y: int) -> bool {
    let m = mino_cells(shape);
    (m[0].0 == x && m[0].1 == y) || (m[1].0 == x && m[1].1 == y)
        || (m[2].0 == x && m[2].1 == y) || (m[3].0 == x && m[3].1 == y)
}

/// The cells that the shape covers.
pub open spec fn mino_set(shape: TetrominoShape) -> Set<(int, int)> {
    Set::new(|c: (int, int)| has_mino(shape, c.0, c.1))
}

/// Whether two cells share an edge.
pub open spec fn edge_adjacent(a: (i32, i32), b: (i32, i32)) -> bool {
    (a.0 == b.0 && (a.1 - b.1 == 1 || b.1 - a.1 == 1))
        || (a.1 == b.1 && (a.0 - b.0 == 1 || b.0 - a.0 == 1))
}

/// Whether some pair of minos, one marked and one not, share an edge.
pub open spec fn split_is_bridged(shape: TetrominoShape, s: Seq<bool>) -> bool {
    let m = mino_cells(shape);
    exists|i: int, j: int|
        0 <= i < 4 && 0 <= j < 4 && s[i] && !s[j] && #[trigger] edge_adjacent(m[i], m[j])
}

/// Every shape is a tetromino: four different cells, joined edge to edge
/// (however the minos are split into two non-empty groups, some mino of one
/// group shares an edge with some mino of the other).
pub proof fn lemma_shape_is_tetromino(shape: TetrominoShape)
    ensures
        forall|i: int, j: int| 0 <= i < 4 && 0 <= j < 4 && i != j
            ==> #[trigger] mino_cells(shape)[i] != #[trigger] mino_cells(shape)[j],
        forall|s: Seq<bool>| s.len() == 4 && (s[0] || s[1] || s[2] || s[3])
            && !(s[0] && s[1] && s[2] && s[3]) ==> #[trigger] split_is_bridged(shape, s),
{
    let m = mino_cells(shape);
    assert forall|s: Seq<bool>| s.len() == 4 && (s[0] || s[1] || s[2] || s[3])
        && !(s[0] && s[1] && s[2] && s[3]) implies #[trigger] split_is_bridged(shape, s) by {
        let pairs = seq![(0int, 1int), (1int, 0int), (0int, 2int), (2int, 0int), (0int, 3int), (3int, 0int),
            (1int, 2int), (2int, 1int), (1int, 3int), (3int, 1int), (2int, 3int), (3int, 2int)];
        assert(exists|k: int| 0 <= k < 12 && s[pairs[k].0] && !s[pairs[k].1]
            && edge_adjacent(m[pairs[k].0], m[pairs[k].1])) by {
            if s[0] && !s[1] && edge_adjacent(m[0], m[1]) { assert(pairs[0] == (0int, 1int)); }
            else if s[1] && !s[0] && edge_adjacent(m[1], m[0]) { assert(pairs[1] == (1int, 0int)); }
            else if s[0] && !s[2] && edge_adjacent(m[0], m[2]) { assert(pairs[2] == (0int, 2int)); }
            else if s[2] && !s[0] && edge_adjacent(m[2], m[0]) { assert(pairs[3] == (2int, 0int)); }
            else if s[0] && !s[3] && edge_adjacent(m[0], m[3]) { assert(pairs[4] == (0int, 3int)); }
            else if s[3] && !s[0] && edge_adjacent(m[3], m[0]) { assert(pairs[5] == (3int, 0int)); }
            else if s[1] && !s[2] && edge_adjacent(m[1], m[2]) { assert(pairs[6] == (1int, 2int)); }
            else if s[2] && !s[1] && edge_adjacent(m[2], m[1]) { assert(pairs[7] == (2int, 1int)); }
            else if s[1] && !s[3] && edge_adjacent(m[1], m[3]) { assert(pairs[8] == (1int, 3int)); }
            else if s[3] && !s[1] && edge_adjacent(m[3], m[1]) { assert(pairs[9] == (3int, 1int)); }
            else if s[2] && !s[3] && edge_adjacent(m[2], m[3]) { assert(pairs[10] == (2int, 3int)); }
            else if s[3] && !s[2] && edge_adjacent(m[3], m[2]) { assert(pairs[11] == (3int, 2int)); }
            else {
                match shape {
                    TetrominoShape::I => {}
                    TetrominoShape::O => {}
                    TetrominoShape::T => {}
                    TetrominoShape::S => {}
                    TetrominoShape::Z => {}
                    TetrominoShape::J => {}
                    TetrominoShape::L => {}
                }
            }
        };
        let k = choose|k: int| 0 <= k < 12 && s[pairs[k].0] && !s[pairs[k].1]
            && edge_adjacent(m[pairs[k].0], m[pairs[k].1]);
        let i = pairs[k].0;
        let j = pairs[k].1;
        assert(0 <= i < 4 && 0 <= j < 4 && s[i] && !s[j] && edge_adjacent(m[i], m[j]));
    }
}

/// The J is the mirror image of the L, and the Z that of the S: a mino at
/// (x, y) of one is a mino at (-x, y) of the other. The T is its own mirror image.
pub proof fn lemma_shape_mirrors()
    ensures
        forall|x: int, y: int| #[trigger] has_mino(TetrominoShape::J, x, y) <==> has_mino(TetrominoShape::L, -x, y),
        forall|x: int, y: int| #[trigger] has_mino(TetrominoShape::Z, x, y) <==> has_mino(TetrominoShape::S, -x, y),
        forall|x: int, y: int| #[trigger] has_mino(TetrominoShape::T, x, y) <==> has_mino(TetrominoShape::T, -x, y),
{
}

/// No two shapes cover the same cells: the seven shapes are seven different tetrominoes.
pub proof fn lemma_shapes_distinct(a: TetrominoShape, b: TetrominoShape)
    requires
        a != b,
    ensures
        mino_set(a) != mino_set(b),
{
    if mino_set(a) == mino_set(b) {
        assert(mino_set(a).contains((-1int, 0int)) == mino_set(b).contains((-1int, 0int)));
        assert(mino_set(a).contains((2int, 0int)) == mino_set(b).contains((2int, 0int)));
        assert(mino_set(a).contains((1int, 0int)) == mino_set(b).contains((1int, 0int)));
        assert(mino_set(a).contains((-1int, 1int)) == mino_set(b).contains((-1int, 1int)));
        assert(mino_set(a).contains((0int, 1int)) == mino_set(b).contains((0int, 1int)));
        assert(mino_set(a).contains((1int, 1int)) == mino_set(b).contains((1int, 1int)));
        match a {
            TetrominoShape::I => {}
            TetrominoShape::O => {}
            TetrominoShape::T => {}
            TetrominoShape::S => {}
            TetrominoShape::Z => {}
            TetrominoShape::J => {}
            TetrominoShape::L => {}
        }
        match b {
            TetrominoShape::I => {}
            TetrominoShape::O => {}
            TetrominoShape::T => {}
            TetrominoShape::S => {}
            TetrominoShape::Z => {}
            TetrominoShape::J => {}
            TetrominoShape::L => {}
        }
    }
}

/// Splitting a grain index into mino, row and column within the mino.
proof fn lemma_grain_index_parts(k: int)
    requires
        0 <= k < GRAINS_PER_PIECE,
    ensures
        0 <= k / 64 < 4,
        0 <= (k % 64) / 8 < 8,
        0 <= (k % 64) % 8 < 8,
        k == 64 * (k / 64) + 8 * ((k % 64) / 8) + (k % 64) % 8,
{
    assert(0 <= k / 64 < 4 && 0 <= k % 64 < 64 && k == 64 * (k / 64) + k % 64) by (nonlinear_arith)
        requires 0 <= k < 256;
    let d = k % 64;
    assert(0 <= d / 8 < 8 && 0 <= d % 8 < 8 && d == 8 * (d / 8) + d % 8) by (nonlinear_arith)
        requires 0 <= d < 64;
}

/// Each mino becomes its own 8 by 8 square of grains: no two grains of a
/// piece share a position.
pub proof fn lemma_offsets_distinct(shape: TetrominoShape, k1: int, k2: int)
    requires
        0 <= k1 < GRAINS_PER_PIECE,
        0 <= k2 < GRAINS_PER_PIECE,
        k1 != k2,
    ensures
        grain_offset(shape, k1) != grain_offset(shape, k2),
{
    lemma_grain_index_parts(k1);
    lemma_grain_index_parts(k2);
    let m = mino_cells(shape);
    assert(forall|a: int, b: int| 0 <= a < 4 && 0 <= b < 4 && a != b ==> #[trigger] m[a] != #[trigger] m[b]);
    let j1 = k1 / 64;
    let j2 = k2 / 64;
    if grain_offset(shape, k1) == grain_offset(shape, k2) {
        assert(m[j1].0 == m[j2].0 && (k1 % 64) % 8 == (k2 % 64) % 8);
        assert(m[j1].1 == m[j2].1 && (k1 % 64) / 8 == (k2 % 64) / 8);
        assert(j1 == j2);
    }
}

} // verus!
