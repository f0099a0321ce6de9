use sand_tetris::types::{GrainColor, TetrominoShape, GRAINS_PER_PIECE};
use std::collections::HashSet;

const ALL_SHAPES: [TetrominoShape; 7] = [
    TetrominoShape::I,
    TetrominoShape::O,
    TetrominoShape::T,
    TetrominoShape::S,
    TetrominoShape::Z,
    TetrominoShape::J,
    TetrominoShape::L,
];

#[test]
fn from_index_orders() {
    assert_eq!(GrainColor::from_index(0), GrainColor::Cyan);
    assert_eq!(GrainColor::from_index(4), GrainColor::Red);
    for (i, s) in ALL_SHAPES.iter().enumerate() {
        assert_eq!(TetrominoShape::from_index(i), *s);
    }
}

#[test]
fn mino_offsets_of_shapes() {
    assert_eq!(TetrominoShape::I.mino_offsets(), [(-1, 0), (0, 0), (1, 0), (2, 0)]);
    assert_eq!(TetrominoShape::O.mino_offsets(), [(0, 0), (1, 0), (0, 1), (1, 1)]);
    assert_eq!(TetrominoShape::S.mino_offsets(), [(0, 0), (1, 0), (-1, 1), (0, 1)]);
    assert_eq!(TetrominoShape::L.mino_offsets(), [(-1, 0), (0, 0), (1, 0), (1, 1)]);
}

#[test]
fn offsets_are_subdivided_minos() {
    let o = TetrominoShape::I.offsets();
    assert_eq!(o.len(), GRAINS_PER_PIECE);
    assert_eq!(o[0], (-8, 0));
    assert_eq!(o[1], (-7, 0));
    assert_eq!(o[8], (-8, 1));
    assert_eq!(o[63], (-1, 7));
    assert_eq!(o[64], (0, 0));
    assert_eq!(o[255], (23, 7));
    let t = TetrominoShape::T.offsets();
    assert_eq!(t[192], (0, 8));
    assert_eq!(t[255], (7, 15));
}

#[test]
fn offsets_are_distinct_for_every_shape() {
    for s in ALL_SHAPES {
        let o = s.offsets();
        let set: HashSet<(i32, i32)> = o.iter().cloned().collect();
        assert_eq!(set.len(), GRAINS_PER_PIECE);
    }
}

#[test]
fn random_shapes_cover_all_shapes() {
    let mut rng = rand::rng();
    let mut seen = HashSet::new();
    for _ in 0..2000 {
        seen.insert(format!("{:?}", TetrominoShape::random(&mut rng)));
    }
    assert_eq!(seen.len(), 7);
}

#[test]
fn random_colors_cover_all_colors() {
    let mut rng = rand::rng();
    let mut seen = HashSet::new();
    for _ in 0..2000 {
        seen.insert(format!("{:?}", GrainColor::random(&mut rng)));
    }
    assert_eq!(seen.len(), 5);
}
