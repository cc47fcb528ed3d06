use atris::algebra::Vector;
use atris::block::{Block, BlockKind, RockType, StandardType};
use atris::figure::Figure;
use atris::piece::Piece;
use atris::shape::Shape;

fn shape_of(cells: &[(i32, i32)]) -> Shape {
    let mut s = Shape::new();
    for &(x, y) in cells {
        s.add_pos(Vector(x, y));
    }
    s
}

#[test]
fn uniform_piece_has_one_block_per_cell() {
    let shape = shape_of(&[(0, 0), (1, 0), (1, 1)]);
    let p = Piece::uniform(BlockKind::Rock(RockType {}), shape);
    assert_eq!(p.blocks().len(), 3);
    assert_eq!(p.shape().size(), 3);
    for b in p.blocks() {
        assert_eq!(b.get_type(), BlockKind::Rock(RockType {}));
        assert_eq!(b.state.value(), 0);
    }
}

#[test]
fn explicit_piece_keeps_its_blocks() {
    let shape = shape_of(&[(0, 0), (0, 1)]);
    let blocks = vec![
        Block::new(BlockKind::Standard(StandardType {})),
        Block::new(BlockKind::Rock(RockType {})),
    ];
    let p = Piece::new(blocks, shape);
    assert_eq!(p.blocks().len(), 2);
    assert_eq!(p.blocks()[0].get_type(), BlockKind::Standard(StandardType {}));
    assert_eq!(p.blocks()[1].get_type(), BlockKind::Rock(RockType {}));
}

#[test]
fn uniform_figure_starts_at_the_origin() {
    let shape = shape_of(&[(0, 0), (1, 0)]);
    let f = Figure::uniform(BlockKind::Standard(StandardType {}), shape);
    assert_eq!(f.position, Vector(0, 0));
    assert_eq!(f.piece().shape().size(), 2);
}

#[test]
fn figure_carries_its_piece_and_position() {
    let shape = shape_of(&[(0, 0)]);
    let p = Piece::uniform(BlockKind::Standard(StandardType {}), shape);
    let f = Figure::new(p, Vector(3, 7));
    assert_eq!(f.position, Vector(3, 7));
    assert_eq!(f.piece().shape().size(), 1);
}
