use atris::algebra::{UVector, Vector};
use atris::block::{Block, BlockKind, StandardType};
use atris::figure::Figure;
use atris::grid::Grid;
use atris::piece::Piece;
use atris::shape::Shape;

fn standard_block() -> Block {
    Block::new(BlockKind::Standard(StandardType {}))
}

fn shape_of(cells: &[(i32, i32)]) -> Shape {
    let mut s = Shape::new();
    for &(x, y) in cells {
        s.add_pos(Vector(x, y));
    }
    s
}

fn figure_of(cells: &[(i32, i32)], position: (i32, i32)) -> Figure {
    let shape = shape_of(cells);
    Figure::new(
        Piece::uniform(BlockKind::Standard(StandardType {}), shape),
        Vector(position.0, position.1),
    )
}

#[test]
fn new_grid_dimensions() {
    let g = Grid::new(UVector(10, 20));
    assert_eq!(g.n_cols(), 10);
    assert_eq!(g.n_rows(), 20);
    assert_eq!(g.bounds(), UVector(10, 20));
}

#[test]
fn put_and_take_round_trip() {
    let mut g = Grid::new(UVector(4, 4));
    assert!(g.put(UVector(2, 3), standard_block()).is_none());
    assert!(g.pos_overlaps(Vector(2, 3)));
    // Replacing returns the old occupant.
    assert!(g.put(UVector(2, 3), standard_block()).is_some());
    let taken = g.take(UVector(2, 3));
    assert!(taken.is_some());
    assert!(!g.pos_overlaps(Vector(2, 3)));
    assert!(g.take(UVector(2, 3)).is_none());
}

#[test]
fn position_predicates() {
    let mut g = Grid::new(UVector(3, 2));
    assert!(g.pos_in_bounds(Vector(0, 0)));
    assert!(g.pos_in_bounds(Vector(2, 1)));
    assert!(!g.pos_in_bounds(Vector(3, 1)));
    assert!(!g.pos_in_bounds(Vector(-1, 0)));
    assert!(!g.pos_in_bounds(Vector(0, 2)));
    assert!(g.pos_available(Vector(1, 1)));
    g.put(UVector(1, 1), standard_block());
    assert!(!g.pos_available(Vector(1, 1)));
    assert!(!g.pos_available(Vector(-1, 0)));
}

#[test]
fn full_and_empty_rows() {
    let mut g = Grid::new(UVector(3, 2));
    assert!(g.empty_row(0));
    assert!(!g.full_row(0));
    g.put(UVector(0, 0), standard_block());
    // A partially filled row is neither full nor empty.
    assert!(!g.empty_row(0));
    assert!(!g.full_row(0));
    g.put(UVector(1, 0), standard_block());
    g.put(UVector(2, 0), standard_block());
    assert!(g.full_row(0));
    assert!(g.empty_row(1));
    assert_eq!(g.full_rows(), vec![0]);
    assert_eq!(g.empty_rows(), vec![1]);
}

#[test]
fn fits_in_on_an_empty_grid() {
    let g = Grid::new(UVector(10, 20));
    let fig = figure_of(&[(0, 0), (1, 0), (2, 0), (3, 0)], (0, 0));
    assert!(g.fits_in(&fig, Vector(0, 0), 0));
    assert!(g.fits_in(&fig, Vector(6, 19), 0));
    // One cell past the right edge.
    assert!(!g.fits_in(&fig, Vector(7, 0), 0));
    // One cell below the bottom.
    assert!(!g.fits_in(&fig, Vector(0, 20), 0));
    // Rotated vertically it needs four rows.
    assert!(g.fits_in(&fig, Vector(0, 16), 1));
}

#[test]
fn fits_in_rejects_overlaps() {
    let mut g = Grid::new(UVector(10, 20));
    g.put(UVector(2, 0), standard_block());
    let fig = figure_of(&[(0, 0), (1, 0), (2, 0), (3, 0)], (0, 0));
    assert!(!g.fits_in(&fig, Vector(0, 0), 0));
    assert!(g.fits_in(&fig, Vector(3, 0), 0));
    assert!(g.fits_in(&fig, Vector(0, 1), 0));
}

#[test]
fn full_row_clears_and_compaction_empties_the_grid() {
    // A 10 x 20 empty grid whose bottom row gets fully filled.
    let mut g = Grid::new(UVector(10, 20));
    for x in 0..10 {
        g.put(UVector(x, 19), standard_block());
    }
    assert_eq!(g.full_rows(), vec![19]);
    // Clear the full row; the grid is then fully empty, so compaction
    // removes (and re-adds) every row, reporting them all - the cleared
    // row's index among them.
    for x in 0..10 {
        g.take(UVector(x, 19));
    }
    let removed = g.delete_empty_rows();
    assert_eq!(removed.len(), 20);
    assert!(removed.contains(&19));
    for y in 0..20 {
        assert!(g.empty_row(y));
    }
    assert_eq!(g.n_cols(), 10);
    assert_eq!(g.n_rows(), 20);
}

#[test]
fn compaction_moves_kept_rows_to_the_front() {
    let mut g = Grid::new(UVector(4, 6));
    g.put(UVector(1, 2), standard_block());
    g.put(UVector(3, 4), standard_block());
    let removed = g.delete_empty_rows();
    assert_eq!(removed, vec![0, 1, 3, 5]);
    // The two occupied rows kept their order and moved to the front.
    assert!(g.pos_overlaps(Vector(1, 0)));
    assert!(g.pos_overlaps(Vector(3, 1)));
    assert!(!g.pos_overlaps(Vector(1, 2)));
    for y in 2..6 {
        assert!(g.empty_row(y));
    }
}

#[test]
fn last_non_empty_row_scans_from_the_bottom() {
    let mut g = Grid::new(UVector(4, 8));
    assert_eq!(g.last_non_empty_row(), None);
    g.put(UVector(2, 1), standard_block());
    g.put(UVector(0, 5), standard_block());
    assert_eq!(g.last_non_empty_row(), Some(5));
}

#[test]
fn pos_correction_pushes_back_in_bounds() {
    let g = Grid::new(UVector(10, 20));
    // Out on the left: pushed right to column 0.
    assert_eq!(g.pos_correction(Vector(-2, 5), 9), Some(Vector(2, 0)));
    // Out on the right: pushed left to the last column.
    assert_eq!(g.pos_correction(Vector(11, 5), 9), Some(Vector(-2, 0)));
    // In bounds and free: no correction.
    assert_eq!(g.pos_correction(Vector(4, 5), 9), Some(Vector(0, 0)));
}

#[test]
fn pos_correction_walks_off_overlaps_toward_the_centroid() {
    let mut g = Grid::new(UVector(10, 20));
    g.put(UVector(3, 0), standard_block());
    // Centroid to the right of column 3 (doubled centroid 8 > 6).
    assert_eq!(g.pos_correction(Vector(3, 0), 8), Some(Vector(1, 0)));
    // Centroid to the left (doubled centroid 4 < 6).
    assert_eq!(g.pos_correction(Vector(3, 0), 4), Some(Vector(-1, 0)));
}

#[test]
fn pos_correction_fails_when_the_walk_leaves_the_grid() {
    let mut g = Grid::new(UVector(3, 4));
    for x in 0..3 {
        g.put(UVector(x, 1), standard_block());
    }
    // Row 1 is fully occupied: walking right from column 1 runs off the
    // grid without finding a free cell.
    assert_eq!(g.pos_correction(Vector(1, 1), 100), None);
}

#[test]
fn figure_pos_correction_moves_a_piece_back_inside() {
    let g = Grid::new(UVector(10, 20));
    // A horizontal bar sticking out on the left by two columns.
    let fig = figure_of(&[(0, 0), (1, 0), (2, 0), (3, 0)], (-2, 5));
    assert_eq!(g.figure_pos_correction(&fig, 0, 0), Some(Vector(2, 0)));
    // Entirely inside: nothing to correct.
    let ok = figure_of(&[(0, 0), (1, 0)], (4, 5));
    assert_eq!(g.figure_pos_correction(&ok, 0, 0), Some(Vector(0, 0)));
}

#[test]
fn figure_pos_correction_is_unresolvable_on_opposite_pulls() {
    // One cell at x = -1 and another at x = width: the two cells demand
    // corrections of opposite sign, so no single shift can help.
    let g = Grid::new(UVector(10, 20));
    let fig = figure_of(&[(-1, 0), (10, 0)], (0, 5));
    assert_eq!(g.figure_pos_correction(&fig, 0, 0), None);
}
