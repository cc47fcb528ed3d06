//! A figure: a piece placed at a position on the grid.

use crate::algebra::Vector;
use crate::block::BlockKind;
use crate::piece::Piece;
use crate::shape::Shape;
use vstd::prelude::*;

verus! {

/// A `Figure` is a `Piece` together with its current position on a grid.
#[derive(Debug)]
pub struct Figure {
    pub piece: Piece,
    pub position: Vector,
}

impl Figure {
    /// The figure's piece.
    pub open spec fn spec_piece(&self) -> Piece {
        self.piece
    }

    /// Creates a figure of the given piece at the given position.
    pub fn new(piece: Piece, position: Vector) -> (r: Figure)
        ensures
            r.spec_piece() == piece,
            r.position == position,
    {
        Figure { piece, position }
    }

    /// Creates a figure at the origin whose piece gives every cell a fresh
    /// block of the same type.
    pub fn uniform(t: BlockKind, shape: Shape) -> (r: Figure)
        ensures
            r.spec_piece().wf(),
            r.spec_piece().spec_shape() == shape,
            r.position@ == (0int, 0int),
            forall|i: int|
                0 <= i < r.spec_piece().spec_blocks().len() ==> (#[trigger] r.spec_piece(
                ).spec_blocks()[i]).block_type == t,
    {
        Figure { piece: Piece::uniform(t, shape), position: Vector::origin() }
    }

    /// Returns a reference to the figure's piece.
    pub fn piece(&self) -> (r: &Piece)
        ensures
            *r == self.spec_piece(),
    {
        &self.piece
    }
}

} // verus!
