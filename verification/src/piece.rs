//! A piece: a shape paired with one block per cell offset.

use crate::block::{Block, BlockKind};
use crate::shape::Shape;
use vstd::prelude::*;

verus! {

/// A `Piece` pairs a `Shape` with one block per cell offset (same count,
/// same order).
#[derive(Debug)]
pub struct Piece {
    blocks: Vec<Block>,
    shape: Shape,
}

impl Piece {
    /// The blocks, in the order of the shape's cells.
    pub closed spec fn spec_blocks(&self) -> Seq<Block> {
        self.blocks@
    }

    /// The piece's shape.
    pub closed spec fn spec_shape(&self) -> Shape {
        self.shape
    }

    /// There is exactly one block per cell.
    pub open spec fn wf(&self) -> bool {
        self.spec_blocks().len() == self.spec_shape()@.len()
    }

    /// Constructs a new `Piece` from a list of blocks and a `Shape`; both
    /// must have the same length.
    pub fn new(blocks: Vec<Block>, shape: Shape) -> (r: Piece)
        requires
            blocks@.len() == shape@.len(),
        ensures
            r.wf(),
            r.spec_blocks() == blocks@,
            r.spec_shape() == shape,
    {
        Piece { blocks, shape }
    }

    /// Constructs a new `Piece` from a block type and a `Shape`: every cell
    /// gets a fresh block of that same type.
    pub fn uniform(t: BlockKind, shape: Shape) -> (r: Piece)
        ensures
            r.wf(),
            r.spec_shape() == shape,
            forall|i: int|
                0 <= i < r.spec_blocks().len() ==> (#[trigger] r.spec_blocks()[i]).block_type == t
                    && r.spec_blocks()[i].state@ == 0u64,
    {
        let n = shape.size();
        let mut blocks: Vec<Block> = Vec::new();
        let mut i: usize = 0;
        while i < n
            invariant
                0 <= i <= n,
                blocks@.len() == i,
                forall|j: int|
                    0 <= j < i ==> (#[trigger] blocks@[j]).block_type == t && blocks@[j].state@
                        == 0u64,
            decreases n - i,
        {
            blocks.push(Block::new(t));
            i += 1;
        }
        Piece { blocks, shape }
    }

    /// Returns a reference to the piece's blocks.
    pub fn blocks(&self) -> (r: &Vec<Block>)
        ensures
            r@ == self.spec_blocks(),
    {
        &self.blocks
    }

    /// Returns a reference to the piece's shape.
    pub fn shape(&self) -> (r: &Shape)
        ensures
            *r == self.spec_shape(),
    {
        &self.shape
    }
}

} // verus!
