//! Core of a falling-block puzzle engine with arbitrary polyomino pieces.
//!
//! The engine is built from small, verified parts:
//! - [`algebra`]: 2D integer vectors with quarter-turn rotation and ordering;
//! - [`shape`]: sorted sets of cell offsets with rotation/translation-invariant
//!   equivalence;
//! - [`shapes`]: the incremental canonical-shape generator and random sampling;
//! - [`state`]: a bit-packed per-cell state container;
//! - [`block`]: cell contents, block-type descriptors and their registry;
//! - [`piece`]: a shape paired with one block per cell;
//! - [`figure`]: a piece placed at a grid position;
//! - [`grid`]: the bounded playing field with placement, collision,
//!   wall-kick correction and line detection/compaction;
//! - [`gamemodes`]: the bookkeeping deciding which piece comes next;
//! - [`player`]: session participants.

pub mod algebra;
pub mod block;
pub mod figure;
pub mod gamemodes;
pub mod grid;
pub mod piece;
pub mod player;
pub mod rng;
pub mod shape;
pub mod shapes;
pub mod state;

pub use algebra::{UVector, Vector};
