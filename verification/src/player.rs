//! Player bookkeeping shared with the session layer around the engine.

use vstd::prelude::*;

verus! {

/// A participant in a running session.
#[derive(Clone, Copy, PartialEq, Eq, Structural, Debug)]
pub struct Player {
    pub id: usize,
    pub active: bool,
}

impl Player {
    /// Creates an active player with the given identifier.
    pub fn new(player_id: usize) -> (r: Player)
        ensures
            r.id == player_id,
            r.active,
    {
        Player { id: player_id, active: true }
    }
}

} // verus!
