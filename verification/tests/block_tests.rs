use atris::block::{Block, BlockKind, BlockType, BlockTypes, RockType, StandardType};
use atris::player::Player;
use atris::state::BitRange;

#[test]
fn type_identifiers() {
    assert_eq!(StandardType {}.id(), "Standard");
    assert_eq!(RockType {}.id(), "Rock");
    assert_eq!(BlockKind::Standard(StandardType {}).id(), "Standard");
    assert_eq!(BlockKind::Rock(RockType {}).id(), "Rock");
}

#[test]
fn base_types_are_retrievable_by_id() {
    let bts = BlockTypes::base_types();
    let std_type = bts.get("Standard");
    assert!(matches!(std_type, Some(t) if t.id() == "Standard"));
    let rock = bts.get("Rock");
    assert!(matches!(rock, Some(t) if t.id() == "Rock"));
}

#[test]
fn lookup_of_an_unknown_id_is_none() {
    let bts = BlockTypes::base_types();
    assert!(bts.get("Ice").is_none());
    let empty = BlockTypes::new();
    assert!(empty.get("Standard").is_none());
}

#[test]
fn add_inserts_and_replaces() {
    let mut bts = BlockTypes::new();
    assert!(bts.add(BlockKind::Standard(StandardType {})).is_none());
    assert!(bts.add(BlockKind::Rock(RockType {})).is_none());
    // Re-adding under the same id replaces and returns the old occupant.
    let replaced = bts.add(BlockKind::Standard(StandardType {}));
    assert!(matches!(replaced, Some(t) if t.id() == "Standard"));
    assert!(bts.get("Standard").is_some());
    assert!(bts.get("Rock").is_some());
}

#[test]
fn new_blocks_start_with_zero_state() {
    let b = Block::new(BlockKind::Standard(StandardType {}));
    assert_eq!(b.get_type(), BlockKind::Standard(StandardType {}));
    assert_eq!(b.state.value(), 0);
    assert_eq!(b.state.get(BitRange { pos: 0, len: 64 }), 0);
}

#[test]
fn new_players_are_active() {
    let p = Player::new(3);
    assert_eq!(p.id, 3);
    assert!(p.active);
}
