use atris::block::{BlockKind, BlockType, RockType, StandardType};
use atris::gamemodes::{CustomMode, PieceConfiguration, StandardMode};
use rand::rngs::StdRng;
use rand::SeedableRng;

#[test]
fn standard_mode_deals_four_cell_standard_pieces() {
    let mut mode = StandardMode::new();
    mode.initialize();
    let mut rng = StdRng::seed_from_u64(11);
    for _ in 0..10 {
        let piece = mode.next_piece(&mut rng);
        assert_eq!(piece.shape().size(), 4);
        assert_eq!(piece.blocks().len(), 4);
        for b in piece.blocks() {
            assert_eq!(b.get_type().id(), "Standard");
        }
    }
}

#[test]
fn custom_mode_accumulates_weights() {
    let types = vec![
        BlockKind::Standard(StandardType {}),
        BlockKind::Rock(RockType {}),
    ];
    let confs = vec![
        PieceConfiguration { block_type: 0, n_blocks: 4, weight: 1 },
        PieceConfiguration { block_type: 1, n_blocks: 2, weight: 3 },
    ];
    let mut mode = CustomMode::new(types, confs);
    mode.initialize();
    let mut rng = StdRng::seed_from_u64(5);
    let mut seen_two = false;
    let mut seen_four = false;
    for _ in 0..40 {
        let piece = mode.next_piece(&mut rng);
        match piece.shape().size() {
            2 => {
                seen_two = true;
                for b in piece.blocks() {
                    assert_eq!(b.get_type().id(), "Rock");
                }
            }
            4 => {
                seen_four = true;
                for b in piece.blocks() {
                    assert_eq!(b.get_type().id(), "Standard");
                }
            }
            other => panic!("piece of unexpected size {other}"),
        }
    }
    // With weights 3:1 over 40 draws both configurations come up.
    assert!(seen_two);
    assert!(seen_four);
}

#[test]
fn custom_mode_falls_back_to_defaults() {
    // No block types and no configurations: the standard type with one
    // default four-cell configuration.
    let mut mode = CustomMode::new(Vec::new(), Vec::new());
    mode.initialize();
    let mut rng = StdRng::seed_from_u64(2);
    let piece = mode.next_piece(&mut rng);
    assert_eq!(piece.shape().size(), 4);
    for b in piece.blocks() {
        assert_eq!(b.get_type().id(), "Standard");
    }
}
