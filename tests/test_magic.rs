use odyn::magic::{bishop_attack, rook_attack, rook_rank_attack_fast, Slider};
use odyn::move_generator::AttackTables;
use odyn::utility::enumerate_subsets;

#[test]
fn test_rook_rank_attack1() {
    let rook_index = 4;
    let occupancy = 0b01001001;

    let expected = 0b01111000;

    assert_eq!(expected, rook_rank_attack_fast(occupancy, rook_index));
}

#[test]
fn test_rook_rank_attack2() {
    let rook_index = 6;
    let occupancy = 0b00001000;

    let expected = 0b11111000;

    assert_eq!(expected, rook_rank_attack_fast(occupancy, rook_index))
}

#[test]
fn test_rook_rank_attack3() {
    let rook_index = 0;
    let occupancy = 0b00000110;

    let expected = 0b00000011;

    assert_eq!(expected, rook_rank_attack_fast(occupancy, rook_index));
}

#[test]
fn test_rook_rank_attack_full() {
    let rook_index = 0;
    let occupancy = 0;

    let expected = 0b11111111;
    assert_eq!(expected, rook_rank_attack_fast(rook_index, occupancy));
}

#[test]
fn test_bishop_attack_single_bishop() {
    let bishop_index = 42;
    let occupancy = 0;
    let expected_moves: u64 = 0b0001000100001010000001000000101000010001001000000100000010000000;

    assert_eq!(
        expected_moves & !(1 << bishop_index),
        bishop_attack(occupancy, bishop_index) & !(1 << bishop_index)
    )
}

#[test]
fn test_rook_attack_corner_with_blockers() {
    // Rook on a8 (0), blockers on a6 (16) and d8 (3).
    let expected: u64 = (1 << 1) | (1 << 2) | (1 << 3) | (1 << 8) | (1 << 16);
    assert_eq!(expected, rook_attack((1 << 16) | (1 << 3), 0));
}

#[test]
fn test_magic_lookup_matches_walk_on_every_relevant_subset() {
    let tables = AttackTables::new().expect("magic tables");
    for square in [0u32, 7, 27, 36, 56, 63] {
        for kind in [Slider::Rook, Slider::Bishop] {
            let mask = tables.rook.masks[square as usize];
            let mask = if kind == Slider::Rook {
                mask
            } else {
                tables.bishop.masks[square as usize]
            };
            for blockers in enumerate_subsets(mask) {
                let expected = match kind {
                    Slider::Rook => rook_attack(blockers, square),
                    Slider::Bishop => bishop_attack(blockers, square),
                };
                assert_eq!(expected, tables.slider(kind, square, blockers));
                // Occupancy outside the mask does not change the lookup.
                assert_eq!(expected, tables.slider(kind, square, blockers | !mask));
            }
        }
    }
}
