//! Bit categories: the features a pairwise synergy prior is fitted over.

use botboard_core::cost::{bit_categories, mobility_counts, DENSITY_CUT, HALF_CUT, K_CATS, SAMPLES};
use botboard_core::variants::chess as c;

#[test]
fn chess_pieces_fall_into_their_categories() {
    let g = c::game();
    assert_eq!(K_CATS, 8);
    // Pawn: forward leaps only, one of them capture-only.
    assert_eq!(bit_categories(&g, c::P), [true, false, false, true, false, false, false, true]);
    // Knight: leaps in every direction.
    assert_eq!(bit_categories(&g, c::N), [true, false, false, false, false, false, false, false]);
    // Rook: rides in every direction.
    assert_eq!(bit_categories(&g, c::R), [false, true, false, false, false, false, false, false]);
    // Queen: rides only.
    assert_eq!(bit_categories(&g, c::Q), [false, true, false, false, false, false, false, false]);
}

#[test]
fn density_cuts_match_the_unit_interval() {
    let unit = |top53: u64| top53 as f64 * (1.0 / (1u64 << 53) as f64);
    assert!(unit(DENSITY_CUT) < 0.30);
    assert!(unit(DENSITY_CUT + 1) >= 0.30);
    assert!(unit(HALF_CUT - 1) < 0.5);
    assert!(unit(HALF_CUT) >= 0.5);
}

#[test]
fn mobility_counts_cover_every_placement() {
    let g = c::game();
    let knight = mobility_counts(&g, c::N, 0);
    assert_eq!(knight.placements, (SAMPLES * 64) as u64);
    let queen = mobility_counts(&g, c::Q, 0);
    assert_eq!(queen.placements, (SAMPLES * 64) as u64);
    // A queen reaches more squares than a knight.
    assert!(queen.moved + queen.attacked > knight.moved + knight.attacked);
    // Deterministic: the same seed, the same counts.
    let again = mobility_counts(&g, c::N, 0);
    assert_eq!((again.moved, again.attacked), (knight.moved, knight.attacked));
}
