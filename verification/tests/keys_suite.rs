//! Keys depend on the game's shape alone; divide tables come sorted.

use botboard_core::perft::divide;
use botboard_core::position::Position;
use botboard_core::variants::chess as c;

#[test]
fn keys_follow_the_game_shape() {
    let g1 = c::game();
    let g2 = c::game();
    let pos = Position::startpos(&g1);
    assert_eq!(g2.zobrist.full_hash(&pos), pos.hash);
    assert_eq!(g1.zobrist.full_hash(&pos), pos.hash);
}

#[test]
fn hand_and_hp_buckets_saturate() {
    let g = c::game();
    let z = &g.zobrist;
    assert_eq!(z.hand_key(0, 1, 0), 0);
    assert_eq!(z.hand_key(1, 2, 25), z.hand_key(1, 2, 20));
    assert_ne!(z.hand_key(1, 2, 19), z.hand_key(1, 2, 20));
    assert_eq!(z.piece_key(1, 0, false, 9, 12), z.piece_key(1, 0, false, 7, 12));
    assert_eq!(z.piece_key(1, 0, true, -2, 12), z.piece_key(1, 0, true, 0, 12));
    assert_ne!(z.piece_key(1, 0, false, 1, 12), z.piece_key(1, 0, false, 2, 12));
}

#[test]
fn divide_rows_come_sorted() {
    let g = c::game();
    let mut pos = Position::startpos(&g);
    let rows = divide(&g, &mut pos, 2);
    assert_eq!(rows.len(), 20);
    for w in rows.windows(2) {
        assert!(w[0] <= w[1]);
    }
    assert_eq!(rows.iter().map(|r| r.1).sum::<u64>(), 400);
}
