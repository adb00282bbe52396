//! The compile step: each Bit's symmetric steps that pass its direction
//! mask, one kernel per step, flipped into the second side's frame.

use botboard_core::variants::chess;
use botboard_core::variants::xiangqi;

#[test]
fn knight_and_queen_kernels_come_from_their_bits() {
    let g = chess::game();
    let n = g.compiled(chess::N, 0);
    assert_eq!(n.leaps.len(), 8);
    assert!(n.rides.is_empty() && n.hops.is_empty());
    let q = g.compiled(chess::Q, 1);
    assert_eq!(q.rides.len(), 8);
    assert!(q.leaps.is_empty());
}

#[test]
fn pawn_steps_are_mirrored_for_the_second_side() {
    let g = chess::game();
    let white = g.compiled(chess::P, 0);
    let black = g.compiled(chess::P, 1);
    assert_eq!(white.leaps.len(), 3);
    assert_eq!(black.leaps.len(), 3);
    for (w, b) in white.leaps.iter().zip(black.leaps.iter()) {
        assert_eq!(w.d.dx, b.d.dx);
        assert_eq!(w.d.dy, -b.d.dy);
        assert!(w.d.dy > 0);
    }
}

#[test]
fn lame_leapers_carry_their_leg_cells() {
    let g = xiangqi::game();
    let horse = g.compiled(3, 0);
    assert_eq!(horse.leaps.len(), 8);
    for k in horse.leaps.iter() {
        assert_eq!(k.blockers.len(), 1);
        let b = k.blockers[0];
        if k.d.dx == 2 || k.d.dx == -2 {
            assert_eq!((b.dx, b.dy), (k.d.dx.signum(), 0));
        } else {
            assert_eq!((b.dx, b.dy), (0, k.d.dy.signum()));
        }
    }
    let elephant = g.compiled(2, 1);
    for k in elephant.leaps.iter() {
        assert_eq!((k.blockers[0].dx, k.blockers[0].dy), (k.d.dx / 2, k.d.dy / 2));
    }
}
