//! The deterministic-grade network: integer inference, hand-checked.

use botboard_core::eval::Eval;
use botboard_core::fen::chess_from_fen;
use botboard_core::nnue::{QuantNet, D, F, H, IN};
use botboard_core::search::Searcher;
use botboard_core::variants::chess as c;

/// Descriptor dimension 0 is 1 for every (type, side); hidden unit 0 reads
/// the own constant feature with weight +1.0 and the enemy one with -1.0
/// (× 64); the output weight turns a one-piece edge into one pawn.
fn counting_net(ntypes: usize, nsides: usize) -> QuantNet {
    let mut desc_q = vec![0i32; ntypes * nsides * D];
    for k in 0..ntypes * nsides {
        desc_q[k * D] = 1;
    }
    let mut w1 = vec![0i16; IN * H];
    w1[0] = 64;
    w1[F * H] = -64;
    let mut w2 = vec![0i16; H];
    w2[0] = 4096;
    QuantNet { desc_q, nsides, w1, b1: vec![0; H], w2, b2: 0 }
}

#[test]
fn net_counts_the_material_edge() {
    let g = c::game();
    let net = counting_net(g.types.len(), g.sides as usize);
    assert!(net.fits_game(&g));
    // White to move with king and queen against a bare king: the own
    // constant feature is 64·2, the enemy one 64·1; the hidden input is
    // 128·64 − 64·64 = 4096, the hidden unit 4096 / 64 = 64, the output
    // 64 × 4096 = 2^18, which is 100 cp.
    let pos = chess_from_fen(&g, "4k3/8/8/8/8/8/8/4KQ2 w - - 0 1").unwrap();
    assert_eq!(net.eval(&g, &pos), 100);
    // Black to move: the edge is negative and the ReLU clips it.
    let pos = chess_from_fen(&g, "4k3/8/8/8/8/8/8/4KQ2 b - - 0 1").unwrap();
    assert_eq!(net.eval(&g, &pos), 0);
}

#[test]
fn net_output_rounds_down() {
    let g = c::game();
    let mut net = counting_net(g.types.len(), g.sides as usize);
    net.w2[0] = 0;
    net.b2 = -1;
    let pos = chess_from_fen(&g, "4k3/8/8/8/8/8/8/4K3 w - - 0 1").unwrap();
    // (−1 · 100) >> 18 = −1.
    assert_eq!(net.eval(&g, &pos), -1);
    net.b2 = 262144 * 3;
    assert_eq!(net.eval(&g, &pos), 300);
}

#[test]
fn eval_with_a_net_asks_the_net() {
    let g = c::game();
    let net = counting_net(g.types.len(), g.sides as usize);
    let material = vec![0, 900, 500, 330, 320, 100];
    let e = Eval::with_net(material.clone(), net);
    assert_eq!(e.mobility_cp, 0);
    let mut pos = chess_from_fen(&g, "4k3/8/8/8/8/8/8/4KQ2 w - - 0 1").unwrap();
    assert_eq!(e.stm(&g, &mut pos), 100);
    let copy = e.duplicate();
    assert_eq!(copy.stm(&g, &mut pos), 100);
    assert_eq!(copy.material, material);
    // The engine searches on the net.
    let mut s = Searcher::new(&g, e);
    let r = s.search(&g, &mut pos, 2, 20_000);
    assert!(r.best.is_some());
}

#[test]
fn a_net_for_another_game_does_not_fit() {
    let g = c::game();
    let net = counting_net(g.types.len() + 1, g.sides as usize);
    assert!(!net.fits_game(&g));
}
