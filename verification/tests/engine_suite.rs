//! Engine-layer tests: rung-0 search sanity.

use botboard_core::belief::Belief;
use botboard_core::eval::Eval;
use botboard_core::movegen::legal_moves;
use botboard_core::position::Position;
use botboard_core::game::GameDef;
use botboard_core::moves::move_str;
use botboard_core::fen::chess_from_fen;
use botboard_core::search::{Searcher, MATE};
use botboard_core::variants::chess as c;

fn chess_eval() -> (GameDef, Eval) {
    let g = c::game();
    // Classical values suffice for search sanity tests.
    let mut material = vec![0i32; g.types.len()];
    material[c::Q as usize] = 900;
    material[c::R as usize] = 500;
    material[c::B as usize] = 310;
    material[c::N as usize] = 300;
    material[c::P as usize] = 100;
    (g, Eval::new(material))
}

#[test]
fn search_finds_mate_in_one() {
    let (g, e) = chess_eval();
    // Scholar's mate in hand: Qxf7#
    let mut pos = chess_from_fen(
        &g,
        "r1bqkbnr/pppp1ppp/2n5/4p3/2B1P3/5Q2/PPPP1PPP/RNB1K1NR w KQkq - 0 1",
    )
    .unwrap();
    let mut s = Searcher::new(&g, e);
    let r = s.search(&g, &mut pos, 3, u64::MAX);
    assert!(r.score >= MATE - 10, "mate score, got {}", r.score);
    let mv = r.best.unwrap();
    assert_eq!(move_str(&g, &mv), "f3f7");
}

#[test]
fn search_finds_back_rank_mate_in_two() {
    let (g, e) = chess_eval();
    let mut pos = chess_from_fen(&g, "6k1/5ppp/8/8/8/8/R7/K6R w - - 0 1").unwrap();
    let mut s = Searcher::new(&g, e);
    let r = s.search(&g, &mut pos, 4, u64::MAX);
    assert!(r.score >= MATE - 10, "mate-in-2 score, got {}", r.score);
}

/// Belief sharpness: the sum of log2 of the hypothesis counts of the
/// pieces still in doubt (0 is a point mass).
fn entropy(b: &Belief) -> f64 {
    b.candidates.iter().filter(|c| c.len() > 1).map(|c| (c.len() as f64).log2()).sum()
}

#[test]
fn belief_collapses_with_observation() {
    let g = c::game();
    let pos = Position::startpos(&g);
    let mut b = Belief::cold_open(&g, &pos, 0);
    let h0 = entropy(&b);
    assert!(h0 > 0.0);

    // Black plays g8f6 (a knight move): the mover's hypotheses must shrink
    // to types whose kernels generate it, the knight uniquely, here.
    let mut p2 = pos.clone();
    p2.set_stm(&g, 1);
    let mv = legal_moves(&g, &mut p2)
        .into_iter()
        .find(|m| move_str(&g, m) == "g8f6")
        .unwrap();
    b.observe(&g, &p2, &mv);
    assert!(entropy(&b) < h0, "entropy must drop after observation");
    let idx = p2.board[g.board.sq(6, 7) as usize] as usize;
    assert_eq!(b.candidates[idx], vec![c::N]);
}
