//! Rung 1 of the ladder: determinized root voting.

use botboard_core::belief::Belief;
use botboard_core::eval::Eval;
use botboard_core::ladder::{pimc, Rung};
use botboard_core::movegen::legal_moves;
use botboard_core::position::Position;
use botboard_core::rng::Rng;
use botboard_core::search::Searcher;
use botboard_core::variants::chess as c;

fn material() -> Vec<i32> {
    let mut m = vec![0; 6];
    m[c::Q as usize] = 900;
    m[c::R as usize] = 500;
    m[c::B as usize] = 310;
    m[c::N as usize] = 300;
    m[c::P as usize] = 100;
    m
}

#[test]
fn pimc_votes_a_legal_root_move_under_a_cold_belief() {
    let g = c::game();
    let mut pos = Position::startpos(&g);
    let belief = Belief::cold_open(&g, &pos, 0);
    let mut s = Searcher::new(&g, Eval::new(material()));
    let mut rng = Rng::new(5);
    let mv = pimc(&g, &mut pos, &belief, &mut s, 2, 4_000, 3, &mut rng).expect("a root move");
    assert!(legal_moves(&g, &mut pos).contains(&mv));
    // Same seed, same belief: the same vote.
    let mut s2 = Searcher::new(&g, Eval::new(material()));
    let mut rng2 = Rng::new(5);
    let mv2 = pimc(&g, &mut pos, &belief, &mut s2, 2, 4_000, 3, &mut rng2).expect("a root move");
    assert_eq!(mv, mv2);
}

#[test]
fn pimc_without_worlds_takes_the_first_root_move() {
    let g = c::game();
    let mut pos = Position::startpos(&g);
    let belief = Belief::revealed(&pos, 0);
    let mut s = Searcher::new(&g, Eval::new(material()));
    let mut rng = Rng::new(1);
    let first = legal_moves(&g, &mut pos)[0];
    assert_eq!(pimc(&g, &mut pos, &belief, &mut s, 2, 4_000, 0, &mut rng), Some(first));
}

#[test]
fn pimc_has_nothing_to_play_when_mated() {
    let g = c::game();
    let mut pos = botboard_core::fen::chess_from_fen(&g, "7k/6Q1/6K1/8/8/8/8/8 b - - 0 1").unwrap();
    let belief = Belief::revealed(&pos, 1);
    let mut s = Searcher::new(&g, Eval::new(material()));
    let mut rng = Rng::new(1);
    assert_eq!(pimc(&g, &mut pos, &belief, &mut s, 2, 4_000, 2, &mut rng), None);
    assert!(Rung::R0PerfectInfo < Rung::R1Determinize);
}
