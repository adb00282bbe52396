//! Self-play: seeded games are reproducible.

use botboard_core::cost::mobility_counts;
use botboard_core::eval::Eval;
use botboard_core::game::{GameDef, TypeId};
use botboard_core::search::Searcher;
use botboard_core::selfplay::{play_game, repeated_thrice};
use botboard_core::variants::chess as c;

/// Average (moved, attacked) destination counts of a type for side 0.
fn averages(g: &GameDef, t: TypeId) -> (f64, f64) {
    let m = mobility_counts(g, t, 0);
    (m.moved as f64 / m.placements as f64, m.attacked as f64 / m.placements as f64)
}

/// Centipawn material fitted on the chess anchors (P 1, N 3, B 3, R 5,
/// Q 9) by least squares on the mobility averages; royals are 0. The
/// chess types carry no ability, armour or flag, so each prior is the
/// weighted mobility, at least 1.
fn chess_material() -> (GameDef, Vec<i32>) {
    let g = c::game();
    let anchors = [(c::P, 1.0f64), (c::N, 3.0), (c::B, 3.0), (c::R, 5.0), (c::Q, 9.0)];
    let (mut a11, mut a12, mut a22, mut b1, mut b2) = (0f64, 0f64, 0f64, 0f64, 0f64);
    for &(t, value) in anchors.iter() {
        let (mv, at) = averages(&g, t);
        a11 += mv * mv;
        a12 += mv * at;
        a22 += at * at;
        b1 += mv * value;
        b2 += at * value;
    }
    let det = a11 * a22 - a12 * a12;
    let mut w = None;
    if det.abs() > 1e-9 {
        let wm = (b1 * a22 - b2 * a12) / det;
        let wa = (b2 * a11 - b1 * a12) / det;
        if wm >= 0.0 && wa >= 0.0 {
            w = Some((wm, wa));
        }
    }
    let (wm, wa) = match w {
        Some(x) => x,
        None => {
            let k = (b1 + b2) / (a11 + 2.0 * a12 + a22).max(1e-9);
            (k, k)
        }
    };
    let mut material = Vec::new();
    for t in 0..g.types.len() {
        if g.types[t].royal {
            material.push(0);
        } else {
            let (mv, at) = averages(&g, t as TypeId);
            let prior = (mv * wm + at * wa).max(1.0);
            material.push((prior * 100.0).round() as i32);
        }
    }
    (g, material)
}

#[test]
fn selfplay_game_terminates_and_is_deterministic() {
    let (g, material) = chess_material();
    let run = |seed: u64| {
        let mut s0 = Searcher::new(&g, Eval::new(material.clone()));
        let mut s1 = Searcher::new(&g, Eval::new(material.clone()));
        let rec = play_game(&g, &mut s0, &mut s1, (2, 2), (20_000, 20_000), seed, 4, 120, 8);
        (rec.outcome, rec.plies, rec.samples.len())
    };
    let a = run(7);
    let b = run(7);
    assert_eq!(a, b, "same seed ⇒ bit-identical game");
    let c = run(8);
    assert!(a.1 > 0 && c.1 > 0);
}

#[test]
fn repetition_draw_counts_the_last_key() {
    assert!(!repeated_thrice(&vec![]));
    assert!(!repeated_thrice(&vec![7, 7]));
    assert!(repeated_thrice(&vec![7, 1, 7, 2, 7]));
    assert!(!repeated_thrice(&vec![7, 7, 7, 1]));
    assert!(repeated_thrice(&vec![1, 7, 1, 7, 1]));
}
