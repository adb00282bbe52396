//! Beliefs over hidden piece identities: cold opens, observation,
//! determinization, the pivotal test, and the codex that persists them.

use botboard_core::belief::{determinize, Belief};
use botboard_core::codex::{belief_from_json, belief_to_json, warm_start};
use botboard_core::game::TypeId;
use botboard_core::position::Position;
use botboard_core::rng::Rng;
use botboard_core::variants::chess as c;

fn same_position(a: &Position, b: &Position) -> bool {
    a.board == b.board
        && a.pieces == b.pieces
        && a.hp == b.hp
        && a.terrain == b.terrain
        && a.stm == b.stm
        && a.ep == b.ep
        && a.hands == b.hands
        && a.hash == b.hash
}

fn sorted(mut v: Vec<TypeId>) -> Vec<TypeId> {
    v.sort();
    v
}

#[test]
fn cold_open_lists_the_enemy_non_royal_types_once_each() {
    let g = c::game();
    let pos = Position::startpos(&g);
    let b = Belief::cold_open(&g, &pos, 0);
    assert_eq!(b.observer, 0);
    assert_eq!(b.candidates.len(), pos.pieces.len());
    let expect = sorted(vec![c::P, c::N, c::B, c::R, c::Q]);
    for (i, p) in pos.pieces.iter().enumerate() {
        if p.side == 1 && p.t != c::K {
            assert_eq!(b.candidates[i], expect);
        } else {
            assert!(b.candidates[i].is_empty());
        }
    }
}

#[test]
fn revealed_belief_tracks_nothing() {
    let g = c::game();
    let pos = Position::startpos(&g);
    let b = Belief::revealed(&pos, 1);
    assert_eq!(b.observer, 1);
    assert_eq!(b.candidates.len(), pos.pieces.len());
    assert!(b.candidates.iter().all(|c| c.is_empty()));
}

#[test]
fn pivotal_needs_a_factor_two_spread() {
    // Types 0..3 worth 0, 100, 150, 300.
    let material = vec![0, 100, 150, 300];
    let narrow = Belief { observer: 0, candidates: vec![vec![1, 2], vec![], vec![3]] };
    assert!(!narrow.pivotal(&material));
    let wide = Belief { observer: 0, candidates: vec![vec![1, 2], vec![1, 3]] };
    assert!(wide.pivotal(&material));
    // A worthless hypothesis counts as worth 1: 100 > 2.
    let floor = Belief { observer: 0, candidates: vec![vec![0, 1]] };
    assert!(floor.pivotal(&material));
    // One hypothesis is no uncertainty at all.
    let single = Belief { observer: 0, candidates: vec![vec![3]] };
    assert!(!single.pivotal(&material));
}

#[test]
fn determinize_keeps_the_army_and_the_belief() {
    let g = c::game();
    let pos = Position::startpos(&g);
    let b = Belief::cold_open(&g, &pos, 0);
    for seed in 0..8u64 {
        let mut rng = Rng::new(seed);
        let w = determinize(&g, &pos, &b, &mut rng, 50);
        let mut truth_types = Vec::new();
        let mut world_types = Vec::new();
        for i in 0..pos.pieces.len() {
            let (p, q) = (pos.pieces[i], w.pieces[i]);
            if b.candidates[i].len() > 1 {
                truth_types.push(p.t);
                world_types.push(q.t);
                assert!(b.candidates[i].contains(&q.t));
                assert_eq!(q.base, q.t);
                assert_eq!((q.side, q.loc, q.moved), (p.side, p.loc, p.moved));
            } else {
                assert_eq!(p, q);
            }
        }
        assert_eq!(sorted(truth_types), sorted(world_types), "the hidden army is the same multiset");
        assert_eq!(w.board, pos.board);
        let mut again = w.clone();
        again.rehash(&g);
        assert_eq!(again.hash, w.hash, "the key is recomputed");
    }
}

#[test]
fn determinize_falls_back_to_the_truth() {
    let g = c::game();
    let pos = Position::startpos(&g);
    let cold = Belief::cold_open(&g, &pos, 0);
    let mut rng = Rng::new(3);
    assert!(same_position(&determinize(&g, &pos, &cold, &mut rng, 0), &pos));
    let revealed = Belief::revealed(&pos, 0);
    assert!(same_position(&determinize(&g, &pos, &revealed, &mut rng, 10), &pos));
}

#[test]
fn codex_text_is_exact() {
    let b = Belief { observer: 1, candidates: vec![vec![], vec![1, 2, 13], vec![4]] };
    assert_eq!(
        belief_to_json(&b),
        "{\n  \"version\": 1,\n  \"observer\": 1,\n  \"candidates\": [\n    [],\n    [1,2,13],\n    [4]\n  ]\n}\n"
    );
    let empty = Belief { observer: 255, candidates: vec![] };
    assert_eq!(
        belief_to_json(&empty),
        "{\n  \"version\": 1,\n  \"observer\": 255,\n  \"candidates\": [\n  ]\n}\n"
    );
}

#[test]
fn codex_roundtrips_edge_beliefs() {
    for b in [
        Belief { observer: 255, candidates: vec![] },
        Belief { observer: 0, candidates: vec![vec![], vec![]] },
        Belief { observer: 7, candidates: vec![vec![255, 0, 9], vec![100]] },
    ] {
        let back = belief_from_json(&belief_to_json(&b)).unwrap();
        assert_eq!(back.observer, b.observer);
        assert_eq!(back.candidates, b.candidates);
    }
}

#[test]
fn codex_reader_reports_what_is_missing() {
    assert_eq!(belief_from_json("").unwrap_err(), "missing observer");
    assert_eq!(belief_from_json("{\"observer\": x, \"candidates\": []}").unwrap_err(), "missing observer");
    assert_eq!(belief_from_json("{\"observer\": 256, \"candidates\": []}").unwrap_err(), "missing observer");
    assert_eq!(belief_from_json("{\"observer\": 2,\n}").unwrap_err(), "missing candidates");
}

#[test]
fn codex_reader_is_tolerant() {
    let b = belief_from_json("\"observer\": +3 ,\n \"candidates\": [[ 1, x ,2],[ ],[7]] trailing").unwrap();
    assert_eq!(b.observer, 3);
    assert_eq!(b.candidates, vec![vec![1, 2], vec![], vec![7]]);
}

#[test]
fn warm_start_intersects_with_the_codex() {
    let g = c::game();
    let pos = Position::startpos(&g);
    let cold = Belief::cold_open(&g, &pos, 0);
    // An empty codex changes nothing.
    let none = Belief { observer: 0, candidates: vec![] };
    assert_eq!(warm_start(&g, &pos, 0, &none).candidates, cold.candidates);
    // A codex that pins one piece and names an absent type for another.
    let i = pos.board[g.board.sq(6, 7) as usize] as usize;
    let j = pos.board[g.board.sq(0, 7) as usize] as usize;
    let mut known = vec![Vec::new(); pos.pieces.len()];
    known[i] = vec![c::N];
    known[j] = vec![c::K];
    let codex = Belief { observer: 0, candidates: known };
    let warm = warm_start(&g, &pos, 0, &codex);
    assert_eq!(warm.candidates[i], vec![c::N]);
    assert_eq!(warm.candidates[j], cold.candidates[j], "an empty intersection keeps the cold list");
    for k in 0..pos.pieces.len() {
        if k != i {
            assert_eq!(warm.candidates[k], cold.candidates[k]);
        }
    }
}
