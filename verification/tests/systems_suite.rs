//! Systems obligations: the N-player FFA baseline ruling.

use botboard_core::belief::Belief;
use botboard_core::bits::MoveBit;
use botboard_core::codex::{belief_from_json, belief_to_json, warm_start};
use botboard_core::movegen::legal_moves;
use botboard_core::moves::move_str;
use botboard_core::position::Position;
use botboard_core::variants;
use botboard_core::eval::Eval;
use botboard_core::ffa::{play_ffa, FfaOutcome};
use botboard_core::game::{
    BoardDef, CaptureFate, GameDef, PassPolicy, PieceTypeDef, Policy, StalematePolicy, TurnPolicy,
    TypeId,
};
use botboard_core::geometry::DirFilter;

#[test]
fn three_player_ffa_reaches_a_verdict() {
    const K: TypeId = 0;
    const R: TypeId = 1;
    let types = vec![
        PieceTypeDef::new("king", 'K', vec![MoveBit::leaper(0, 1), MoveBit::leaper(1, 1)])
            .royal(),
        PieceTypeDef::new("rook", 'R', vec![MoveBit::rider(0, 1)]),
        PieceTypeDef::new(
            "guard",
            'G',
            vec![MoveBit::leaper(1, 1).dirs(DirFilter::All)],
        ),
    ];
    let policy = Policy {
        stalemate: StalematePolicy::Loss,
        capture_fate: CaptureFate::Destroy,
        turn: TurnPolicy::Alternate,
        pass: PassPolicy::Forbidden,
    };
    // Three corners of a 7x7.
    let start = vec![
        (K, 0, 0, 0),
        (R, 0, 1, 0),
        (2, 0, 0, 1),
        (K, 1, 6, 0),
        (R, 1, 5, 0),
        (2, 1, 6, 1),
        (K, 2, 3, 6),
        (R, 2, 4, 6),
        (2, 2, 3, 5),
    ];
    let g = GameDef::new(BoardDef { w: 7, h: 7 }, 3, types, vec![], policy, start);
    let eval = Eval::new(vec![0, 500, 200]);

    let (o1, plies1) = play_ffa(&g, &eval, 42, 300);
    let (o2, _) = play_ffa(&g, &eval, 42, 300);
    assert_eq!(o1, o2, "seeded determinism in FFA");
    assert!(plies1 > 0);
    match o1 {
        FfaOutcome::Win(s) => assert!(s < 3),
        FfaOutcome::DrawAmong(n) => assert!(n >= 1 && n <= 3),
    }
}

/// Belief sharpness: the sum of log2 of the hypothesis counts of the
/// pieces still in doubt (0 is a point mass).
fn entropy(b: &Belief) -> f64 {
    b.candidates.iter().filter(|c| c.len() > 1).map(|c| (c.len() as f64).log2()).sum()
}

/// Reconnaissance persists: the rematch belief is strictly sharper than a
/// cold open.
#[test]
fn codex_roundtrip_and_rematch_warm_start() {
    let g = variants::chess::game();
    let pos = Position::startpos(&g);
    let mut b = Belief::cold_open(&g, &pos, 0);
    let cold_entropy = entropy(&b);

    // First encounter: observe a few enemy moves.
    let mut p = pos.clone();
    p.set_stm(&g, 1);
    for mv_str in ["g8f6", "b8c6", "e7e5"] {
        let pre = p.clone();
        let mv = legal_moves(&g, &mut p)
            .into_iter()
            .find(|m| move_str(&g, m) == *mv_str)
            .unwrap();
        p.make(&g, &mv);
        b.observe(&g, &pre, &mv);
        p.set_stm(&g, 1);
    }
    assert!(entropy(&b) < cold_entropy);

    // Persist, parse, warm-start the rematch.
    let json = belief_to_json(&b);
    let codex = belief_from_json(&json).expect("parse codex");
    assert_eq!(codex.candidates, b.candidates, "lossless roundtrip");

    let rematch = warm_start(&g, &pos, 0, &codex);
    assert!(
        entropy(&rematch) < cold_entropy,
        "rematch must start sharper: {} < {cold_entropy}",
        entropy(&rematch)
    );
}
