//! Attack detection on reference positions: rays stop at the first piece,
//! cannons need exactly one screen, a hobbled horse strikes nothing.

use botboard_core::eval::Eval;
use botboard_core::fen::chess_from_fen;
use botboard_core::movegen::pseudo_moves;
use botboard_core::moves::MoveKind;
use botboard_core::position::Position;
use botboard_core::variants;

#[test]
fn rook_ray_stops_at_the_first_piece() {
    let g = variants::chess::game();
    let pos = chess_from_fen(&g, "4k3/8/8/8/R2p3K/8/8/8 w - - 0 1").unwrap();
    let sq = |x: u8, y: u8| g.board.sq(x, y);
    assert!(pos.is_attacked(&g, sq(1, 3), 0));
    assert!(pos.is_attacked(&g, sq(3, 3), 0), "the blocker itself is struck");
    assert!(!pos.is_attacked(&g, sq(4, 3), 0), "nothing beyond the blocker along the rank");
    assert!(pos.is_attacked(&g, sq(0, 7), 0), "the open file up to the edge");
    assert!(!pos.royal_attacked(&g, 1));
    assert!(!pos.royal_attacked(&g, 0));
}

#[test]
fn check_is_seen_from_either_side() {
    let g = variants::chess::game();
    let pos = chess_from_fen(&g, "4k3/8/8/8/8/8/8/4R2K b - - 0 1").unwrap();
    assert!(pos.royal_attacked(&g, 1));
    assert!(!pos.royal_attacked(&g, 0));
}

#[test]
fn xiangqi_cannon_needs_one_screen_and_horse_needs_a_free_leg() {
    let g = variants::xiangqi::game();
    let pos = Position::startpos(&g);
    let sq = |x: u8, y: u8| g.board.sq(x, y);
    // File 1 holds the red cannon on rank 2 and the black cannon on rank 7:
    // red's cannon strikes past that one screen, not the screen itself.
    assert!(pos.is_attacked(&g, sq(1, 9), 0), "the horse behind the screen");
    assert!(pos.is_attacked(&g, sq(1, 8), 0), "any square one screen away");
    assert!(!pos.is_attacked(&g, sq(1, 7), 0), "the screen itself");
    // The red horse on (1, 0): its leg towards (2, 2) is free, its leg
    // towards (3, 1) holds the elephant.
    assert!(pos.is_attacked(&g, sq(2, 2), 0));
    assert!(!pos.is_attacked(&g, sq(3, 1), 0));
}

#[test]
fn material_only_scores_sum_the_armies() {
    let g = variants::chess::game();
    let mut pos = chess_from_fen(&g, "4k3/pppp4/8/8/8/8/PP6/QR2K3 w - - 0 1").unwrap();
    let eval = Eval { material: vec![0, 900, 500, 330, 320, 100], mobility_cp: 0, net: None };
    assert_eq!(eval.players(&g, &mut pos), vec![1600, 400]);
    assert_eq!(eval.stm(&g, &mut pos), 1200);
    let mobile = Eval::new(vec![0, 900, 500, 330, 320, 100]);
    let scores = mobile.players(&g, &mut pos);
    assert!(scores[0] > 1600 && scores[1] > 400, "mobility only adds for a side with moves");
}

#[test]
fn every_generated_capture_is_an_attack() {
    let fens = [
        "r3k2r/p1ppqpb1/bn2pnp1/3PN3/1p2P3/2N2Q1p/PPPBBPPP/R3K2R w KQkq - 0 1",
        "r3k2r/p1ppqpb1/bn2pnp1/3PN3/1p2P3/2N2Q1p/PPPBBPPP/R3K2R b KQkq - 0 1",
        "8/2p5/3p4/KP5r/1R3p1k/8/4P1P1/8 w - - 0 1",
    ];
    let g = variants::chess::game();
    let mut captures = 0;
    for fen in fens {
        let pos = chess_from_fen(&g, fen).unwrap();
        for m in pseudo_moves(&g, &pos) {
            if m.kind == MoveKind::Normal && pos.board[m.to as usize] >= 0 {
                captures += 1;
                let victim = pos.piece_at(m.to).unwrap();
                assert_ne!(victim.side, pos.stm);
                assert!(pos.is_attacked(&g, m.to, pos.stm));
            }
        }
    }
    assert!(captures > 0);
    let x = variants::xiangqi::game();
    let pos = Position::startpos(&x);
    let cannon_hits = pseudo_moves(&x, &pos)
        .into_iter()
        .filter(|m| m.kind == MoveKind::Normal && pos.board[m.to as usize] >= 0)
        .inspect(|m| assert!(pos.is_attacked(&x, m.to, 0)))
        .count();
    assert_eq!(cannon_hits, 2, "the two cannons each take a horse over a screen");
}
