//! The two board classes — mailbox+piece-list and the wide-bitboard kernel
//! path — must generate identical game trees: perft equality at depth.

use botboard_core::perft::perft;
use botboard_core::position::Position;
use botboard_core::variants;

#[test]
fn board_classes_agree_on_perft() {
    for (name, mut g, depth, expected) in [
        ("chess", variants::chess::game(), 4, 197281u64),
        ("xiangqi", variants::xiangqi::game(), 3, 79666),
        ("shogi", variants::shogi::game(), 3, 25470),
    ] {
        for use_bb in [false, true] {
            g.use_bitboards = use_bb;
            let mut pos = Position::startpos(&g);
            assert_eq!(
                perft(&g, &mut pos, depth),
                expected,
                "{name} perft({depth}) with use_bitboards={use_bb}"
            );
        }
    }
}

#[test]
fn consistency_check_reports_the_first_disagreement() {
    let g = botboard_core::variants::chess::game();
    let pos = botboard_core::position::Position::startpos(&g);
    assert_eq!(pos.assert_consistent("start"), Ok(()));
    // Piece 0 stands on square 4; point that cell at nobody.
    let mut broken = pos.clone();
    let sq = match broken.pieces[0].loc {
        botboard_core::position::Loc::Board(sq) => sq,
        _ => panic!("piece 0 starts on the board"),
    };
    broken.board[sq as usize] = -1;
    assert_eq!(
        broken.assert_consistent("t"),
        Err(format!("t: piece 0 thinks it is on {sq} but the mailbox disagrees"))
    );
    // An empty cell made to name piece 0.
    let mut stray = pos.clone();
    stray.board[27] = 0;
    assert_eq!(stray.assert_consistent("x"), Err("x: mailbox 27 points at piece 0 which is elsewhere".to_string()));
}
