//! FEN reading: the fields it takes and the inputs it refuses.

use botboard_core::fen::chess_from_fen;
use botboard_core::moves::NO_SQ;
use botboard_core::variants;

#[test]
fn fen_reads_side_and_en_passant() {
    let g = variants::chess::game();
    let pos = chess_from_fen(&g, "rnbqkbnr/pppp1ppp/8/4p3/4P3/8/PPPP1PPP/RNBQKBNR b KQkq e3 0 2").unwrap();
    assert_eq!(pos.stm, 1);
    assert_eq!(pos.ep, g.board.sq(4, 2));
    assert_eq!(pos.pieces.len(), 32);
    let bare = chess_from_fen(&g, "4k3/8/8/8/8/8/8/4K3").unwrap();
    assert_eq!(bare.stm, 0);
    assert_eq!(bare.ep, NO_SQ);
    assert_eq!(bare.pieces.len(), 2);
}

#[test]
fn fen_castling_letters_restore_home_squares() {
    let g = variants::chess::game();
    let pos = chess_from_fen(&g, "r3k2r/8/8/8/8/8/8/R3K2R w Kq - 0 1").unwrap();
    let moved_on = |x: u8, y: u8| {
        let sq = g.board.sq(x, y);
        pos.piece_at(sq).map(|p| p.moved)
    };
    assert_eq!(moved_on(4, 0), Some(false));
    assert_eq!(moved_on(7, 0), Some(false));
    assert_eq!(moved_on(0, 0), Some(true));
    assert_eq!(moved_on(4, 7), Some(false));
    assert_eq!(moved_on(0, 7), Some(false));
    assert_eq!(moved_on(7, 7), Some(true));
}

#[test]
fn fen_refusals_name_the_fault() {
    let g = variants::chess::game();
    assert_eq!(chess_from_fen(&g, "   ").err(), Some("empty FEN".to_string()));
    assert_eq!(chess_from_fen(&g, "8/8/8/8/8/8/8/8 x").err(), Some("bad side: x".to_string()));
    assert_eq!(chess_from_fen(&g, "8/8/8/8/8/8/8/7z w").err(), Some("bad glyph: z".to_string()));
    assert_eq!(chess_from_fen(&g, "9K/8/8/8/8/8/8/8 w").err(), Some("placement out of bounds".to_string()));
    assert_eq!(chess_from_fen(&g, "8/8/8/8/8/8/8/8 w - z9").err(), Some("bad en-passant square".to_string()));
}
