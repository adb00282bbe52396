//! The game's start position as a value: what it is, and that the game
//! determines it.

use vstd::prelude::*;
use crate::game::GameDef;
use crate::moves::NO_SQ;
use crate::position::{Loc, PosView, Position, on_board_at, start_claimed_before, view_wf};
use crate::terrain_defs::T_NONE;

verus! {

/// What the game's start position is: a consistent position with the
/// start list on the board (a later entry on a taken square dead), every
/// piece unmoved at full health, bare terrain, empty hands, side 0 to move
/// and no passant square.
pub open spec fn is_start_view(g: GameDef, v: PosView) -> bool {
    &&& view_wf(v, g)
    &&& v.hash == g.zobrist.spec_full_hash(v)
    &&& v.stm == 0
    &&& v.ep == NO_SQ
    &&& v.pieces.len() == g.start@.len()
    &&& forall|k: int| 0 <= k < g.start@.len() ==> {
        let e = #[trigger] g.start@[k];
        let p = v.pieces[k];
        &&& p.t == e.0 && p.base == e.0 && p.side == e.1 && !p.moved
        &&& v.hp[k] == g.types@[e.0 as int].max_hp
        &&& p.loc == (if start_claimed_before(g, k) { Loc::Dead } else {
            Loc::Board(g.board.spec_sq(e.2 as int, e.3 as int) as u16) })
    }
    &&& forall|sq: int| 0 <= sq < v.terrain.len() ==> v.terrain[sq] == T_NONE
    &&& forall|s: int, t: int| 0 <= s < g.sides && 0 <= t < g.ntypes() ==> #[trigger] v.hands[s][t] == 0
}

/// The start position is determined by the game.
pub proof fn lemma_start_view_unique(g: GameDef, v1: PosView, v2: PosView)
    requires
        is_start_view(g, v1),
        is_start_view(g, v2),
    ensures
        v1 == v2,
{
    assert forall|k: int| 0 <= k < v1.pieces.len() implies v1.pieces[k] == v2.pieces[k] && v1.hp[k] == v2.hp[k] by {
        let e = g.start@[k];
    }
    assert(v1.pieces =~= v2.pieces);
    assert(v1.hp =~= v2.hp);
    assert(v1.terrain =~= v2.terrain);
    assert forall|s: int| 0 <= s < v1.hands.len() implies v1.hands[s] =~= v2.hands[s] by {
        assert forall|t: int| 0 <= t < v1.hands[s].len() implies v1.hands[s][t] == v2.hands[s][t] by {
            assert(v1.hands[s][t] == 0);
            assert(v2.hands[s][t] == 0);
        }
    }
    assert(v1.hands =~= v2.hands);
    assert forall|sq: int| 0 <= sq < v1.board.len() implies v1.board[sq] == v2.board[sq] by {
        crate::game::lemma_ncells_bound(g.board);
        let e1 = v1.board[sq];
        let e2 = v2.board[sq];
        assert((sq as u16) as int == sq);
        if e1 != -1 {
            assert(0 <= e1 < v1.pieces.len() && v1.pieces[e1 as int].loc == Loc::Board(sq as u16));
            assert(on_board_at(v2.pieces[e1 as int], v2.board, e1 as int));
        }
        if e2 != -1 {
            assert(0 <= e2 < v2.pieces.len() && v2.pieces[e2 as int].loc == Loc::Board(sq as u16));
            assert(on_board_at(v1.pieces[e2 as int], v1.board, e2 as int));
        }
    }
    assert(v1.board =~= v2.board);
    assert(v1.with_hash(0) == v2.with_hash(0));
}

/// The game's start position.
pub open spec fn spec_startpos(g: GameDef) -> PosView {
    choose|v: PosView| is_start_view(g, v)
}


/// A position as `Position::startpos` describes its result is the start
/// position.
pub proof fn lemma_startpos_value(g: GameDef, pos: Position)
    requires
        pos.wf(g),
        pos.stm == 0,
        pos.ep == NO_SQ,
        pos.hash == g.zobrist.spec_full_hash(pos@),
        pos.pieces@.len() == g.start@.len(),
        forall|k: int| 0 <= k < g.start@.len() ==> {
            let e = #[trigger] g.start@[k];
            let p = pos.pieces@[k];
            &&& p.t == e.0 && p.base == e.0 && p.side == e.1 && !p.moved
            &&& pos.hp@[k] == g.types@[e.0 as int].max_hp
            &&& p.loc == (if start_claimed_before(g, k) { Loc::Dead } else {
                Loc::Board(g.board.spec_sq(e.2 as int, e.3 as int) as u16) })
        },
        forall|sq: int| 0 <= sq < pos.terrain@.len() ==> pos.terrain@[sq] == T_NONE,
        forall|s: int, t: int| 0 <= s < g.sides && 0 <= t < g.ntypes() ==> #[trigger] pos@.hands[s][t] == 0,
    ensures
        pos@ == spec_startpos(g),
{
    let v = pos@;
    assert(is_start_view(g, v));
    lemma_start_view_unique(g, v, spec_startpos(g));
}

} // verus!
