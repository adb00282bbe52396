//! Western chess from Bits.

use vstd::prelude::*;
use crate::bits::{Geometry, Mode, MoveBit, SpecialBit};
use crate::game::{
    BoardDef, CaptureFate, GameDef, PassPolicy, PieceTypeDef, Policy, PromoRule, PromoTrigger,
    Side, StalematePolicy, TurnPolicy, TypeId, Zone, type_ok, types_ok,
};
use crate::geometry::DirFilter;

verus! {

pub const K: TypeId = 0;
pub const Q: TypeId = 1;
pub const R: TypeId = 2;
pub const B: TypeId = 3;
pub const N: TypeId = 4;
pub const P: TypeId = 5;

pub const Z_PAWN_START: usize = 0;
pub const Z_LAST_RANK: usize = 1;

/// The back-rank piece on file `x`.
pub fn back_rank(x: u8) -> (t: TypeId)
    ensures
        t <= P,
        t == (if x == 0 || x == 7 { R } else if x == 1 || x == 6 { N } else if x == 2 || x == 5 { B } else if x == 3 { Q } else { K }),
{
    if x == 0 || x == 7 { R } else if x == 1 || x == 6 { N } else if x == 2 || x == 5 { B } else if x == 3 { Q } else { K }
}

/// The chess start list entry `k`: file `k / 4`, in the order back-rank
/// piece of side 0, of side 1, pawn of side 0, of side 1.
pub open spec fn start_entry(k: int) -> (TypeId, Side, u8, u8) {
    let x = (k / 4) as u8;
    let b = if x == 0 || x == 7 { R } else if x == 1 || x == 6 { N } else if x == 2 || x == 5 { B } else if x == 3 { Q } else { K };
    if k % 4 == 0 {
        (b, 0, x, 0)
    } else if k % 4 == 1 {
        (b, 1, x, 7)
    } else if k % 4 == 2 {
        (P, 0, x, 1)
    } else {
        (P, 1, x, 6)
    }
}

pub fn game() -> (g: GameDef)
    ensures
        g.wf(),
        g.start_ok(),
        g.sides == 2,
        g.board.w == 8 && g.board.h == 8,
        g.types@.len() == 6,
        g.types@[K as int].glyph == 'K' && g.types@[K as int].royal,
        g.types@[Q as int].glyph == 'Q' && !g.types@[Q as int].royal,
        g.types@[R as int].glyph == 'R' && g.types@[R as int].castle_partner,
        g.types@[B as int].glyph == 'B' && !g.types@[B as int].royal,
        g.types@[N as int].glyph == 'N' && !g.types@[N as int].royal,
        g.types@[P as int].glyph == 'P' && !g.types@[P as int].royal,
        g.types@[K as int].bits@.len() == 2 && g.types@[K as int].bits@[0].geom == Geometry::Leaper(0, 1)
            && g.types@[K as int].bits@[1].geom == Geometry::Leaper(1, 1),
        g.types@[Q as int].bits@.len() == 2 && g.types@[Q as int].bits@[0].geom == Geometry::Rider(0, 1)
            && g.types@[Q as int].bits@[1].geom == Geometry::Rider(1, 1),
        g.types@[R as int].bits@.len() == 1 && g.types@[R as int].bits@[0].geom == Geometry::Rider(0, 1),
        g.types@[B as int].bits@.len() == 1 && g.types@[B as int].bits@[0].geom == Geometry::Rider(1, 1),
        g.types@[N as int].bits@.len() == 1 && g.types@[N as int].bits@[0].geom == Geometry::Leaper(1, 2),
        g.types@[P as int].bits@.len() == 2 && g.types@[P as int].bits@[0].geom == Geometry::Leaper(0, 1)
            && g.types@[P as int].bits@[1].geom == Geometry::Leaper(1, 1),
        g.start@.len() == 32,
        forall|k: int| 0 <= k < 32 ==> #[trigger] g.start@[k] == start_entry(k),
        g.policy.stalemate == StalematePolicy::Draw,
        g.policy.capture_fate == CaptureFate::Destroy,
{
    let board = BoardDef { w: 8, h: 8 };
    let mut pawn_start = Zone::new(2);
    pawn_start.add_rect(0, &board, 0, 1, 7, 1);
    pawn_start.add_rect(1, &board, 0, 6, 7, 6);
    let mut last_rank = Zone::new(2);
    last_rank.add_rect(0, &board, 0, 7, 7, 7);
    last_rank.add_rect(1, &board, 0, 0, 7, 0);

    let king = PieceTypeDef::new("king", 'K', vec![MoveBit::leaper(0, 1), MoveBit::leaper(1, 1)])
        .royal()
        .specials(vec![SpecialBit::Castling]);
    let queen = PieceTypeDef::new("queen", 'Q', vec![MoveBit::rider(0, 1), MoveBit::rider(1, 1)]);
    let rook = PieceTypeDef::new("rook", 'R', vec![MoveBit::rider(0, 1)]).castle_partner();
    let bishop = PieceTypeDef::new("bishop", 'B', vec![MoveBit::rider(1, 1)]);
    let knight = PieceTypeDef::new("knight", 'N', vec![MoveBit::leaper(1, 2)]);
    let pawn = PieceTypeDef::new(
        "pawn",
        'P',
        vec![
            MoveBit::leaper(0, 1).dirs(DirFilter::Forward).mode(Mode::Move),
            MoveBit::leaper(1, 1).dirs(DirFilter::Forward).mode(Mode::Capture),
        ],
    )
    .specials(vec![SpecialBit::DoubleStep { start_zone: Z_PAWN_START }, SpecialBit::EnPassant])
    .promo(PromoRule { zone: Z_LAST_RANK, choices: vec![Q, R, B, N], trigger: PromoTrigger::Dest, optional: false });
    proof {
        assert(type_ok(king, 6));
        assert(type_ok(queen, 6));
        assert(type_ok(rook, 6));
        assert(type_ok(bishop, 6));
        assert(type_ok(knight, 6));
        assert(type_ok(pawn, 6));
    }
    let types = vec![king, queen, rook, bishop, knight, pawn];
    assert(types_ok(types@));

    let policy = Policy {
        stalemate: StalematePolicy::Draw,
        capture_fate: CaptureFate::Destroy,
        turn: TurnPolicy::Alternate,
        pass: PassPolicy::Forbidden,
    };

    let mut start: Vec<(TypeId, Side, u8, u8)> = Vec::new();
    let mut x: u8 = 0;
    while x < 8
        invariant
            x <= 8,
            start@.len() == 4 * x,
            forall|k: int| 0 <= k < start@.len() ==> {
                let e = #[trigger] start@[k];
                e.0 <= P && e.1 < 2 && e.2 < 8 && e.3 < 8
            },
            forall|k: int| 0 <= k < start@.len() ==> #[trigger] start@[k] == start_entry(k),
        decreases 8 - x,
    {
        let t = back_rank(x);
        let ghost n0 = start@.len() as int;
        start.push((t, 0, x, 0));
        start.push((t, 1, x, 7));
        start.push((P, 0, x, 1));
        start.push((P, 1, x, 6));
        proof {
            assert(n0 / 4 == x as int && n0 % 4 == 0);
            assert((n0 + 1) / 4 == x as int && (n0 + 1) % 4 == 1);
            assert((n0 + 2) / 4 == x as int && (n0 + 2) % 4 == 2);
            assert((n0 + 3) / 4 == x as int && (n0 + 3) % 4 == 3);
            assert(start@[n0] == start_entry(n0));
            assert(start@[n0 + 1] == start_entry(n0 + 1));
            assert(start@[n0 + 2] == start_entry(n0 + 2));
            assert(start@[n0 + 3] == start_entry(n0 + 3));
        }
        x += 1;
    }
    proof {
        assert(board.w * board.h == 64) by (nonlinear_arith) requires board.w == 8, board.h == 8;
        assert(board.spec_ncells() == 64);
        assert(crate::zobrist::table_sizes_fit(64, 6, 2));
        assert(crate::game::config_ok(board, 2, types@, 0));
    }
    let g = GameDef::new(board, 2, types, vec![pawn_start, last_rank], policy, start);
    assert(g.start_ok());
    g
}

} // verus!
