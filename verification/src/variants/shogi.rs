//! Shogi from Bits: capture-to-hand, drops with the three legality tiers,
//! optional/forced promotion with base-type de-promotion.

use vstd::prelude::*;
use crate::bits::{fresh_bit, Geometry, Mode, MoveBit};
use crate::game::{
    BoardDef, CaptureFate, GameDef, PassPolicy, PieceTypeDef, Policy, PromoRule, PromoTrigger,
    Side, StalematePolicy, TurnPolicy, TypeId, Zone, type_ok, types_ok, bit_ok,
};
use crate::geometry::{Delta, DirFilter};

verus! {

pub const K: TypeId = 0;
pub const R: TypeId = 1;
pub const B: TypeId = 2;
pub const G: TypeId = 3;
pub const S: TypeId = 4;
pub const N: TypeId = 5;
pub const L: TypeId = 6;
pub const P: TypeId = 7;
/// Dragon.
pub const PR: TypeId = 8;
/// Horse.
pub const PB: TypeId = 9;
pub const PS: TypeId = 10;
pub const PN: TypeId = 11;
pub const PL: TypeId = 12;
/// Tokin.
pub const PP: TypeId = 13;

pub const Z_PROMO: usize = 0;

fn gold_bits() -> (v: Vec<MoveBit>)
    ensures
        forall|k: int| 0 <= k < v@.len() ==> #[trigger] bit_ok(v@[k]),
        v@.len() == 2,
        fresh_bit(Geometry::Leaper(0, 1), v@[0]) && v@[0].mode == Mode::Both,
        v@[1].dirs == DirFilter::Forward,
        fresh_bit(Geometry::Leaper(1, 1), MoveBit { dirs: DirFilter::All, ..v@[1] }) && v@[1].mode == Mode::Both,
{
    vec![MoveBit::leaper(0, 1), MoveBit::leaper(1, 1).dirs(DirFilter::Forward)]
}

fn promo(to: TypeId) -> (p: PromoRule)
    ensures
        p.choices@ == seq![to],
{
    PromoRule { zone: Z_PROMO, choices: vec![to], trigger: PromoTrigger::FromOrDest, optional: true }
}

/// The back-rank piece on file `x`.
pub fn back_rank(x: u8) -> (t: TypeId)
    ensures
        t <= P,
        t == (if x == 0 || x == 8 { L } else if x == 1 || x == 7 { N } else if x == 2 || x == 6 { S }
            else if x == 3 || x == 5 { G } else { K }),
{
    if x == 0 || x == 8 { L } else if x == 1 || x == 7 { N } else if x == 2 || x == 6 { S }
    else if x == 3 || x == 5 { G } else { K }
}

/// The shogi start list entry `k`: the back ranks file by file (side 0,
/// then side 1), the rooks and bishops, then the pawn ranks file by file.
pub open spec fn start_entry(k: int) -> (TypeId, Side, u8, u8) {
    if k < 18 {
        let x = (k / 2) as u8;
        let b = if x == 0 || x == 8 { L } else if x == 1 || x == 7 { N } else if x == 2 || x == 6 { S }
                    else if x == 3 || x == 5 { G } else { K };
        if k % 2 == 0 { (b, 0, x, 0) } else { (b, 1, x, 8) }
    } else if k == 18 {
        (B, 0, 1, 1)
    } else if k == 19 {
        (R, 0, 7, 1)
    } else if k == 20 {
        (R, 1, 1, 7)
    } else if k == 21 {
        (B, 1, 7, 7)
    } else {
        let x = ((k - 22) / 2) as u8;
        if (k - 22) % 2 == 0 { (P, 0, x, 2) } else { (P, 1, x, 6) }
    }
}

pub fn game() -> (g: GameDef)
    ensures
        g.wf(),
        g.start_ok(),
        g.sides == 2,
        g.board.w == 9 && g.board.h == 9,
        g.types@.len() == 14,
        g.types@[K as int].glyph == 'K' && g.types@[K as int].royal,
        g.types@[R as int].glyph == 'R' && g.types@[B as int].glyph == 'B' && g.types@[G as int].glyph == 'G',
        g.types@[S as int].glyph == 'S' && g.types@[N as int].glyph == 'N' && g.types@[L as int].glyph == 'L',
        g.types@[P as int].glyph == 'P' && g.types@[PR as int].glyph == 'D' && g.types@[PB as int].glyph == 'H',
        g.types@[PS as int].glyph == 'T' && g.types@[PN as int].glyph == 'U' && g.types@[PL as int].glyph == 'V',
        g.types@[PP as int].glyph == 'W',
        g.start@.len() == 40,
        forall|k: int| 0 <= k < 40 ==> #[trigger] g.start@[k] == start_entry(k),
        g.policy.stalemate == StalematePolicy::Loss,
        g.policy.capture_fate == CaptureFate::ToHand,
{
    let board = BoardDef { w: 9, h: 9 };
    let mut pz = Zone::new(2);
    pz.add_rect(0, &board, 0, 6, 8, 8);
    pz.add_rect(1, &board, 0, 0, 8, 2);

    // The shogi knight jumps only to the two narrow-forward squares.
    let knight_dirs = DirFilter::Custom(vec![Delta::new(1, 2), Delta::new(-1, 2)]);

    let king = PieceTypeDef::new("king", 'K', vec![MoveBit::leaper(0, 1), MoveBit::leaper(1, 1)]).royal();
    let rook = PieceTypeDef::new("rook", 'R', vec![MoveBit::rider(0, 1)]).promo(promo(PR)).droppable();
    let bishop = PieceTypeDef::new("bishop", 'B', vec![MoveBit::rider(1, 1)]).promo(promo(PB)).droppable();
    let gold = PieceTypeDef::new("gold", 'G', gold_bits()).droppable();
    let silver = PieceTypeDef::new("silver", 'S', vec![MoveBit::leaper(1, 1), MoveBit::leaper(0, 1).dirs(DirFilter::Forward)])
        .promo(promo(PS)).droppable();
    let knight = PieceTypeDef::new("knight", 'N', vec![MoveBit::leaper(1, 2).dirs(knight_dirs)]).promo(promo(PN)).droppable();
    let lance = PieceTypeDef::new("lance", 'L', vec![MoveBit::rider(0, 1).dirs(DirFilter::Forward)]).promo(promo(PL)).droppable();
    let pawn = PieceTypeDef::new("pawn", 'P', vec![MoveBit::leaper(0, 1).dirs(DirFilter::Forward)])
        .promo(promo(PP)).droppable().nifu().no_drop_mate();
    let dragon = PieceTypeDef::new("dragon", 'D', vec![MoveBit::rider(0, 1), MoveBit::leaper(1, 1)]);
    let horse = PieceTypeDef::new("promoted-bishop", 'H', vec![MoveBit::rider(1, 1), MoveBit::leaper(0, 1)]);
    let psilver = PieceTypeDef::new("promoted-silver", 'T', gold_bits());
    let pknight = PieceTypeDef::new("promoted-knight", 'U', gold_bits());
    let plance = PieceTypeDef::new("promoted-lance", 'V', gold_bits());
    let tokin = PieceTypeDef::new("tokin", 'W', gold_bits());
    proof {
        assert(type_ok(king, 14));
        assert(type_ok(rook, 14));
        assert(type_ok(bishop, 14));
        assert(type_ok(gold, 14));
        assert(type_ok(silver, 14));
        assert(type_ok(knight, 14));
        assert(type_ok(lance, 14));
        assert(type_ok(pawn, 14));
        assert(type_ok(dragon, 14));
        assert(type_ok(horse, 14));
        assert(type_ok(psilver, 14));
        assert(type_ok(pknight, 14));
        assert(type_ok(plance, 14));
        assert(type_ok(tokin, 14));
    }
    let types = vec![king, rook, bishop, gold, silver, knight, lance, pawn, dragon, horse, psilver, pknight, plance, tokin];
    assert(types_ok(types@));

    let policy = Policy {
        stalemate: StalematePolicy::Loss,
        capture_fate: CaptureFate::ToHand,
        turn: TurnPolicy::Alternate,
        pass: PassPolicy::Forbidden,
    };

    let mut start: Vec<(TypeId, Side, u8, u8)> = Vec::new();
    let mut x: u8 = 0;
    while x < 9
        invariant
            x <= 9,
            start@.len() == 2 * x,
            forall|k: int| 0 <= k < start@.len() ==> {
                let e = #[trigger] start@[k];
                e.0 <= P && e.1 < 2 && e.2 < 9 && e.3 < 9
            },
            forall|k: int| 0 <= k < start@.len() ==> #[trigger] start@[k] == start_entry(k),
        decreases 9 - x,
    {
        let t = back_rank(x);
        let ghost n0 = start@.len() as int;
        start.push((t, 0, x, 0));
        start.push((t, 1, x, 8));
        proof {
            assert(n0 / 2 == x as int && n0 % 2 == 0);
            assert((n0 + 1) / 2 == x as int && (n0 + 1) % 2 == 1);
            assert(start@[n0] == start_entry(n0));
            assert(start@[n0 + 1] == start_entry(n0 + 1));
        }
        x += 1;
    }
    start.push((B, 0, 1, 1));
    start.push((R, 0, 7, 1));
    start.push((R, 1, 1, 7));
    start.push((B, 1, 7, 7));
    assert(start@[18] == start_entry(18) && start@[19] == start_entry(19));
    assert(start@[20] == start_entry(20) && start@[21] == start_entry(21));
    let mut x: u8 = 0;
    while x < 9
        invariant
            x <= 9,
            start@.len() == 22 + 2 * x,
            forall|k: int| 0 <= k < start@.len() ==> {
                let e = #[trigger] start@[k];
                e.0 <= P && e.1 < 2 && e.2 < 9 && e.3 < 9
            },
            forall|k: int| 0 <= k < start@.len() ==> #[trigger] start@[k] == start_entry(k),
        decreases 9 - x,
    {
        let ghost n0 = start@.len() as int;
        start.push((P, 0, x, 2));
        start.push((P, 1, x, 6));
        proof {
            assert((n0 - 22) / 2 == x as int && (n0 - 22) % 2 == 0);
            assert((n0 + 1 - 22) / 2 == x as int && (n0 + 1 - 22) % 2 == 1);
            assert(start@[n0] == start_entry(n0));
            assert(start@[n0 + 1] == start_entry(n0 + 1));
        }
        x += 1;
    }
    proof {
        assert(board.w * board.h == 81) by (nonlinear_arith) requires board.w == 9, board.h == 9;
        assert(board.spec_ncells() == 81);
        assert(crate::zobrist::table_sizes_fit(81, 14, 2));
        assert(crate::game::config_ok(board, 2, types@, 0));
    }
    let g = GameDef::new(board, 2, types, vec![pz], policy, start);
    assert(g.start_ok());
    g
}

} // verus!
