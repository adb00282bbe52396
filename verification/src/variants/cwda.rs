//! Betza's Chess with Different Armies, composed from Bits. Each army fills
//! the four FIDE slots (queen/rook/bishop/knight) with pieces built from
//! the atoms the engine speaks: leapers, riders (range-limited too),
//! direction masks, and compounds thereof. Pawns and kings are standard
//! FIDE on all sides; pawns promote to their own army's four slot pieces.
//! The R-slot piece of each army is its castle partner.

use vstd::prelude::*;
use crate::bits::{Mode, MoveBit, SpecialBit};
use crate::game::{
    BoardDef, CaptureFate, GameDef, PassPolicy, PieceTypeDef, Policy, PromoRule, PromoTrigger,
    Side, StalematePolicy, TurnPolicy, TypeId, Zone, type_ok, types_ok, bit_ok,
};
use crate::eval::{Eval, MOBILITY_CP};
use crate::geometry::{Delta, DirFilter};
use crate::search::{Searcher, fresh_state};
use crate::selfplay::{Outcome, play_game, spec_play_game};

verus! {

#[derive(Clone, Copy, PartialEq, Eq, Debug, Structural)]
pub enum Army {
    /// The FIDE Fabulous Kingdom: Q, R, B, N.
    Fide,
    /// Colorbound Clobberers: Archbishop, Bede, FAD, Waffle.
    Clobberers,
    /// Remarkable Rookies: Chancellor, Short Rook (R4), Half-Duck, Woody Rook.
    Rookies,
    /// Nutty Knights: Colonel, Charging Rook, Charging Knight, Fibnif.
    Nutters,
}

impl Army {
    pub fn name(self) -> (s: &'static str)
        ensures
            s@ == (match self {
                Army::Fide => "FIDE"@,
                Army::Clobberers => "Colorbound Clobberers"@,
                Army::Rookies => "Remarkable Rookies"@,
                Army::Nutters => "Nutty Knights"@,
            }),
    {
        match self {
            Army::Fide => "FIDE",
            Army::Clobberers => "Colorbound Clobberers",
            Army::Rookies => "Remarkable Rookies",
            Army::Nutters => "Nutty Knights",
        }
    }
}

/// Forward-half knight (Betza fhN): the four forward-most (1,2) copies, in
/// the mover's frame.
fn fh_n() -> (f: DirFilter)
    ensures
        f matches DirFilter::Custom(v) && v@ == seq![Delta { dx: 1i8, dy: 2i8 }, Delta { dx: -1i8, dy: 2i8 }, Delta { dx: 2i8, dy: 1i8 }, Delta { dx: -2i8, dy: 1i8 }],
{
    DirFilter::Custom(vec![Delta::new(1, 2), Delta::new(-1, 2), Delta::new(2, 1), Delta::new(-2, 1)])
}

/// Narrow (vertical-most) knight: the four (±1, ±2) copies.
fn narrow_n() -> (f: DirFilter)
    ensures
        f matches DirFilter::Custom(v) && v@ == seq![Delta { dx: 1i8, dy: 2i8 }, Delta { dx: -1i8, dy: 2i8 }, Delta { dx: 1i8, dy: -2i8 }, Delta { dx: -1i8, dy: -2i8 }],
{
    DirFilter::Custom(vec![Delta::new(1, 2), Delta::new(-1, 2), Delta::new(1, -2), Delta::new(-1, -2)])
}

/// Rook rays forward and sideways only (Betza fsR).
fn fs_r() -> (f: DirFilter)
    ensures
        f matches DirFilter::Custom(v) && v@ == seq![Delta { dx: 0i8, dy: 1i8 }, Delta { dx: 1i8, dy: 0i8 }, Delta { dx: -1i8, dy: 0i8 }],
{
    DirFilter::Custom(vec![Delta::new(0, 1), Delta::new(1, 0), Delta::new(-1, 0)])
}

/// The four slot pieces of an army, in Q-slot, R-slot, B-slot, N-slot
/// order.
fn slot_pieces(a: Army) -> (v: Vec<PieceTypeDef>)
    ensures
        v@.len() == 4,
        forall|k: int| 0 <= k < 4 ==> type_ok(#[trigger] v@[k], 11),
{
    let v = match a {
        Army::Fide => vec![
            // Q = RB.
            PieceTypeDef::new("queen", 'Q', vec![MoveBit::rider(0, 1), MoveBit::rider(1, 1)]),
            PieceTypeDef::new("rook", 'R', vec![MoveBit::rider(0, 1)]).castle_partner(),
            PieceTypeDef::new("bishop", 'B', vec![MoveBit::rider(1, 1)]),
            PieceTypeDef::new("knight", 'N', vec![MoveBit::leaper(1, 2)]),
        ],
        Army::Clobberers => vec![
            // Archbishop = BN.
            PieceTypeDef::new("archbishop", 'A', vec![MoveBit::rider(1, 1), MoveBit::leaper(1, 2)]),
            // Bede = BD.
            PieceTypeDef::new("bede", 'E', vec![MoveBit::rider(1, 1), MoveBit::leaper(0, 2)]).castle_partner(),
            // FAD = ferz + alfil + dabbaba.
            PieceTypeDef::new("fad", 'F', vec![MoveBit::leaper(1, 1), MoveBit::leaper(2, 2), MoveBit::leaper(0, 2)]),
            // Waffle = wazir + alfil.
            PieceTypeDef::new("waffle", 'W', vec![MoveBit::leaper(0, 1), MoveBit::leaper(2, 2)]),
        ],
        Army::Rookies => vec![
            // Chancellor = RN.
            PieceTypeDef::new("chancellor", 'C', vec![MoveBit::rider(0, 1), MoveBit::leaper(1, 2)]),
            // Short Rook = R4: orthogonal rider capped at 4 steps.
            PieceTypeDef::new("shortrook", 'S', vec![MoveBit::rider(0, 1).max_steps(4)]).castle_partner(),
            // Half-Duck = threeleaper + ferz + dabbaba.
            PieceTypeDef::new("halfduck", 'H', vec![MoveBit::leaper(0, 3), MoveBit::leaper(1, 1), MoveBit::leaper(0, 2)]),
            // Woody Rook = wazir + dabbaba.
            PieceTypeDef::new("woody", 'D', vec![MoveBit::leaper(0, 1), MoveBit::leaper(0, 2)]),
        ],
        Army::Nutters => vec![
            // Colonel = forward-half knight + forward/sideways rook + king.
            PieceTypeDef::new("colonel", 'O', vec![
                MoveBit::leaper(1, 2).dirs(fh_n()),
                MoveBit::rider(0, 1).dirs(fs_r()),
                MoveBit::leaper(0, 1),
                MoveBit::leaper(1, 1),
            ]),
            // Charging Rook = forward/sideways rook + backward king steps.
            PieceTypeDef::new("chargingrook", 'G', vec![
                MoveBit::rider(0, 1).dirs(fs_r()),
                MoveBit::leaper(0, 1).dirs(DirFilter::Backward),
                MoveBit::leaper(1, 1).dirs(DirFilter::Backward),
            ]).castle_partner(),
            // Charging Knight = forward-half knight + sideways and backward king steps.
            PieceTypeDef::new("chargingknight", 'J', vec![
                MoveBit::leaper(1, 2).dirs(fh_n()),
                MoveBit::leaper(0, 1).dirs(DirFilter::Sideways),
                MoveBit::leaper(0, 1).dirs(DirFilter::Backward),
                MoveBit::leaper(1, 1).dirs(DirFilter::Backward),
            ]),
            // Fibnif = narrow knight + ferz.
            PieceTypeDef::new("fibnif", 'I', vec![MoveBit::leaper(1, 2).dirs(narrow_n()), MoveBit::leaper(1, 1)]),
        ],
    };
    proof {
        assert(type_ok(v@[0], 11));
        assert(type_ok(v@[1], 11));
        assert(type_ok(v@[2], 11));
        assert(type_ok(v@[3], 11));
    }
    v
}

pub const Z_PAWN_START: usize = 0;
pub const Z_LAST_RANK: usize = 1;

/// Type-id layout of a two-army game: 0 = king; 1..=5 = side 0's army
/// (Q-slot, R-slot, B-slot, N-slot, pawn); 6..=10 = side 1's.
pub const KING: TypeId = 0;

/// Standard FIDE pawn promoting to its own army's four slot pieces.
fn pawn_for(base: TypeId) -> (d: PieceTypeDef)
    requires
        base + 3 < 11,
    ensures
        type_ok(d, 11),
{
    PieceTypeDef::new(
        "pawn",
        'P',
        vec![
            MoveBit::leaper(0, 1).dirs(DirFilter::Forward).mode(Mode::Move),
            MoveBit::leaper(1, 1).dirs(DirFilter::Forward).mode(Mode::Capture),
        ],
    )
    .specials(vec![SpecialBit::DoubleStep { start_zone: Z_PAWN_START }, SpecialBit::EnPassant])
    .promo(PromoRule { zone: Z_LAST_RANK, choices: vec![base, base + 1, base + 2, base + 3], trigger: PromoTrigger::Dest, optional: false })
}

/// The back-rank slot offset on file `x` (R N B Q K B N R by slot).
fn back_slot(x: u8) -> (k: u8)
    ensures
        k <= 4,
        k == (if x == 0 || x == 7 { 1u8 } else if x == 1 || x == 6 { 3u8 } else if x == 2 || x == 5 { 2u8 }
            else if x == 3 { 0u8 } else { 4u8 }),
{
    if x == 0 || x == 7 { 1 } else if x == 1 || x == 6 { 3 } else if x == 2 || x == 5 { 2 } else if x == 3 { 0 } else { 4 }
}

/// The CwDA start list entry `k`: side `k / 16`, file by file, its
/// back-rank piece (the king on the king file, else its army's type for
/// the file's slot) then its pawn.
pub open spec fn start_entry(k: int) -> (TypeId, Side, u8, u8) {
    let side = (k / 16) as u8;
    let x = ((k % 16) / 2) as u8;
    let base: u8 = if side == 0 { 1 } else { 6 };
    let slot: u8 = if x == 0 || x == 7 { 1u8 } else if x == 1 || x == 6 { 3u8 } else if x == 2 || x == 5 { 2u8 }
        else if x == 3 { 0u8 } else { 4u8 };
    if (k % 16) % 2 == 0 {
        (if slot == 4 { KING } else { (base + slot) as u8 }, side, x, if side == 0 { 0u8 } else { 7u8 })
    } else {
        ((base + 4) as u8, side, x, if side == 0 { 1u8 } else { 6u8 })
    }
}

/// Compose a CwDA game: side 0 fields `a0`, side 1 fields `a1`.
pub fn game(a0: Army, a1: Army) -> (g: GameDef)
    ensures
        g.wf(),
        g.start_ok(),
        g.sides == 2,
        g.types@.len() == 11,
        g.board.w == 8 && g.board.h == 8,
        g.types@[KING as int].glyph == 'K' && g.types@[KING as int].royal,
        g.start@.len() == 32,
        forall|k: int| 0 <= k < 32 ==> #[trigger] g.start@[k] == start_entry(k),
        g.policy.stalemate == StalematePolicy::Draw,
        g.policy.capture_fate == CaptureFate::Destroy,
{
    let board = BoardDef { w: 8, h: 8 };
    let mut pawn_start = Zone::new(2);
    pawn_start.add_rect(0, &board, 0, 1, 7, 1);
    pawn_start.add_rect(1, &board, 0, 6, 7, 6);
    let mut last_rank = Zone::new(2);
    last_rank.add_rect(0, &board, 0, 7, 7, 7);
    last_rank.add_rect(1, &board, 0, 0, 7, 0);

    let king = PieceTypeDef::new("king", 'K', vec![MoveBit::leaper(0, 1), MoveBit::leaper(1, 1)])
        .royal()
        .specials(vec![SpecialBit::Castling]);
    assert(type_ok(king, 11));
    let mut types: Vec<PieceTypeDef> = vec![king];
    let mut first = slot_pieces(a0);
    let mut second = slot_pieces(a1);
    let ghost f = first@;
    let ghost sc = second@;
    let p0 = pawn_for(1);
    let p1 = pawn_for(6);
    types.append(&mut first);
    types.push(p0);
    types.append(&mut second);
    types.push(p1);
    assert(types@ =~= seq![king] + f + seq![p0] + sc + seq![p1]);
    assert(types@.len() == 11);
    assert forall|t: int| 0 <= t < types@.len() implies type_ok(#[trigger] types@[t], types@.len()) by {
        if 1 <= t < 5 {
            assert(types@[t] == f[t - 1]);
        } else if 6 <= t < 10 {
            assert(types@[t] == sc[t - 6]);
        }
    }
    assert(types_ok(types@));

    let policy = Policy {
        stalemate: StalematePolicy::Draw,
        capture_fate: CaptureFate::Destroy,
        turn: TurnPolicy::Alternate,
        pass: PassPolicy::Forbidden,
    };

    let mut start: Vec<(TypeId, Side, u8, u8)> = Vec::new();
    let mut side: u8 = 0;
    while side < 2
        invariant
            side <= 2,
            start@.len() == 16 * side,
            forall|k: int| 0 <= k < start@.len() ==> {
                let e = #[trigger] start@[k];
                e.0 < 11 && e.1 < 2 && e.2 < 8 && e.3 < 8
            },
            forall|k: int| 0 <= k < start@.len() ==> #[trigger] start@[k] == start_entry(k),
        decreases 2 - side,
    {
        let base: u8 = if side == 0 { 1 } else { 6 };
        let (back_y, pawn_y): (u8, u8) = if side == 0 { (0, 1) } else { (7, 6) };
        let mut x: u8 = 0;
        while x < 8
            invariant
                side < 2,
                base == 1 || base == 6,
                back_y < 8,
                pawn_y < 8,
                x <= 8,
                start@.len() == 16 * side + 2 * x,
                forall|k: int| 0 <= k < start@.len() ==> {
                    let e = #[trigger] start@[k];
                    e.0 < 11 && e.1 < 2 && e.2 < 8 && e.3 < 8
                },
                forall|k: int| 0 <= k < start@.len() ==> #[trigger] start@[k] == start_entry(k),
                base == (if side == 0 { 1u8 } else { 6u8 }),
                back_y == (if side == 0 { 0u8 } else { 7u8 }),
                pawn_y == (if side == 0 { 1u8 } else { 6u8 }),
            decreases 8 - x,
        {
            let k = back_slot(x);
            let t = if k == 4 { KING } else { base + k };
            let ghost n0 = start@.len() as int;
            start.push((t, side, x, back_y));
            start.push((base + 4, side, x, pawn_y));
            proof {
                assert(n0 / 16 == side as int && (n0 % 16) / 2 == x as int && (n0 % 16) % 2 == 0);
                assert((n0 + 1) / 16 == side as int && ((n0 + 1) % 16) / 2 == x as int && ((n0 + 1) % 16) % 2 == 1);
                assert(start@[n0] == start_entry(n0));
                assert(start@[n0 + 1] == start_entry(n0 + 1));
            }
            x += 1;
        }
        side += 1;
    }
    proof {
        assert(board.w * board.h == 64) by (nonlinear_arith) requires board.w == 8, board.h == 8;
        assert(board.spec_ncells() == 64);
        assert(crate::zobrist::table_sizes_fit(64, 11, 2));
        assert(crate::game::config_ok(board, 2, types@, 0));
    }
    let g = GameDef::new(board, 2, types, vec![pawn_start, last_rank], policy, start);
    assert(g.start_ok());
    g
}


fn copy_material(m: &Vec<i32>) -> (r: Vec<i32>)
    ensures
        r@ == m@,
{
    let mut r: Vec<i32> = Vec::new();
    let mut k: usize = 0;
    while k < m.len()
        invariant
            k <= m@.len(),
            r@ == m@.subrange(0, k as int),
        decreases m@.len() - k,
    {
        r.push(m[k]);
        k += 1;
        assert(r@ =~= m@.subrange(0, k as int));
    }
    r
}

/// What `game` promises of the game it composes for two armies.
pub open spec fn composed_game(g: GameDef) -> bool {
    &&& g.wf()
    &&& g.start_ok()
    &&& g.sides == 2
    &&& g.types@.len() == 11
    &&& g.board.w == 8 && g.board.h == 8
    &&& g.start@.len() == 32
    &&& forall|k: int| 0 <= k < 32 ==> #[trigger] g.start@[k] == start_entry(k)
    &&& g.policy.stalemate == StalematePolicy::Draw
    &&& g.policy.capture_fate == CaptureFate::Destroy
}

/// A plain material evaluation on the table `m`.
pub open spec fn material_eval(e: Eval, m: Seq<i32>) -> bool {
    e.material@ == m && e.mobility_cp == MOBILITY_CP && e.net is None
}

/// The tally after one game of a pair: a side-0 win goes to whichever army
/// fielded side 0 (`a` when `a_first`), a side-1 win to the other.
pub open spec fn credit_game(t: (int, int, int), o: Outcome, a_first: bool) -> (int, int, int) {
    match o {
        Outcome::Win(s) => if (s == 0) == a_first { (t.0 + 1, t.1, t.2) } else { (t.0, t.1 + 1, t.2) },
        Outcome::Draw => (t.0, t.1, t.2 + 1),
    }
}

/// (a_wins, b_wins, draws) after the first `p` pairs: pair `q` plays the
/// seed `seed + 7919 q` (wrapping) on `gab` (a fields side 0) and then on
/// `gba`, each game with fresh searchers on the pair's evaluations.
pub open spec fn paired_tally(gab: GameDef, gba: GameDef, eab: (Eval, Eval), eba: (Eval, Eval), depth: i32, nodes: u64,
    seed: u64, max_plies: u32, p: int) -> (int, int, int)
    decreases p,
{
    if p <= 0 {
        (0, 0, 0)
    } else {
        let prev = paired_tally(gab, gba, eab, eba, depth, nodes, seed, max_plies, p - 1);
        let s = seed.wrapping_add(((p - 1) * 7919) as u64);
        let first = spec_play_game(gab, fresh_state(gab, eab.0), fresh_state(gab, eab.1), (depth, depth), (nodes, nodes),
            s, 6, max_plies, 0);
        let second = spec_play_game(gba, fresh_state(gba, eba.0), fresh_state(gba, eba.1), (depth, depth),
            (nodes, nodes), s, 6, max_plies, 0);
        credit_game(credit_game(prev, first.0, true), second.0, false)
    }
}

proof fn lemma_paired_tally_total(gab: GameDef, gba: GameDef, eab: (Eval, Eval), eba: (Eval, Eval), depth: i32,
    nodes: u64, seed: u64, max_plies: u32, p: int)
    requires
        0 <= p,
    ensures
        ({
            let t = paired_tally(gab, gba, eab, eba, depth, nodes, seed, max_plies, p);
            t.0 >= 0 && t.1 >= 0 && t.2 >= 0 && t.0 + t.1 + t.2 == 2 * p
        }),
    decreases p,
{
    if p > 0 {
        lemma_paired_tally_total(gab, gba, eab, eba, depth, nodes, seed, max_plies, p - 1);
    }
}

/// Play one game of a pair and credit it.
fn play_paired_game(g: &GameDef, e0: Eval, e1: Eval, depth: i32, nodes: u64, s: u64, max_plies: u32)
    -> (r: (Outcome, Eval, Eval))
    requires
        g.wf(),
        g.start_ok(),
        e0.ok_for(*g),
        e1.ok_for(*g),
    ensures
        r.1 == e0,
        r.2 == e1,
        r.0 == spec_play_game(*g, fresh_state(*g, e0), fresh_state(*g, e1), (depth, depth), (nodes, nodes), s, 6,
            max_plies, 0).0,
{
    let ghost g0 = e0;
    let ghost g1 = e1;
    let mut s0 = Searcher::new(g, e0);
    let mut s1 = Searcher::new(g, e1);
    let rec = play_game(g, &mut s0, &mut s1, (depth, depth), (nodes, nodes), s, 6, max_plies, 0);
    let r0 = s0.into_eval();
    let r1 = s1.into_eval();
    (rec.outcome, r0, r1)
}

/// Paired-opening army match: each pair plays the same opening seed twice
/// with the army assignment swapped, both sides searched at equal strength
/// on the given material (`material_ab` prices the game where `a` fields
/// side 0, `material_ba` the swapped one). Returns (a_wins, b_wins, draws).
pub fn paired_match(
    a: Army,
    b: Army,
    pairs: u32,
    depth: i32,
    nodes: u64,
    seed: u64,
    max_plies: u32,
    material_ab: &Vec<i32>,
    material_ba: &Vec<i32>,
) -> (r: (u32, u32, u32))
    requires
        material_ab@.len() >= 11,
        material_ba@.len() >= 11,
        2 * pairs <= u32::MAX,
    ensures
        r.0 + r.1 + r.2 == 2 * pairs,
        exists|gab: GameDef, gba: GameDef, eab: (Eval, Eval), eba: (Eval, Eval)|
            composed_game(gab) && composed_game(gba)
            && material_eval(eab.0, material_ab@) && material_eval(eab.1, material_ab@)
            && material_eval(eba.0, material_ba@) && material_eval(eba.1, material_ba@)
            && (r.0 as int, r.1 as int, r.2 as int)
                == #[trigger] paired_tally(gab, gba, eab, eba, depth, nodes, seed, max_plies, pairs as int),
{
    let gab = game(a, b);
    let gba = game(b, a);
    let mut ea0 = Eval::new(copy_material(material_ab));
    let mut ea1 = Eval::new(copy_material(material_ab));
    let mut eb0 = Eval::new(copy_material(material_ba));
    let mut eb1 = Eval::new(copy_material(material_ba));
    let ghost eab = (ea0, ea1);
    let ghost eba = (eb0, eb1);
    let mut wa: u32 = 0;
    let mut wb: u32 = 0;
    let mut dr: u32 = 0;
    let mut p: u32 = 0;
    while p < pairs
        invariant
            composed_game(gab),
            composed_game(gba),
            eab == (ea0, ea1),
            eba == (eb0, eb1),
            material_eval(ea0, material_ab@),
            material_eval(ea1, material_ab@),
            material_eval(eb0, material_ba@),
            material_eval(eb1, material_ba@),
            material_ab@.len() >= 11,
            material_ba@.len() >= 11,
            2 * pairs <= u32::MAX,
            p <= pairs,
            wa + wb + dr == 2 * p,
            (wa as int, wb as int, dr as int) == paired_tally(gab, gba, eab, eba, depth, nodes, seed, max_plies, p as int),
        decreases pairs - p,
    {
        let s = seed.wrapping_add(p as u64 * 7919);
        proof { lemma_paired_tally_total(gab, gba, eab, eba, depth, nodes, seed, max_plies, p as int); }
        let (o1, x0, x1) = play_paired_game(&gab, ea0, ea1, depth, nodes, s, max_plies);
        ea0 = x0;
        ea1 = x1;
        match o1 {
            Outcome::Win(0) => wa += 1,
            Outcome::Win(_) => wb += 1,
            Outcome::Draw => dr += 1,
        }
        let (o2, y0, y1) = play_paired_game(&gba, eb0, eb1, depth, nodes, s, max_plies);
        eb0 = y0;
        eb1 = y1;
        match o2 {
            Outcome::Win(0) => wb += 1,
            Outcome::Win(_) => wa += 1,
            Outcome::Draw => dr += 1,
        }
        p += 1;
    }
    (wa, wb, dr)
}

} // verus!
