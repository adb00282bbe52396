//! Move generation and legality.
//!
//! Pseudo-legal moves come from the compiled kernels plus the compiled
//! move-script references: specials and drops walk the script rows — origin
//! gates interpreted as data, one walker per generation shape. Legality is
//! make → own-royal-safe → unmake, which also catches en-passant pins and
//! xiangqi's facing generals; drop legality runs the drop row's named
//! predicates (*nifu* at generation, *uchifuzume* in the legality filter).

use vstd::prelude::*;
use crate::bits::{AbilityBit, HopMode, TargetPred};
use crate::effects::{CustomReach, Pred, Who};
use crate::game::{GameDef, HopK, PromoTrigger, Side, StalematePolicy, TypeId};
use crate::move_defs::{Binding, Gate, GenShape, PartnerFlag, SpecialRef};
use crate::moves::{Effect, Move, MoveKind, NO_SQ};
use crate::position::{Loc, Piece, PosView, Position, hp_gate_ok, piece_ok, spec_hp_gate_ok, steps_of, view_wf};
use crate::terrain_defs::{T_ICE, T_NONE};
use crate::attack::{ray_cell, v_walk, lemma_walk_snoc, lemma_ray_xy};

verus! {

/// The mover of a board move: the piece on `from` belongs to the side to
/// move.
pub open spec fn from_ok(g: GameDef, v: PosView, from: u16) -> bool {
    &&& (from as int) < g.ncells()
    &&& v.board[from as int] >= 0
    &&& v.pieces[v.board[from as int] as int].side == v.stm
}

/// A generated move is anchored in the position: a drop names a type held
/// in the mover's hand; any other move starts from a piece of the side to
/// move; every destination is on the board.
pub open spec fn anchored(g: GameDef, v: PosView, m: Move) -> bool {
    &&& (m.to as int) < g.ncells()
    &&& if m.kind == MoveKind::Drop {
        &&& (m.drop_type as int) < g.ntypes()
        &&& v.hands[v.stm as int][m.drop_type as int] > 0
        &&& drop_ok(g, v, m.drop_type as int, m.to as int)
    } else {
        from_ok(g, v, m.from)
    }
    &&& m.kind == MoveKind::Ability ==> !emp_suppressed(g, v, m.from)
    &&& capture_struck(g, v, m)
}

/// A plain move by a non-hologram onto an occupied cell is one of the
/// mover's attacks: the attack map sees every capture the kernels offer.
pub open spec fn capture_struck(g: GameDef, v: PosView, m: Move) -> bool {
    m.kind == MoveKind::Normal ==> struck_at(g, v, m.from, m.to)
}

/// If `to` is occupied and the piece on `from` is no hologram, that piece
/// strikes `to`.
pub open spec fn struck_at(g: GameDef, v: PosView, from: u16, to: u16) -> bool {
    let i = v.board[from as int] as int;
    (v.board[to as int] >= 0 && !g.types@[v.pieces[i].t as int].hologram) ==> {
        &&& v.pieces[v.board[to as int] as int].side != v.stm
        &&& from != to
        &&& crate::attack::v_piece_attacks(v, g, i, from, to, crate::attack::v_royal_on(v, g, to as int))
    }
}

/// A plain move onto an occupied cell takes an enemy piece on a cell the
/// side to move attacks.
pub open spec fn capture_seen(g: GameDef, v: PosView, m: Move) -> bool {
    (m.kind == MoveKind::Normal && v.board[m.to as int] >= 0) ==> {
        &&& v.pieces[v.board[m.to as int] as int].side != v.stm
        &&& crate::attack::v_attacked(v, g, m.to, v.stm)
    }
}

/// Every anchored move that passes the hologram rule has its capture seen.
proof fn lemma_capture_seen(g: GameDef, v: PosView, m: Move)
    requires
        view_wf(v, g),
        anchored(g, v, m),
        hologram_quiet(g, v, m),
    ensures
        capture_seen(g, v, m),
{
    if m.kind == MoveKind::Normal && v.board[m.to as int] >= 0 {
        crate::position::lemma_wf_consistent(v, g);
        crate::game::lemma_ncells_bound(g.board);
        let i = v.board[m.from as int] as int;
        assert(crate::position::cell_agrees(v, m.from as int));
        assert(crate::attack::attacks_from(v, g, i, m.to, v.stm));
    }
}

/// A piece of type `t` of the side to move stands on `sq`.
pub open spec fn own_type_at(v: PosView, t: int, sq: int) -> bool {
    &&& 0 <= v.board[sq] < v.pieces.len()
    &&& v.pieces[v.board[sq] as int].side == v.stm
    &&& v.pieces[v.board[sq] as int].t == t
}

/// A piece of type `t` of the side to move stands on file `x`.
pub open spec fn own_on_file(g: GameDef, v: PosView, t: int, x: int) -> bool {
    exists|y: int| 0 <= y < g.board.h && #[trigger] own_type_at(v, t, g.board.spec_sq(x, y))
}

/// The drop row admits type `t` onto `sq`: the type is droppable, the cell
/// holds no piece and no ground-blocking terrain, the type could act from
/// it, and under *nifu* no piece of the type of the side to move stands on
/// its file.
pub open spec fn drop_ok(g: GameDef, v: PosView, t: int, sq: int) -> bool {
    let ck = g.compiled@[t * g.sides + v.stm];
    &&& ck.drop is Some
    &&& !(v.board[sq] >= 0 || crate::attack::v_stops(v, v.terrain[sq], false, false))
    &&& ck.can_act_from@[sq]
    &&& (ck.drop->0.no_dup_file ==> !own_on_file(g, v, t, g.board.spec_x(sq)))
}

/// The drop of type `t` onto `sq`.
pub open spec fn drop_move(t: int, sq: int) -> Move {
    Move { from: NO_SQ, to: sq as u16, kind: MoveKind::Drop, promo: None, drop_type: t as TypeId, aux: NO_SQ,
        effect: Effect::NoEffect }
}

/// A drop the side to move may make: a type it holds, onto a cell of the
/// board the drop row admits.
pub open spec fn drop_admitted(g: GameDef, v: PosView, t: int, sq: int) -> bool {
    &&& 0 <= t < g.ntypes()
    &&& 0 <= sq < g.ncells()
    &&& v.hands[v.stm as int][t] > 0
    &&& drop_ok(g, v, t, sq)
}

/// Every admitted drop is in `s`.
pub open spec fn has_all_drops(g: GameDef, v: PosView, s: Seq<Move>) -> bool {
    forall|t: int, sq: int| #[trigger] drop_admitted(g, v, t, sq) ==> s.contains(drop_move(t, sq))
}

proof fn lemma_push_keeps(s: Seq<Move>, x: Move)
    ensures
        forall|m: Move| s.contains(m) ==> #[trigger] s.push(x).contains(m),
{
    assert forall|m: Move| s.contains(m) implies #[trigger] s.push(x).contains(m) by {
        let j = choose|j: int| 0 <= j < s.len() && s[j] == m;
        assert(s.push(x)[j] == m);
    }
}

/// Holograms move but never threaten: a board move by a hologram is a
/// quiet kernel step onto an empty cell.
pub open spec fn hologram_quiet(g: GameDef, v: PosView, m: Move) -> bool {
    (m.kind != MoveKind::Drop && m.from != NO_SQ && g.types@[v.pieces[v.board[m.from as int] as int].t as int].hologram)
        ==> (m.kind == MoveKind::Normal && v.board[m.to as int] < 0)
}

/// The king-move (Chebyshev) distance between two cells.
pub open spec fn spec_cheb(g: GameDef, a: int, b: int) -> int {
    let ddx = g.board.spec_x(a) - g.board.spec_x(b);
    let ddy = g.board.spec_y(a) - g.board.spec_y(b);
    let ax = if ddx >= 0 { ddx } else { -ddx };
    let ay = if ddy >= 0 { ddy } else { -ddy };
    if ax > ay { ax } else { ay }
}

/// Piece `e` is an enemy EMP emitter on the board whose radius covers `sq`.
pub open spec fn emits_over(g: GameDef, v: PosView, e: int, sq: u16) -> bool {
    let p = v.pieces[e];
    &&& p.side != v.stm
    &&& g.types@[p.t as int].emp_aura != 0
    &&& p.loc matches Loc::Board(esq) && spec_cheb(g, esq as int, sq as int) <= g.types@[p.t as int].emp_aura
}

/// Inside an enemy emitter's radius ability Bits are dead.
pub open spec fn emp_suppressed(g: GameDef, v: PosView, sq: u16) -> bool {
    exists|e: int| 0 <= e < v.pieces.len() && #[trigger] emits_over(g, v, e, sq)
}

pub open spec fn all_anchored(g: GameDef, v: PosView, s: Seq<Move>) -> bool {
    forall|j: int| 0 <= j < s.len() ==> anchored(g, v, #[trigger] s[j])
}

/// `s` extends `s0` with moves leaving `from` for `to`.
pub open spec fn extends_with(s0: Seq<Move>, s: Seq<Move>, from: u16, to: u16) -> bool {
    &&& s0.len() <= s.len()
    &&& s.subrange(0, s0.len() as int) == s0
    &&& forall|j: int| s0.len() <= j < s.len() ==> (#[trigger] s[j]).from == from && s[j].to == to
        && s[j].kind != MoveKind::Drop && s[j].kind != MoveKind::Ability
}

pub proof fn lemma_extends_anchored(g: GameDef, v: PosView, s0: Seq<Move>, s: Seq<Move>, from: u16, to: u16)
    requires
        all_anchored(g, v, s0),
        extends_with(s0, s, from, to),
        from_ok(g, v, from),
        (to as int) < g.ncells(),
        struck_at(g, v, from, to),
    ensures
        all_anchored(g, v, s),
{
    assert forall|j: int| 0 <= j < s.len() implies anchored(g, v, #[trigger] s[j]) by {
        if j < s0.len() {
            assert(s[j] == s.subrange(0, s0.len() as int)[j]);
        }
    }
}

/// Push one move, keeping the anchoring invariant.
fn push_anchored(g: &GameDef, pos: &Position, m: Move, out: &mut Vec<Move>)
    requires
        anchored(*g, pos@, m),
        all_anchored(*g, pos@, old(out)@),
    ensures
        final(out)@ == old(out)@.push(m),
        all_anchored(*g, pos@, final(out)@),
{
    out.push(m);
}

/// Expand a landing into promotion variants per the type's promotion rule:
/// when the rule triggers, one move per choice, plus the plain move unless
/// promotion is forced (not optional, or the unpromoted piece could never
/// act from the destination).
fn push_with_promo(g: &GameDef, side: Side, t: TypeId, from: u16, to: u16, kind: MoveKind, aux: u16, out: &mut Vec<Move>)
    requires
        g.wf(),
        (t as int) < g.ntypes(),
        side < g.sides,
        (to as int) < g.ncells(),
        kind != MoveKind::Drop,
        kind != MoveKind::Ability,
    ensures
        extends_with(old(out)@, final(out)@, from, to),
        final(out)@ == old(out)@ + promo_moves(*g, side, t, from, to, kind, aux),
{
    let ghost s0 = out@;
    proof { assert(s0.subrange(0, s0.len() as int) =~= s0); }
    let ty = &g.types[t as usize];
    match &ty.promo {
        Some(pr) => {
            let triggered = if pr.zone < g.zones.len() {
                let zone = &g.zones[pr.zone];
                match pr.trigger {
                    PromoTrigger::Dest => zone.contains(side, to),
                    PromoTrigger::FromOrDest => zone.contains(side, from) || zone.contains(side, to),
                }
            } else {
                false
            };
            if triggered {
                let ck = g.compiled(t, side);
                let forced = !pr.optional || !ck.can_act_from[to as usize];
                let mut i: usize = 0;
                while i < pr.choices.len()
                    invariant
                        extends_with(s0, out@, from, to),
                        kind != MoveKind::Drop,
                        kind != MoveKind::Ability,
                        i <= pr.choices@.len(),
                        out@ == s0 + promo_choices(pr.choices@.subrange(0, i as int), from, to, kind, aux),
                    decreases pr.choices@.len() - i,
                {
                    let ghost prev = out@;
                    out.push(Move { from, to, kind, promo: Some(pr.choices[i]), drop_type: 0, aux, effect: Effect::NoEffect });
                    proof {
                        assert(out@.subrange(0, s0.len() as int) =~= prev.subrange(0, s0.len() as int));
                        assert(pr.choices@.subrange(0, i + 1).drop_last() =~= pr.choices@.subrange(0, i as int));
                        assert(out@ =~= s0 + promo_choices(pr.choices@.subrange(0, i + 1), from, to, kind, aux));
                    }
                    i += 1;
                }
                assert(pr.choices@.subrange(0, pr.choices@.len() as int) =~= pr.choices@);
                if forced {
                    proof { assert(forced == promo_forced(*g, side, t, to)); }
                    return;
                }
            }
        },
        None => {},
    }
    let ghost prev = out@;
    out.push(Move { from, to, kind, promo: None, drop_type: 0, aux, effect: Effect::NoEffect });
    proof {
        assert(out@.subrange(0, s0.len() as int) =~= prev.subrange(0, s0.len() as int));
        assert(out@ =~= s0 + promo_moves(*g, side, t, from, to, kind, aux));
    }
}

/// The promotion variants of a landing, one per choice, in order.
pub open spec fn promo_choices(choices: Seq<TypeId>, from: u16, to: u16, kind: MoveKind, aux: u16) -> Seq<Move>
    decreases choices.len(),
{
    if choices.len() == 0 {
        Seq::empty()
    } else {
        promo_choices(choices.drop_last(), from, to, kind, aux).push(Move { from, to, kind,
            promo: Some(choices.last()), drop_type: 0, aux, effect: Effect::NoEffect })
    }
}

/// The type's promotion rule triggers for this landing: its zone holds the
/// destination (or, for a from-or-destination rule, either square).
pub open spec fn promo_triggered(g: GameDef, side: Side, t: TypeId, from: u16, to: u16) -> bool {
    match g.types@[t as int].promo {
        Some(pr) => pr.zone < g.zones@.len() && match pr.trigger {
            PromoTrigger::Dest => g.zones@[pr.zone as int].spec_contains(side, to),
            PromoTrigger::FromOrDest => g.zones@[pr.zone as int].spec_contains(side, from)
                || g.zones@[pr.zone as int].spec_contains(side, to),
        },
        None => false,
    }
}

/// Promotion is forced: the rule is not optional, or the unpromoted piece
/// could never act from the destination.
pub open spec fn promo_forced(g: GameDef, side: Side, t: TypeId, to: u16) -> bool {
    match g.types@[t as int].promo {
        Some(pr) => !pr.optional || !g.compiled@[(t as int) * g.sides + side].can_act_from@[to as int],
        None => false,
    }
}

/// The moves a landing expands to: the promotion variants when the rule
/// triggers, then the plain move unless promotion is forced.
pub open spec fn promo_moves(g: GameDef, side: Side, t: TypeId, from: u16, to: u16, kind: MoveKind, aux: u16) -> Seq<Move> {
    let plain = seq![Move { from, to, kind, promo: None, drop_type: 0, aux, effect: Effect::NoEffect }];
    if promo_triggered(g, side, t, from, to) {
        promo_choices(g.types@[t as int].promo->0.choices@, from, to, kind, aux)
            + if promo_forced(g, side, t, to) { Seq::empty() } else { plain }
    } else {
        plain
    }
}


/// Does the target predicate accept the occupant of `sq`?
fn target_ok(g: &GameDef, pos: &Position, t: TargetPred, sq: u16) -> (r: bool)
    requires
        pos.wf(*g),
    ensures
        r == crate::attack::target_holds(t, crate::attack::v_royal_on(pos@, *g, sq as int)),
{
    match t {
        TargetPred::Any => true,
        TargetPred::EnemyRoyal => match pos.piece_at(sq) {
            Some(v) => (v.t as usize) < g.types.len() && g.types[v.t as usize].royal,
            None => false,
        },
    }
}

/// Walk a hop ray from `from`: the first occupied square (the screen) and
/// the square immediately beyond it. `None` when the ray hits blocking
/// terrain or the board edge first, or when the screen is on the edge.
fn first_screen_and_beyond(g: &GameDef, pos: &Position, from: u16, k: &HopK, flies: bool, drills: bool) -> (r: Option<(u16, u16)>)
    requires
        pos.wf(*g),
        (from as int) < g.ncells(),
    ensures
        r matches Some((a, b)) ==> (a as int) < g.ncells() && (b as int) < g.ncells() && pos@.board[a as int] >= 0
            && !crate::attack::v_stops(pos@, pos@.terrain[a as int], flies, drills)
            && g.board.spec_offset(a as int, k.d.dx as int, k.d.dy as int) == Some(b)
            && exists|st: int| st >= 2 && #[trigger] ray_cell(*g, from as int, k.d.dx as int, k.d.dy as int, st - 1) == Some(a)
                && v_walk(pos@, *g, from as int, k.d.dx as int, k.d.dy as int, st - 2, flies, drills) == Some(0nat),
        r == screen_and_beyond(*g, pos@, from as int, k.d.dx as int, k.d.dy as int, flies, drills, 256),
{
    proof { crate::game::lemma_ncells_bound(g.board); }
    let ghost dx = k.d.dx as int;
    let ghost dy = k.d.dy as int;
    let mut cur = from;
    let mut n: u32 = 0;
    assert(ray_cell(*g, from as int, dx, dy, 0) == Some(from));
    while n < 256
        invariant
            pos.wf(*g),
            (cur as int) < g.ncells(),
            (from as int) < g.ncells(),
            dx == k.d.dx as int && dy == k.d.dy as int,
            ray_cell(*g, from as int, dx, dy, n as int) == Some(cur),
            v_walk(pos@, *g, from as int, dx, dy, n as int, flies, drills) == Some(0nat),
            n <= 256,
            screen_and_beyond(*g, pos@, from as int, dx, dy, flies, drills, 256)
                == screen_and_beyond(*g, pos@, cur as int, dx, dy, flies, drills, (256 - n) as nat),
        decreases 256 - n,
    {
        proof { lemma_walk_snoc(pos@, *g, from as int, dx, dy, n as int, flies, drills); }
        let to = match g.board.offset(cur, k.d.dx, k.d.dy) {
            Some(t) => t,
            None => { return None; },
        };
        if !pos.terrain_open_for(to, flies, drills) {
            return None;
        }
        if pos.board[to as usize] >= 0 {
            return match g.board.offset(to, k.d.dx, k.d.dy) {
                Some(b) => {
                    assert(ray_cell(*g, from as int, dx, dy, (n + 2) - 1) == Some(to));
                    assert(v_walk(pos@, *g, from as int, dx, dy, (n + 2) - 2, flies, drills) == Some(0nat));
                    Some((to, b))
                },
                None => None,
            };
        }
        cur = to;
        n += 1;
    }
    None
}

/// Walk a hop ray from `cur` for at most `fuel` steps: the first occupied
/// cell and the cell beyond it, or `None` when the ray leaves the board or
/// meets terrain that stops the mover first, or the screen is on the edge.
pub open spec fn screen_and_beyond(g: GameDef, v: PosView, cur: int, dx: int, dy: int, flies: bool, drills: bool,
    fuel: nat) -> Option<(u16, u16)>
    decreases fuel,
{
    if fuel == 0 {
        None
    } else {
        match g.board.spec_offset(cur, dx, dy) {
            None => None,
            Some(to) => if crate::attack::v_stops(v, v.terrain[to as int], flies, drills) {
                None
            } else if v.board[to as int] >= 0 {
                match g.board.spec_offset(to as int, dx, dy) {
                    Some(b) => Some((to, b)),
                    None => None,
                }
            } else {
                screen_and_beyond(g, v, to as int, dx, dy, flies, drills, (fuel - 1) as nat)
            },
        }
    }
}

/// The compiled kernel moves (leaps, rides, hops) of the piece at list
/// index `pi` standing on `from`.
fn gen_kernels(g: &GameDef, pos: &Position, pi: usize, from: u16, out: &mut Vec<Move>)
    requires
        pos.wf(*g),
        pi < pos.pieces@.len(),
        pos.pieces@[pi as int].loc == Loc::Board(from),
        pos.pieces@[pi as int].side == pos.stm,
        all_anchored(*g, pos@, old(out)@),
    ensures
        all_anchored(*g, pos@, final(out)@),
        final(out)@ == old(out)@ + kernel_moves(*g, pos@, pi as int, from),
{
    let ghost start = out@;
    proof {
        crate::game::lemma_ncells_bound(g.board);
        assert(piece_ok(pos.pieces@[pi as int], *g));
        assert(crate::position::on_board_at(pos.pieces@[pi as int], pos@.board, pi as int));
        assert(from_ok(*g, pos@, from));
    }
    let stm = pos.stm;
    let p = pos.pieces[pi];
    let ck = g.compiled(p.t, stm);
    let flies = g.types[p.t as usize].flight;
    let drills = g.types[p.t as usize].drill;
    let hp = pos.hp[pi];
    assert(pos@.board[from as int] == pi as int);
    let mut ki: usize = 0;
    while ki < ck.leaps.len()
        invariant
            pos.wf(*g),
            from_ok(*g, pos@, from),
            (p.t as int) < g.ntypes(),
            stm == pos.stm,
            stm < g.sides,
            all_anchored(*g, pos@, out@),
            p == pos@.pieces[pi as int],
            pi < pos@.pieces.len(),
            pi < pos@.hp.len(),
            pos@.board[from as int] == pi as int,
            *ck == g.compiled@[(p.t as int) * g.sides + p.side],
            p.side == stm,
            hp == pos@.hp[pi as int],
            flies == g.types@[p.t as int].flight,
            drills == g.types@[p.t as int].drill,
            ck.wf(g.ncells()),
            ki <= ck.leaps@.len(),
            out@ == start + kernel_leap_moves(*g, pos@, pi as int, from, ck.leaps@.subrange(0, ki as int)),
        decreases ck.leaps@.len() - ki,
    {
        let k = &ck.leaps[ki];
        assert(*k == ck.leaps@[ki as int]);
        proof {
            assert(ck.leaps@.subrange(0, ki + 1).drop_last() =~= ck.leaps@.subrange(0, ki as int));
            assert(ck.leaps@.subrange(0, ki + 1).last() == *k);
            assert(out@ + Seq::<Move>::empty() =~= out@);
            let c = kernel_leap_one(*g, pos@, pi as int, from, *k);
            assert((start + kernel_leap_moves(*g, pos@, pi as int, from, ck.leaps@.subrange(0, ki as int))) + c
                =~= start + (kernel_leap_moves(*g, pos@, pi as int, from, ck.leaps@.subrange(0, ki as int)) + c));
        }
        ki += 1;
        if !hp_gate_ok(k.min_hp, k.max_hp, hp) || !g.zone_ok(k.from_zone, stm, from) {
            continue;
        }
        let to = match g.board.offset(from, k.d.dx, k.d.dy) {
            Some(t) => t,
            None => { continue; },
        };
        if !g.zone_ok(k.to_zone, stm, to) || !pos.terrain_open_for(to, flies, drills) {
            continue;
        }
        let mut blocked = false;
        let mut bi: usize = 0;
        while bi < k.blockers.len()
            invariant
                pos.wf(*g),
                (from as int) < g.ncells(),
                bi <= k.blockers@.len(),
                !blocked <==> forall|b: int| 0 <= b < bi ==> #[trigger] crate::attack::leg_clear(pos@, *g, from,
                    k.blockers@[b], flies, drills),
            decreases k.blockers@.len() - bi,
        {
            let b = k.blockers[bi];
            let clear = match g.board.offset(from, b.dx, b.dy) {
                Some(bsq) => !pos.cell_obstructed_for(bsq, flies, drills),
                None => false,
            };
            assert(clear == crate::attack::leg_clear(pos@, *g, from, k.blockers@[bi as int], flies, drills));
            if !clear {
                blocked = true;
            }
            bi += 1;
        }
        if blocked {
            continue;
        }
        let ok = match pos.piece_at(to) {
            None => k.mode.can_move(),
            Some(v) => v.side != stm && k.mode.can_capture() && target_ok(g, pos, k.target, to),
        };
        if ok {
            proof {
                if pos@.board[to as int] >= 0 {
                    assert(pos@.pieces[pos@.board[to as int] as int].side != stm);
                    crate::game::lemma_offset_xy(g.board, from as int, k.d.dx as int, k.d.dy as int);
                    assert(crate::attack::leap_hits(pos@, *g, pi as int, from, to,
                        crate::attack::v_royal_on(pos@, *g, to as int), ck.leaps@[ki - 1]));
                }
            }
            let ghost s0 = out@;
            push_with_promo(g, stm, p.t, from, to, MoveKind::Normal, NO_SQ, out);
            proof { lemma_extends_anchored(*g, pos@, s0, out@, from, to); }
        }
    }
    proof { assert(ck.leaps@.subrange(0, ck.leaps@.len() as int) =~= ck.leaps@); }
    let ghost after_leaps = out@;
    let mut ki: usize = 0;
    while ki < ck.rides.len()
        invariant
            pos.wf(*g),
            from_ok(*g, pos@, from),
            (p.t as int) < g.ntypes(),
            stm == pos.stm,
            stm < g.sides,
            all_anchored(*g, pos@, out@),
            p == pos@.pieces[pi as int],
            pi < pos@.pieces.len(),
            pi < pos@.hp.len(),
            pos@.board[from as int] == pi as int,
            *ck == g.compiled@[(p.t as int) * g.sides + p.side],
            p.side == stm,
            hp == pos@.hp[pi as int],
            flies == g.types@[p.t as int].flight,
            drills == g.types@[p.t as int].drill,
            ck.wf(g.ncells()),
            ki <= ck.rides@.len(),
            out@ == after_leaps + kernel_ride_moves(*g, pos@, pi as int, from, ck.rides@.subrange(0, ki as int)),
            after_leaps == start + kernel_leap_moves(*g, pos@, pi as int, from, ck.leaps@),
        decreases ck.rides@.len() - ki,
    {
        let k = &ck.rides[ki];
        assert(*k == ck.rides@[ki as int]);
        let ghost before = out@;
        proof {
            assert(ck.rides@.subrange(0, ki + 1).drop_last() =~= ck.rides@.subrange(0, ki as int));
            assert(ck.rides@.subrange(0, ki + 1).last() == *k);
            assert(out@ + Seq::<Move>::empty() =~= out@);
            let c = kernel_ride_one(*g, pos@, pi as int, from, *k);
            assert((after_leaps + kernel_ride_moves(*g, pos@, pi as int, from, ck.rides@.subrange(0, ki as int))) + c
                =~= after_leaps + (kernel_ride_moves(*g, pos@, pi as int, from, ck.rides@.subrange(0, ki as int)) + c));
        }
        ki += 1;
        if !hp_gate_ok(k.min_hp, k.max_hp, hp) || !g.zone_ok(k.from_zone, stm, from) {
            continue;
        }
        let mut cur = from;
        let mut steps: u16 = 0;
        assert(ray_cell(*g, from as int, k.d.dx as int, k.d.dy as int, 0) == Some(from));
        while steps < 256
            invariant_except_break
                ray_cell(*g, from as int, k.d.dx as int, k.d.dy as int, steps as int) == Some(cur),
                v_walk(pos@, *g, from as int, k.d.dx as int, k.d.dy as int, steps as int, flies, drills) == Some(0nat),
                before + kernel_ride_walk(*g, pos@, pi as int, from, *k, from as int, 0, 256)
                    == out@ + kernel_ride_walk(*g, pos@, pi as int, from, *k, cur as int, steps as int, (256 - steps) as nat),
            invariant
                pos.wf(*g),
                from_ok(*g, pos@, from),
                (cur as int) < g.ncells(),
                (p.t as int) < g.ntypes(),
                stm == pos.stm,
                stm < g.sides,
                all_anchored(*g, pos@, out@),
                p == pos@.pieces[pi as int],
                pi < pos@.pieces.len(),
                pi < pos@.hp.len(),
                pos@.board[from as int] == pi as int,
                *ck == g.compiled@[(p.t as int) * g.sides + p.side],
                p.side == stm,
                hp == pos@.hp[pi as int],
                flies == g.types@[p.t as int].flight,
                drills == g.types@[p.t as int].drill,
                ck.wf(g.ncells()),
                1 <= ki <= ck.rides@.len(),
                *k == ck.rides@[ki - 1],
                spec_hp_gate_ok(k.min_hp, k.max_hp, hp),
                g.spec_zone_ok(k.from_zone, stm, from),
                steps <= 256,
            ensures
                out@ == before + kernel_ride_walk(*g, pos@, pi as int, from, *k, from as int, 0, 256),
            decreases 256 - steps,
        {
            proof {
                lemma_walk_snoc(pos@, *g, from as int, k.d.dx as int, k.d.dy as int, steps as int, flies, drills);
                assert(out@ + Seq::<Move>::empty() =~= out@);
            }
            let ghost prev = out@;
            let ghost before = steps;
            let to = match g.board.offset(cur, k.d.dx, k.d.dy) {
                Some(t) => t,
                None => { break; },
            };
            steps += 1;
            if k.max_steps != 0 && steps > k.max_steps as u16 {
                break;
            }
            if !g.zone_ok(k.to_zone, stm, to) || !pos.terrain_open_for(to, flies, drills) {
                break;
            }
            match pos.piece_at(to) {
                None => {
                    if k.mode.can_move() {
                        let ghost s0 = out@;
                        push_with_promo(g, stm, p.t, from, to, MoveKind::Normal, NO_SQ, out);
                        proof { lemma_extends_anchored(*g, pos@, s0, out@, from, to); }
                    }
                    proof {
                        let rest = kernel_ride_walk(*g, pos@, pi as int, from, *k, to as int, steps as int, (256 - steps) as nat);
                        let here = if k.mode.spec_can_move() {
                            promo_moves(*g, stm, p.t, from, to, MoveKind::Normal, NO_SQ)
                        } else {
                            Seq::<Move>::empty()
                        };
                        assert(prev + (here + rest) =~= out@ + rest);
                    }
                    cur = to;
                },
                Some(v) => {
                    if v.side != stm && k.mode.can_capture() && target_ok(g, pos, k.target, to) {
                        proof {
                            let st = steps as int;
                            lemma_ray_xy(*g, from as int, k.d.dx as int, k.d.dy as int, st);
                            assert(steps_of(st, crate::attack::gap_x(*g, from, to), crate::attack::gap_y(*g, from, to),
                                k.d.dx as int, k.d.dy as int));
                            assert(crate::attack::ride_hits(pos@, *g, pi as int, from, to,
                                crate::attack::v_royal_on(pos@, *g, to as int), ck.rides@[ki - 1]));
                        }
                        let ghost s0 = out@;
                        push_with_promo(g, stm, p.t, from, to, MoveKind::Normal, NO_SQ, out);
                        proof { lemma_extends_anchored(*g, pos@, s0, out@, from, to); }
                    }
                    proof { assert(out@ + Seq::<Move>::empty() =~= out@); }
                    break;
                },
            }
        }
    }
    proof { assert(ck.rides@.subrange(0, ck.rides@.len() as int) =~= ck.rides@); }
    let ghost after_rides = out@;
    let mut ki: usize = 0;
    while ki < ck.hops.len()
        invariant
            pos.wf(*g),
            from_ok(*g, pos@, from),
            (p.t as int) < g.ntypes(),
            stm == pos.stm,
            stm < g.sides,
            all_anchored(*g, pos@, out@),
            p == pos@.pieces[pi as int],
            pi < pos@.pieces.len(),
            pi < pos@.hp.len(),
            pos@.board[from as int] == pi as int,
            *ck == g.compiled@[(p.t as int) * g.sides + p.side],
            p.side == stm,
            hp == pos@.hp[pi as int],
            flies == g.types@[p.t as int].flight,
            drills == g.types@[p.t as int].drill,
            ck.wf(g.ncells()),
            ki <= ck.hops@.len(),
            out@ == after_rides + kernel_hop_moves(*g, pos@, pi as int, from, ck.hops@.subrange(0, ki as int)),
            after_leaps == start + kernel_leap_moves(*g, pos@, pi as int, from, ck.leaps@),
            after_rides == after_leaps + kernel_ride_moves(*g, pos@, pi as int, from, ck.rides@),
        decreases ck.hops@.len() - ki,
    {
        let k = &ck.hops[ki];
        assert(*k == ck.hops@[ki as int]);
        let ghost before = out@;
        proof {
            assert(ck.hops@.subrange(0, ki + 1).drop_last() =~= ck.hops@.subrange(0, ki as int));
            assert(ck.hops@.subrange(0, ki + 1).last() == *k);
            assert(out@ + Seq::<Move>::empty() =~= out@);
            let c = kernel_hop_one(*g, pos@, pi as int, from, *k);
            assert((after_rides + kernel_hop_moves(*g, pos@, pi as int, from, ck.hops@.subrange(0, ki as int))) + c
                =~= after_rides + (kernel_hop_moves(*g, pos@, pi as int, from, ck.hops@.subrange(0, ki as int)) + c));
        }
        ki += 1;
        if !hp_gate_ok(k.min_hp, k.max_hp, hp) || !g.zone_ok(k.from_zone, stm, from) {
            continue;
        }
        match k.landing {
            HopMode::CannonAtRange => {
                if !k.mode.can_capture() {
                    continue;
                }
                let mut cur = from;
                let mut screened = false;
                let mut n: u16 = 0;
                assert(ray_cell(*g, from as int, k.d.dx as int, k.d.dy as int, 0) == Some(from));
                while n < 256
                    invariant_except_break
                        ray_cell(*g, from as int, k.d.dx as int, k.d.dy as int, n as int) == Some(cur),
                        v_walk(pos@, *g, from as int, k.d.dx as int, k.d.dy as int, n as int, flies, drills)
                            == Some(if screened { 1nat } else { 0nat }),
                        before + cannon_walk(*g, pos@, pi as int, from, *k, from as int, false, 256)
                            == out@ + cannon_walk(*g, pos@, pi as int, from, *k, cur as int, screened, (256 - n) as nat),
                    invariant
                        pos.wf(*g),
                        from_ok(*g, pos@, from),
                        (cur as int) < g.ncells(),
                        (p.t as int) < g.ntypes(),
                        stm == pos.stm,
                        stm < g.sides,
                        all_anchored(*g, pos@, out@),
                        p == pos@.pieces[pi as int],
                        pi < pos@.pieces.len(),
                        pi < pos@.hp.len(),
                        pos@.board[from as int] == pi as int,
                        *ck == g.compiled@[(p.t as int) * g.sides + p.side],
                        p.side == stm,
                        hp == pos@.hp[pi as int],
                        flies == g.types@[p.t as int].flight,
                        drills == g.types@[p.t as int].drill,
                        ck.wf(g.ncells()),
                        1 <= ki <= ck.hops@.len(),
                        *k == ck.hops@[ki - 1],
                        spec_hp_gate_ok(k.min_hp, k.max_hp, hp),
                        g.spec_zone_ok(k.from_zone, stm, from),
                        k.mode.spec_can_capture(),
                        k.landing == HopMode::CannonAtRange,
                        n <= 256,
                    ensures
                        out@ == before + cannon_walk(*g, pos@, pi as int, from, *k, from as int, false, 256),
                    decreases 256 - n,
                {
                    proof {
                        lemma_walk_snoc(pos@, *g, from as int, k.d.dx as int, k.d.dy as int, n as int, flies, drills);
                        assert(out@ + Seq::<Move>::empty() =~= out@);
                    }
                    n += 1;
                    let to = match g.board.offset(cur, k.d.dx, k.d.dy) {
                        Some(t) => t,
                        None => { break; },
                    };
                    if !pos.terrain_open_for(to, flies, drills) {
                        break;
                    }
                    match pos.piece_at(to) {
                        None => { cur = to; },
                        Some(v) => {
                            if !screened {
                                screened = true;
                                cur = to;
                            } else {
                                if v.side != stm && g.zone_ok(k.to_zone, stm, to) && target_ok(g, pos, k.target, to) {
                                    proof {
                                        let st = n as int;
                                        lemma_ray_xy(*g, from as int, k.d.dx as int, k.d.dy as int, st);
                                        assert(steps_of(st, crate::attack::gap_x(*g, from, to),
                                            crate::attack::gap_y(*g, from, to), k.d.dx as int, k.d.dy as int));
                                        assert(crate::attack::hop_lands(pos@, *g, pi as int, from, to,
                                            crate::attack::v_royal_on(pos@, *g, to as int), *k, st));
                                        assert(crate::attack::hop_hits(pos@, *g, pi as int, from, to,
                                            crate::attack::v_royal_on(pos@, *g, to as int), ck.hops@[ki - 1]));
                                    }
                                    let ghost s0 = out@;
                                    push_with_promo(g, stm, p.t, from, to, MoveKind::Normal, NO_SQ, out);
                                    proof { lemma_extends_anchored(*g, pos@, s0, out@, from, to); }
                                }
                                proof { assert(out@ + Seq::<Move>::empty() =~= out@); }
                                break;
                            }
                        },
                    }
                }
            },
            HopMode::BeyondScreen => {
                let (_screen, to) = match first_screen_and_beyond(g, pos, from, k, flies, drills) {
                    Some(x) => x,
                    None => { continue; },
                };
                if !g.zone_ok(k.to_zone, stm, to) || !pos.terrain_open_for(to, flies, drills) {
                    continue;
                }
                let ok = match pos.piece_at(to) {
                    None => k.mode.can_move(),
                    Some(v) => v.side != stm && k.mode.can_capture() && target_ok(g, pos, k.target, to),
                };
                if ok {
                    proof {
                        if pos@.board[to as int] >= 0 {
                            let (dx, dy) = (k.d.dx as int, k.d.dy as int);
                            let st = choose|st: int| st >= 2 && #[trigger] ray_cell(*g, from as int, dx, dy, st - 1) == Some(_screen)
                                && v_walk(pos@, *g, from as int, dx, dy, st - 2, flies, drills) == Some(0nat);
                            lemma_walk_snoc(pos@, *g, from as int, dx, dy, st - 1, flies, drills);
                            assert(ray_cell(*g, from as int, dx, dy, st) == Some(to));
                            lemma_ray_xy(*g, from as int, dx, dy, st);
                            crate::game::lemma_offset_back(g.board, _screen as int, dx, dy);
                            assert(steps_of(st, crate::attack::gap_x(*g, from, to), crate::attack::gap_y(*g, from, to), dx, dy));
                            assert(crate::attack::hop_lands(pos@, *g, pi as int, from, to,
                                crate::attack::v_royal_on(pos@, *g, to as int), *k, st));
                            assert(crate::attack::hop_hits(pos@, *g, pi as int, from, to,
                                crate::attack::v_royal_on(pos@, *g, to as int), ck.hops@[ki - 1]));
                        }
                    }
                    let ghost s0 = out@;
                    push_with_promo(g, stm, p.t, from, to, MoveKind::Normal, NO_SQ, out);
                    proof { lemma_extends_anchored(*g, pos@, s0, out@, from, to); }
                }
            },
            HopMode::Locust => {
                if !k.mode.can_capture() {
                    continue;
                }
                let (screen, to) = match first_screen_and_beyond(g, pos, from, k, flies, drills) {
                    Some(x) => x,
                    None => { continue; },
                };
                let victim_enemy = match pos.piece_at(screen) {
                    Some(v) => v.side != stm,
                    None => false,
                };
                if !victim_enemy || !target_ok(g, pos, k.target, screen) {
                    continue;
                }
                if !g.zone_ok(k.to_zone, stm, to) || !pos.terrain_open_for(to, flies, drills) || pos.occupied(to) {
                    continue;
                }
                push_anchored(g, pos, Move::special(from, to, MoveKind::Locust, screen), out);
            },
        }
    }
    proof {
        assert(ck.hops@.subrange(0, ck.hops@.len() as int) =~= ck.hops@);
        assert(out@ =~= start + kernel_moves(*g, pos@, pi as int, from));
    }
}


/// An enemy piece on `sq` that the target predicate `t` accepts.
pub open spec fn enemy_target(g: GameDef, v: PosView, t: TargetPred, sq: u16) -> bool {
    &&& v.board[sq as int] >= 0
    &&& v.pieces[v.board[sq as int] as int].side != v.stm
    &&& crate::attack::target_holds(t, crate::attack::v_royal_on(v, g, sq as int))
}

/// A kernel in mode `mode` with target predicate `t` may land on `sq`: an
/// empty cell when it may move, an accepted enemy when it may capture.
pub open spec fn may_land(g: GameDef, v: PosView, mode: crate::bits::Mode, t: TargetPred, sq: u16) -> bool {
    ||| v.board[sq as int] < 0 && mode.spec_can_move()
    ||| mode.spec_can_capture() && enemy_target(g, v, t, sq)
}

/// The moves leap kernel `k` of piece `i` on `from` yields: its landing
/// with promotion variants, when gates, zones, terrain, legs and the
/// occupant allow.
pub open spec fn kernel_leap_one(g: GameDef, v: PosView, i: int, from: u16, k: crate::game::LeapK) -> Seq<Move> {
    let p = v.pieces[i];
    let ty = g.types@[p.t as int];
    if !spec_hp_gate_ok(k.min_hp, k.max_hp, v.hp[i]) || !g.spec_zone_ok(k.from_zone, v.stm, from) {
        Seq::empty()
    } else {
        match g.board.spec_offset(from as int, k.d.dx as int, k.d.dy as int) {
            None => Seq::empty(),
            Some(to) => if g.spec_zone_ok(k.to_zone, v.stm, to)
                && !crate::attack::v_stops(v, v.terrain[to as int], ty.flight, ty.drill)
                && (forall|b: int| 0 <= b < k.blockers@.len() ==> #[trigger] crate::attack::leg_clear(v, g, from,
                    k.blockers@[b], ty.flight, ty.drill))
                && may_land(g, v, k.mode, k.target, to) {
                promo_moves(g, v.stm, p.t, from, to, MoveKind::Normal, NO_SQ)
            } else {
                Seq::empty()
            },
        }
    }
}

pub open spec fn kernel_leap_moves(g: GameDef, v: PosView, i: int, from: u16, ks: Seq<crate::game::LeapK>) -> Seq<Move>
    decreases ks.len(),
{
    if ks.len() == 0 {
        Seq::empty()
    } else {
        kernel_leap_moves(g, v, i, from, ks.drop_last()) + kernel_leap_one(g, v, i, from, ks.last())
    }
}

/// The moves ride kernel `k` yields from `cur` on, `steps` steps out, with
/// at most `fuel` more steps: each passable cell in zone and in range;
/// empty cells are moves (with promotion variants, for a kernel that may
/// move) and the ride goes on; an occupied cell ends it, a capture when it
/// holds an accepted enemy.
pub open spec fn kernel_ride_walk(g: GameDef, v: PosView, i: int, from: u16, k: crate::game::RideK, cur: int, steps: int,
    fuel: nat) -> Seq<Move>
    decreases fuel,
{
    let p = v.pieces[i];
    let ty = g.types@[p.t as int];
    if fuel == 0 {
        Seq::empty()
    } else {
        match g.board.spec_offset(cur, k.d.dx as int, k.d.dy as int) {
            None => Seq::empty(),
            Some(to) => if (k.max_steps != 0 && steps + 1 > k.max_steps) || !g.spec_zone_ok(k.to_zone, v.stm, to)
                || crate::attack::v_stops(v, v.terrain[to as int], ty.flight, ty.drill) {
                Seq::empty()
            } else if v.board[to as int] < 0 {
                (if k.mode.spec_can_move() { promo_moves(g, v.stm, p.t, from, to, MoveKind::Normal, NO_SQ) } else { Seq::empty() })
                    + kernel_ride_walk(g, v, i, from, k, to as int, steps + 1, (fuel - 1) as nat)
            } else if k.mode.spec_can_capture() && enemy_target(g, v, k.target, to) {
                promo_moves(g, v.stm, p.t, from, to, MoveKind::Normal, NO_SQ)
            } else {
                Seq::empty()
            },
        }
    }
}

pub open spec fn kernel_ride_one(g: GameDef, v: PosView, i: int, from: u16, k: crate::game::RideK) -> Seq<Move> {
    if spec_hp_gate_ok(k.min_hp, k.max_hp, v.hp[i]) && g.spec_zone_ok(k.from_zone, v.stm, from) {
        kernel_ride_walk(g, v, i, from, k, from as int, 0, 256)
    } else {
        Seq::empty()
    }
}

pub open spec fn kernel_ride_moves(g: GameDef, v: PosView, i: int, from: u16, ks: Seq<crate::game::RideK>) -> Seq<Move>
    decreases ks.len(),
{
    if ks.len() == 0 {
        Seq::empty()
    } else {
        kernel_ride_moves(g, v, i, from, ks.drop_last()) + kernel_ride_one(g, v, i, from, ks.last())
    }
}

/// The capture a cannon kernel `k` yields walking from `cur` with at most
/// `fuel` steps: passable cells only; the first occupied cell is the
/// screen; the next occupied cell is taken when it is an accepted enemy in
/// zone.
pub open spec fn cannon_walk(g: GameDef, v: PosView, i: int, from: u16, k: HopK, cur: int, screened: bool, fuel: nat) -> Seq<Move>
    decreases fuel,
{
    let p = v.pieces[i];
    let ty = g.types@[p.t as int];
    if fuel == 0 {
        Seq::empty()
    } else {
        match g.board.spec_offset(cur, k.d.dx as int, k.d.dy as int) {
            None => Seq::empty(),
            Some(to) => if crate::attack::v_stops(v, v.terrain[to as int], ty.flight, ty.drill) {
                Seq::empty()
            } else if v.board[to as int] < 0 {
                cannon_walk(g, v, i, from, k, to as int, screened, (fuel - 1) as nat)
            } else if !screened {
                cannon_walk(g, v, i, from, k, to as int, true, (fuel - 1) as nat)
            } else if enemy_target(g, v, k.target, to) && g.spec_zone_ok(k.to_zone, v.stm, to) {
                promo_moves(g, v.stm, p.t, from, to, MoveKind::Normal, NO_SQ)
            } else {
                Seq::empty()
            },
        }
    }
}

/// The moves hop kernel `k` of piece `i` on `from` yields, by landing mode.
pub open spec fn kernel_hop_one(g: GameDef, v: PosView, i: int, from: u16, k: HopK) -> Seq<Move> {
    let p = v.pieces[i];
    let ty = g.types@[p.t as int];
    let sab = screen_and_beyond(g, v, from as int, k.d.dx as int, k.d.dy as int, ty.flight, ty.drill, 256);
    if !spec_hp_gate_ok(k.min_hp, k.max_hp, v.hp[i]) || !g.spec_zone_ok(k.from_zone, v.stm, from) {
        Seq::empty()
    } else {
        match k.landing {
            HopMode::CannonAtRange => if k.mode.spec_can_capture() {
                cannon_walk(g, v, i, from, k, from as int, false, 256)
            } else {
                Seq::empty()
            },
            HopMode::BeyondScreen => match sab {
                None => Seq::empty(),
                Some((_s, to)) => if g.spec_zone_ok(k.to_zone, v.stm, to)
                    && !crate::attack::v_stops(v, v.terrain[to as int], ty.flight, ty.drill)
                    && may_land(g, v, k.mode, k.target, to) {
                    promo_moves(g, v.stm, p.t, from, to, MoveKind::Normal, NO_SQ)
                } else {
                    Seq::empty()
                },
            },
            HopMode::Locust => match sab {
                None => Seq::empty(),
                Some((scr, to)) => if k.mode.spec_can_capture() && enemy_target(g, v, k.target, scr)
                    && g.spec_zone_ok(k.to_zone, v.stm, to)
                    && !crate::attack::v_stops(v, v.terrain[to as int], ty.flight, ty.drill)
                    && !(0 <= v.board[to as int] < v.pieces.len()) {
                    seq![Move { from, to, kind: MoveKind::Locust, promo: None, drop_type: 0, aux: scr, effect: Effect::NoEffect }]
                } else {
                    Seq::empty()
                },
            },
        }
    }
}

pub open spec fn kernel_hop_moves(g: GameDef, v: PosView, i: int, from: u16, ks: Seq<HopK>) -> Seq<Move>
    decreases ks.len(),
{
    if ks.len() == 0 {
        Seq::empty()
    } else {
        kernel_hop_moves(g, v, i, from, ks.drop_last()) + kernel_hop_one(g, v, i, from, ks.last())
    }
}

/// The kernel moves of piece `i` standing on `from`: its leaps, rides and
/// hops, kernel by kernel, each landing with its promotion variants.
pub open spec fn kernel_moves(g: GameDef, v: PosView, i: int, from: u16) -> Seq<Move> {
    let p = v.pieces[i];
    let ck = g.compiled@[(p.t as int) * g.sides + p.side];
    kernel_leap_moves(g, v, i, from, ck.leaps@) + kernel_ride_moves(g, v, i, from, ck.rides@)
        + kernel_hop_moves(g, v, i, from, ck.hops@)
}

/// Walk `n` steps of `(dx,dy)` from `sq`, if every step stays on the board.
fn step_n(g: &GameDef, sq: u16, dx: i8, dy: i8, n: u8) -> (r: Option<u16>)
    requires
        g.wf(),
        (sq as int) < g.ncells(),
    ensures
        r matches Some(t) ==> (t as int) < g.ncells(),
        r == ray_cell(*g, sq as int, dx as int, dy as int, n as int),
{
    proof { crate::game::lemma_ncells_bound(g.board); }
    let mut cur = sq;
    let mut i: u8 = 0;
    assert(ray_cell(*g, sq as int, dx as int, dy as int, 0) == Some(sq));
    while i < n
        invariant
            g.wf(),
            (cur as int) < g.ncells(),
            (sq as int) < g.ncells(),
            i <= n,
            g.ncells() <= 65025,
            ray_cell(*g, sq as int, dx as int, dy as int, i as int) == Some(cur),
        decreases n - i,
    {
        proof { crate::attack::lemma_ray_snoc(*g, sq as int, dx as int, dy as int, i as int); }
        match g.board.offset(cur, dx, dy) {
            Some(c) => cur = c,
            None => {
                proof { lemma_ray_none_stays(*g, sq as int, dx as int, dy as int, (i + 1) as int, n as int); }
                return None;
            },
        }
        i += 1;
    }
    Some(cur)
}

/// Once a ray leaves the board it stays off it.
proof fn lemma_ray_none_stays(g: GameDef, c: int, dx: int, dy: int, k: int, n: int)
    requires
        0 <= k <= n,
        ray_cell(g, c, dx, dy, k) is None,
    ensures
        ray_cell(g, c, dx, dy, n) is None,
    decreases k,
{
    if k > 0 {
        match g.board.spec_offset(c, dx, dy) {
            Some(c1) => lemma_ray_none_stays(g, c1 as int, dx, dy, k - 1, n - 1),
            None => {},
        }
    }
}

/// Chebyshev distance between two squares.
pub fn cheb(g: &GameDef, a: u16, b: u16) -> (d: u16)
    requires
        g.wf(),
        (a as int) < g.ncells(),
        (b as int) < g.ncells(),
    ensures
        d <= 255,
        d == spec_cheb(*g, a as int, b as int),
{
    let (ax, ay) = g.board.xy(a);
    let (bx, b_y) = g.board.xy(b);
    let ddx = if ax > bx { ax - bx } else { bx - ax };
    let ddy = if ay > b_y { ay - b_y } else { b_y - ay };
    (if ddx > ddy { ddx } else { ddy }) as u16
}

/// The eight queen-line directions.
fn dir8(i: usize) -> (r: (i8, i8))
    ensures
        -1 <= r.0 <= 1,
        -1 <= r.1 <= 1,
        r == spec_dir8(i as int),
{
    if i == 0 { (0, 1) } else if i == 1 { (0, -1) } else if i == 2 { (1, 0) } else if i == 3 { (-1, 0) }
    else if i == 4 { (1, 1) } else if i == 5 { (1, -1) } else if i == 6 { (-1, 1) } else { (-1, -1) }
}

/// The cell `n` steps of `f` along the file from `cur`, when every cell on
/// the way is unobstructed; `None` when the walk leaves the board or meets
/// an obstructed cell.
pub open spec fn ahead_open(g: GameDef, v: PosView, cur: int, f: int, n: nat) -> Option<u16>
    decreases n,
{
    if n == 0 {
        Some(cur as u16)
    } else {
        match g.board.spec_offset(cur, 0, f) {
            None => None,
            Some(nx) => if v_obstructed(v, nx) {
                None
            } else {
                ahead_open(g, v, nx as int, f, (n - 1) as nat)
            },
        }
    }
}

/// The capture onto the ephemeral marker that leap kernel `k` gives the
/// piece on `from` (forward direction `f`), stamped with `kind`; the aux
/// victim is the cell behind the marker.
pub open spec fn ep_one(g: GameDef, v: PosView, from: u16, f: int, kind: MoveKind, k: crate::game::LeapK) -> Seq<Move> {
    if !k.mode.spec_can_capture() {
        Seq::empty()
    } else {
        match g.board.spec_offset(from as int, k.d.dx as int, k.d.dy as int) {
            Some(t) => if t == v.ep {
                match g.board.spec_offset(t as int, 0, -f) {
                    Some(victim) => seq![Move { from, to: t, kind, promo: None, drop_type: 0, aux: victim, effect: Effect::NoEffect }],
                    None => Seq::empty(),
                }
            } else {
                Seq::empty()
            },
            None => Seq::empty(),
        }
    }
}

pub open spec fn ep_moves(g: GameDef, v: PosView, from: u16, f: int, kind: MoveKind, ks: Seq<crate::game::LeapK>) -> Seq<Move>
    decreases ks.len(),
{
    if ks.len() == 0 {
        Seq::empty()
    } else {
        ep_moves(g, v, from, f, kind, ks.drop_last()) + ep_one(g, v, from, f, kind, ks.last())
    }
}

/// The moves special reference `sr` yields for piece `i` on `from` at
/// health `hp`: nothing when its origin gates fail; else by its shape.
pub open spec fn special_one(g: GameDef, v: PosView, i: int, from: u16, hp: i16, sr: SpecialRef) -> Seq<Move> {
    let p = v.pieces[i];
    let ck = g.compiled@[(p.t as int) * g.sides + p.side];
    let f = Position::spec_forward(v.stm) as int;
    if !sr.gates.spec_pass(g, v, from, p.moved, hp) {
        Seq::empty()
    } else {
        match sr.shape {
            GenShape::TwoStepEphemeral => match ahead_open(g, v, from as int, f, sr.gen_steps as nat) {
                Some(c) => seq![Move { from, to: c, kind: sr.kind, promo: None, drop_type: 0, aux: NO_SQ, effect: Effect::NoEffect }],
                None => Seq::empty(),
            },
            GenShape::EphemeralCapture => ep_moves(g, v, from, f, sr.kind, ck.leaps@),
            GenShape::PartnerCompound => partner_moves(g, v, sr, from, v.pieces.len() as int),
        }
    }
}

pub open spec fn special_moves(g: GameDef, v: PosView, i: int, from: u16, hp: i16, srs: Seq<SpecialRef>) -> Seq<Move>
    decreases srs.len(),
{
    if srs.len() == 0 {
        Seq::empty()
    } else {
        special_moves(g, v, i, from, hp, srs.drop_last()) + special_one(g, v, i, from, hp, srs.last())
    }
}

/// The special moves of piece `i` on `from` at health `hp`: those of each
/// compiled special reference of its type, in order.
pub open spec fn specials_of(g: GameDef, v: PosView, i: int, from: u16, hp: i16) -> Seq<Move> {
    let p = v.pieces[i];
    special_moves(g, v, i, from, hp, g.compiled@[(p.t as int) * g.sides + p.side].specials@)
}

/// Special-move generation: walk the type's compiled script references;
/// check each row's compiled origin gates, then run the walker for the
/// row's generation shape.
fn gen_specials(g: &GameDef, pos: &Position, pi: usize, from: u16, hp: i16, out: &mut Vec<Move>)
    requires
        pos.wf(*g),
        pi < pos.pieces@.len(),
        pos.pieces@[pi as int].loc == Loc::Board(from),
        pos.pieces@[pi as int].side == pos.stm,
        all_anchored(*g, pos@, old(out)@),
    ensures
        all_anchored(*g, pos@, final(out)@),
        final(out)@ == old(out)@ + specials_of(*g, pos@, pi as int, from, hp),
{
    let ghost start = out@;
    proof {
        crate::game::lemma_ncells_bound(g.board);
        assert(piece_ok(pos.pieces@[pi as int], *g));
        assert(crate::position::on_board_at(pos.pieces@[pi as int], pos@.board, pi as int));
        assert(from_ok(*g, pos@, from));
    }
    let stm = pos.stm;
    let p = pos.pieces[pi];
    let ck = g.compiled(p.t, stm);
    let mut si: usize = 0;
    assert(ck.specials@.subrange(0, 0) =~= Seq::<SpecialRef>::empty());
    assert(out@ =~= start + special_moves(*g, pos@, pi as int, from, hp, ck.specials@.subrange(0, 0)));
    while si < ck.specials.len()
        invariant
            pos.wf(*g),
            ck.wf(g.ncells()),
            from_ok(*g, pos@, from),
            stm == pos.stm,
            p == pos@.pieces[pi as int],
            p.side == stm,
            pi < pos@.pieces.len(),
            *ck == g.compiled@[(p.t as int) * g.sides + p.side],
            si <= ck.specials@.len(),
            out@ == start + special_moves(*g, pos@, pi as int, from, hp, ck.specials@.subrange(0, si as int)),
            all_anchored(*g, pos@, out@),
        decreases ck.specials@.len() - si,
    {
        let sr = &ck.specials[si];
        assert(sr.kind != MoveKind::Drop && sr.kind != MoveKind::Ability && sr.kind != MoveKind::Normal);
        si += 1;
        let ghost one = special_one(*g, pos@, pi as int, from, hp, *sr);
        proof {
            let pre = ck.specials@.subrange(0, si as int);
            assert(pre.drop_last() =~= ck.specials@.subrange(0, si - 1));
            assert(pre.last() == *sr);
            assert(special_moves(*g, pos@, pi as int, from, hp, pre)
                == special_moves(*g, pos@, pi as int, from, hp, ck.specials@.subrange(0, si - 1)) + one);
        }
        if !sr.gates.pass(g, pos, from, p.moved, hp) {
            proof { assert(out@ =~= out@ + one); }
            continue;
        }
        let f = Position::forward(stm);
        match sr.shape {
            GenShape::TwoStepEphemeral => {
                let mut cur = from;
                let mut open = true;
                let mut i: u8 = 0;
                while i < sr.gen_steps
                    invariant_except_break
                        open,
                        ahead_open(*g, pos@, from as int, f as int, sr.gen_steps as nat)
                            == ahead_open(*g, pos@, cur as int, f as int, (sr.gen_steps - i) as nat),
                    invariant
                        pos.wf(*g),
                        (cur as int) < g.ncells(),
                        i <= sr.gen_steps,
                    ensures
                        open ==> ahead_open(*g, pos@, from as int, f as int, sr.gen_steps as nat) == Some(cur),
                        !open ==> ahead_open(*g, pos@, from as int, f as int, sr.gen_steps as nat) is None,
                    decreases sr.gen_steps - i,
                {
                    match g.board.offset(cur, 0, f) {
                        Some(nx) => {
                            if pos.cell_obstructed(nx) {
                                open = false;
                                break;
                            }
                            cur = nx;
                        },
                        None => {
                            open = false;
                            break;
                        },
                    }
                    i += 1;
                }
                if open {
                    push_anchored(g, pos, Move::special(from, cur, sr.kind, NO_SQ), out);
                } else {
                    proof { assert(out@ =~= out@ + one); }
                }
            },
            GenShape::EphemeralCapture => {
                let ghost mid = out@;
                let mut ki: usize = 0;
                assert(out@ =~= mid + ep_moves(*g, pos@, from, f as int, sr.kind, ck.leaps@.subrange(0, 0)));
                while ki < ck.leaps.len()
                    invariant
                        pos.wf(*g),
                        ck.wf(g.ncells()),
                        from_ok(*g, pos@, from),
                        stm == pos.stm,
                        sr.kind != MoveKind::Drop,
                        sr.kind != MoveKind::Ability,
                        sr.kind != MoveKind::Normal,
                        f == 1 || f == -1,
                        ki <= ck.leaps@.len(),
                        out@ == mid + ep_moves(*g, pos@, from, f as int, sr.kind, ck.leaps@.subrange(0, ki as int)),
                        all_anchored(*g, pos@, out@),
                    decreases ck.leaps@.len() - ki,
                {
                    let k = &ck.leaps[ki];
                    ki += 1;
                    proof {
                        let pre = ck.leaps@.subrange(0, ki as int);
                        assert(pre.drop_last() =~= ck.leaps@.subrange(0, ki - 1));
                        assert(pre.last() == *k);
                    }
                    if !k.mode.can_capture() {
                        proof { assert(out@ =~= out@ + ep_one(*g, pos@, from, f as int, sr.kind, *k)); }
                        continue;
                    }
                    match g.board.offset(from, k.d.dx, k.d.dy) {
                        Some(t) => {
                            if t == pos.ep {
                                match g.board.offset(t, 0, -f) {
                                    Some(victim) => {
                                        push_anchored(g, pos, Move::special(from, t, sr.kind, victim), out);
                                    },
                                    None => {
                                        proof { assert(out@ =~= out@ + ep_one(*g, pos@, from, f as int, sr.kind, *k)); }
                                    },
                                }
                            } else {
                                proof { assert(out@ =~= out@ + ep_one(*g, pos@, from, f as int, sr.kind, *k)); }
                            }
                        },
                        None => {
                            proof { assert(out@ =~= out@ + ep_one(*g, pos@, from, f as int, sr.kind, *k)); }
                        },
                    }
                }
                proof { assert(ck.leaps@.subrange(0, ck.leaps@.len() as int) =~= ck.leaps@); }
            },
            GenShape::PartnerCompound => {
                gen_partner_compound(g, pos, sr, from, out);
            },
        }
    }
    proof { assert(ck.specials@.subrange(0, ck.specials@.len() as int) =~= ck.specials@); }
}


/// A cell that stops a ground walk: occupied, or terrain that stops a walker.
pub open spec fn v_obstructed(v: PosView, c: u16) -> bool {
    v.board[c as int] >= 0 || crate::attack::v_stops(v, v.terrain[c as int], false, false)
}

/// Stepping `dir` along the rank from `cur`, with at most `fuel` steps,
/// `rsq` is reached before the board's edge and before any obstructed cell
/// (true when the fuel runs out first).
pub open spec fn rank_clear_to(g: GameDef, v: PosView, cur: int, dir: int, rsq: u16, fuel: nat) -> bool
    decreases fuel,
{
    if fuel == 0 {
        true
    } else {
        match g.board.spec_offset(cur, dir, 0) {
            None => false,
            Some(c) => if c == rsq {
                true
            } else if v_obstructed(v, c) {
                false
            } else {
                rank_clear_to(g, v, c as int, dir, rsq, (fuel - 1) as nat)
            },
        }
    }
}

/// The actor's `i`-th crossing cell from `ksq` along `dir` is on the board
/// and free: empty or the partner's own square, on open terrain.
pub open spec fn crossing_free(g: GameDef, v: PosView, ksq: u16, dir: int, rsq: u16, i: int) -> bool {
    match ray_cell(g, ksq as int, dir, 0, i) {
        Some(c) => (v.board[c as int] < 0 || c == rsq) && !crate::attack::v_stops(v, v.terrain[c as int], false, false),
        None => false,
    }
}

/// The actor's `i`-th cell from `ksq` along `dir` is on the board and not
/// attacked by `enemy`.
pub open spec fn crossing_safe(g: GameDef, v: PosView, ksq: u16, dir: int, enemy: Side, i: int) -> bool {
    match ray_cell(g, ksq as int, dir, 0, i) {
        Some(c) => !crate::attack::v_attacked(v, g, c, enemy),
        None => false,
    }
}

/// The side after the side to move, in turn order.
pub open spec fn next_side(g: GameDef, v: PosView) -> Side {
    (((v.stm as int) + 1) % (g.sides as int)) as Side
}

/// The actor's direction of travel toward a partner on `rsq`.
pub open spec fn partner_dir(ksq: u16, rsq: u16) -> int {
    if rsq > ksq { 1 } else { -1 }
}

/// The compound move (if any) that script `sr` makes for the actor on
/// `ksq` with piece `ri` as its partner.
pub open spec fn partner_one(g: GameDef, v: PosView, sr: SpecialRef, ksq: u16, ri: int) -> Seq<Move> {
    let r = v.pieces[ri];
    let steps = sr.gen_steps as int;
    match sr.script.binding {
        Binding::Solo => Seq::empty(),
        Binding::Partner { flag, same_rank, unmoved } => match r.loc {
            Loc::Board(rsq) => {
                let dir = partner_dir(ksq, rsq);
                if r.side == v.stm && !(unmoved && r.moved) && g.types@[r.t as int].castle_partner
                    && (!same_rank || g.board.spec_y(rsq as int) == g.board.spec_y(ksq as int))
                    && (!sr.script.gates@.contains(Gate::PathClear) || rank_clear_to(g, v, ksq as int, dir, rsq, 256)) {
                    match ray_cell(g, ksq as int, dir, 0, steps) {
                        Some(dest) => if dest != rsq
                            && (forall|i: int| 1 <= i < steps ==> #[trigger] crossing_free(g, v, ksq, dir, rsq, i))
                            && !v_obstructed(v, dest)
                            && (!sr.script.gates@.contains(Gate::PathSafe)
                                || (!crate::attack::v_attacked(v, g, ksq, next_side(g, v))
                                    && forall|i: int| 1 <= i <= steps ==> #[trigger] crossing_safe(g, v, ksq, dir, next_side(g, v), i))) {
                            seq![Move { from: ksq, to: dest, kind: sr.kind, promo: None, drop_type: 0, aux: rsq, effect: Effect::NoEffect }]
                        } else {
                            Seq::empty()
                        },
                        None => Seq::empty(),
                    }
                } else {
                    Seq::empty()
                }
            },
            _ => Seq::empty(),
        },
    }
}

/// The compound moves of script `sr` for the actor on `ksq`, over the
/// first `n` pieces as partners, in piece order.
pub open spec fn partner_moves(g: GameDef, v: PosView, sr: SpecialRef, ksq: u16, n: int) -> Seq<Move>
    decreases n,
{
    if n <= 0 {
        Seq::empty()
    } else {
        partner_moves(g, v, sr, ksq, n - 1) + partner_one(g, v, sr, ksq, n - 1)
    }
}

/// Two-piece compound over a partner binding (castle): select the partner
/// per the binding row (type flag, same rank, unmoved), then interpret the
/// path-clear gate (squares strictly between actor and partner), the
/// actor's travel with its crossing/landing occupancy rules, and the
/// path-safe gate (origin, crossings, landing unattacked).
fn gen_partner_compound(g: &GameDef, pos: &Position, sr: &SpecialRef, ksq: u16, out: &mut Vec<Move>)
    requires
        pos.wf(*g),
        from_ok(*g, pos@, ksq),
        sr.kind != MoveKind::Drop,
        sr.kind != MoveKind::Ability,
        sr.kind != MoveKind::Normal,
        all_anchored(*g, pos@, old(out)@),
    ensures
        all_anchored(*g, pos@, final(out)@),
        final(out)@ == old(out)@ + partner_moves(*g, pos@, *sr, ksq, pos@.pieces.len() as int),
{
    let ghost start = out@;
    let (flag, same_rank, unmoved) = match sr.script.binding {
        Binding::Partner { flag, same_rank, unmoved } => (flag, same_rank, unmoved),
        Binding::Solo => {
            proof { lemma_partner_solo(*g, pos@, *sr, ksq, pos@.pieces.len() as int); }
            return;
        },
    };
    let path_clear = sr.script.has_gate(Gate::PathClear);
    let path_safe = sr.script.has_gate(Gate::PathSafe);
    let stm = pos.stm;
    let enemy = ((stm as u16 + 1) % (g.sides as u16)) as u8;
    let steps = sr.gen_steps;
    let (_kx, ky) = g.board.xy(ksq);
    let mut ri: usize = 0;
    assert(out@ =~= start + partner_moves(*g, pos@, *sr, ksq, 0));
    while ri < pos.pieces.len()
        invariant
            pos.wf(*g),
            from_ok(*g, pos@, ksq),
            sr.kind != MoveKind::Drop,
            sr.kind != MoveKind::Ability,
            sr.kind != MoveKind::Normal,
            stm == pos.stm,
            enemy < g.sides,
            enemy == next_side(*g, pos@),
            sr.script.binding == (Binding::Partner { flag, same_rank, unmoved }),
            path_clear == sr.script.gates@.contains(Gate::PathClear),
            path_safe == sr.script.gates@.contains(Gate::PathSafe),
            steps == sr.gen_steps,
            ky == g.board.spec_y(ksq as int),
            ri <= pos@.pieces.len(),
            out@ == start + partner_moves(*g, pos@, *sr, ksq, ri as int),
            all_anchored(*g, pos@, out@),
        decreases pos.pieces@.len() - ri,
    {
        let r = pos.pieces[ri];
        ri += 1;
        let ghost one = partner_one(*g, pos@, *sr, ksq, ri - 1);
        proof {
            assert(piece_ok(pos.pieces@[ri - 1], *g));
            assert(partner_moves(*g, pos@, *sr, ksq, ri as int) == partner_moves(*g, pos@, *sr, ksq, ri - 1) + one);
        }
        let rsq = match r.loc {
            Loc::Board(q) => q,
            _ => {
                proof { assert(out@ =~= out@ + one); }
                continue;
            },
        };
        let flagged = match flag {
            PartnerFlag::CastlePartner => g.types[r.t as usize].castle_partner,
        };
        if r.side != stm || (unmoved && r.moved) || !flagged {
            proof { assert(out@ =~= out@ + one); }
            continue;
        }
        let (_rx, ry) = g.board.xy(rsq);
        if same_rank && ry != ky {
            proof { assert(out@ =~= out@ + one); }
            continue;
        }
        let dir: i8 = if rsq > ksq { 1 } else { -1 };
        if path_clear {
            let mut clear = true;
            let mut cur = ksq;
            let mut n: u16 = 0;
            while n < 256
                invariant_except_break
                    clear,
                    rank_clear_to(*g, pos@, ksq as int, dir as int, rsq, 256)
                        == rank_clear_to(*g, pos@, cur as int, dir as int, rsq, (256 - n) as nat),
                invariant
                    pos.wf(*g),
                    (cur as int) < g.ncells(),
                    n <= 256,
                ensures
                    clear == rank_clear_to(*g, pos@, ksq as int, dir as int, rsq, 256),
                decreases 256 - n,
            {
                n += 1;
                match g.board.offset(cur, dir, 0) {
                    Some(c) => cur = c,
                    None => {
                        clear = false;
                        break;
                    },
                }
                if cur == rsq {
                    break;
                }
                if pos.cell_obstructed(cur) {
                    clear = false;
                    break;
                }
            }
            if !clear {
                proof { assert(out@ =~= out@ + one); }
                continue;
            }
        }
        let dest = match step_n(g, ksq, dir, 0, steps) {
            Some(d) => d,
            None => {
                proof { assert(out@ =~= out@ + one); }
                continue;
            },
        };
        if dest == rsq {
            proof { assert(out@ =~= out@ + one); }
            continue;
        }
        let mut open = true;
        let mut i: u8 = 1;
        while i < steps
            invariant
                pos.wf(*g),
                (ksq as int) < g.ncells(),
                1 <= i,
                i as int <= (if steps == 0 { 1 } else { steps as int }),
                open == forall|j: int| 1 <= j < i ==> #[trigger] crossing_free(*g, pos@, ksq, dir as int, rsq, j),
            decreases steps - i,
        {
            match step_n(g, ksq, dir, 0, i) {
                Some(c) => {
                    if (pos.board[c as usize] >= 0 && c != rsq) || !pos.terrain_open(c) {
                        open = false;
                    }
                },
                None => { open = false; },
            }
            proof {
                assert(crossing_free(*g, pos@, ksq, dir as int, rsq, i as int) == (match ray_cell(*g, ksq as int, dir as int, 0, i as int) {
                    Some(c) => (pos@.board[c as int] < 0 || c == rsq) && !crate::attack::v_stops(pos@, pos@.terrain[c as int], false, false),
                    None => false,
                }));
            }
            i += 1;
        }
        if !open || pos.board[dest as usize] >= 0 || !pos.terrain_open(dest) {
            proof {
                assert(one =~= Seq::<Move>::empty());
                assert(out@ =~= out@ + one);
            }
            continue;
        }
        if path_safe {
            let mut safe = !pos.is_attacked(g, ksq, enemy);
            let mut i: u8 = 1;
            while i <= steps && safe
                invariant_except_break
                    1 <= i <= steps as int + 1,
                    safe == (!crate::attack::v_attacked(pos@, *g, ksq, enemy)
                        && forall|j: int| 1 <= j < i ==> #[trigger] crossing_safe(*g, pos@, ksq, dir as int, enemy, j)),
                invariant
                    pos.wf(*g),
                    (ksq as int) < g.ncells(),
                    enemy < g.sides,
                ensures
                    safe == (!crate::attack::v_attacked(pos@, *g, ksq, enemy)
                        && forall|j: int| 1 <= j <= steps ==> #[trigger] crossing_safe(*g, pos@, ksq, dir as int, enemy, j)),
                decreases 256 - i,
            {
                match step_n(g, ksq, dir, 0, i) {
                    Some(c) => { safe = !pos.is_attacked(g, c, enemy); },
                    None => { safe = false; },
                }
                proof {
                    assert(safe == crossing_safe(*g, pos@, ksq, dir as int, enemy, i as int));
                    assert(safe == (!crate::attack::v_attacked(pos@, *g, ksq, enemy)
                        && forall|j: int| 1 <= j < i + 1 ==> #[trigger] crossing_safe(*g, pos@, ksq, dir as int, enemy, j)));
                }
                if i == 255 {
                    break;
                }
                i += 1;
            }
            if !safe {
                proof { assert(out@ =~= out@ + one); }
                continue;
            }
        }
        proof {
            assert(one =~= seq![Move { from: ksq, to: dest, kind: sr.kind, promo: None, drop_type: 0, aux: rsq, effect: Effect::NoEffect }]);
        }
        push_anchored(g, pos, Move::special(ksq, dest, sr.kind, rsq), out);
    }
}

/// A script bound to no partner makes no compound move.
proof fn lemma_partner_solo(g: GameDef, v: PosView, sr: SpecialRef, ksq: u16, n: int)
    requires
        sr.script.binding == Binding::Solo,
    ensures
        partner_moves(g, v, sr, ksq, n) == Seq::<Move>::empty(),
    decreases n,
{
    if n > 0 {
        lemma_partner_solo(g, v, sr, ksq, n - 1);
        assert(partner_moves(g, v, sr, ksq, n) =~= Seq::<Move>::empty());
    }
}


/// Is `sq` a legal target of a custom ability row, from the caster's view
/// (`who` and every predicate hold)?
fn custom_target_ok(g: &GameDef, pos: &Position, who: Who, preds: &Vec<Pred>, from: u16, sq: u16) -> (r: bool)
    requires
        pos.wf(*g),
        (sq as int) < g.ncells(),
    ensures
        r == (who_holds(*g, pos@, who, from, sq)
            && forall|k: int| 0 <= k < preds@.len() ==> #[trigger] pred_holds(*g, pos@, preds@[k], from, sq)),
{
    proof { crate::game::lemma_ncells_bound(g.board); }
    let stm = pos.stm;
    let e = pos.board[sq as usize];
    let t = pos.terrain[sq as usize];
    let who_ok = match who {
        Who::Friendly => e >= 0 && pos.pieces[e as usize].side == stm && sq != from,
        Who::Enemy => e >= 0 && pos.pieces[e as usize].side != stm,
        Who::EmptyCell => e < 0 && sq != from && pos.terrain_open(sq),
        Who::EnemyOrBlockCell => (e >= 0 && pos.pieces[e as usize].side != stm)
            || (e < 0 && g.terrain_is_block(t)),
        Who::DeadFriendly => e < 0 && pos.terrain_open(sq),
    };
    if !who_ok {
        return false;
    }
    assert(who_ok == who_holds(*g, pos@, who, from, sq));
    let mut k: usize = 0;
    while k < preds.len()
        invariant
            pos.wf(*g),
            (sq as int) < g.ncells(),
            e == pos@.board[sq as int],
            t == pos@.terrain[sq as int],
            k <= preds@.len(),
            forall|j: int| 0 <= j < k ==> #[trigger] pred_holds(*g, pos@, preds@[j], from, sq),
        decreases preds@.len() - k,
    {
        let ok = match preds[k] {
            Pred::Damaged => e >= 0 && {
                let pt = pos.pieces[e as usize].t;
                pos.hp[e as usize] < g.types[pt as usize].max_hp
            },
            Pred::HpEq1 => e >= 0 && hp_gate_ok(1, 1, pos.hp[e as usize]),
            Pred::NonRoyal => e < 0 || !g.types[pos.pieces[e as usize].t as usize].royal,
            Pred::BareCell => e < 0 && t == T_NONE && sq != from,
            Pred::OpenLanding => e < 0 && pos.terrain_open(sq),
            Pred::RetreatFree => true,
        };
        proof {
            if e >= 0 {
                assert(piece_ok(pos.pieces@[e as int], *g));
            }
        }
        assert(ok == pred_holds(*g, pos@, preds@[k as int], from, sq));
        if !ok {
            return false;
        }
        k += 1;
    }
    true
}

/// The caster-relative class of a custom ability's target cell.
pub open spec fn who_holds(g: GameDef, v: PosView, who: Who, from: u16, sq: u16) -> bool {
    let e = v.board[sq as int];
    let stm = v.stm;
    match who {
        Who::Friendly => e >= 0 && v.pieces[e as int].side == stm && sq != from,
        Who::Enemy => e >= 0 && v.pieces[e as int].side != stm,
        Who::EmptyCell => e < 0 && sq != from && !crate::attack::v_stops(v, v.terrain[sq as int], false, false),
        Who::EnemyOrBlockCell => (e >= 0 && v.pieces[e as int].side != stm)
            || (e < 0 && g.spec_terrain_is_block(v.terrain[sq as int])),
        Who::DeadFriendly => e < 0 && !crate::attack::v_stops(v, v.terrain[sq as int], false, false),
    }
}

/// One named predicate of a custom ability row, on its target cell.
pub open spec fn pred_holds(g: GameDef, v: PosView, p: Pred, from: u16, sq: u16) -> bool {
    let e = v.board[sq as int];
    match p {
        Pred::Damaged => e >= 0 && v.hp[e as int] < g.types@[v.pieces[e as int].t as int].max_hp,
        Pred::HpEq1 => e >= 0 && spec_hp_gate_ok(1, 1, v.hp[e as int]),
        Pred::NonRoyal => e < 0 || !g.types@[v.pieces[e as int].t as int].royal,
        Pred::BareCell => e < 0 && v.terrain[sq as int] == T_NONE && sq != from,
        Pred::OpenLanding => e < 0 && !crate::attack::v_stops(v, v.terrain[sq as int], false, false),
        Pred::RetreatFree => true,
    }
}

/// An ability move from `from` onto `to` with effect `e` and aux `aux`.
pub open spec fn ab_move(from: u16, to: u16, e: Effect, aux: u16) -> Move {
    Move { from, to, kind: MoveKind::Ability, promo: None, drop_type: 0, aux, effect: e }
}

/// The eight queen-line directions, by index.
pub open spec fn spec_dir8(i: int) -> (i8, i8) {
    if i == 0 { (0i8, 1i8) } else if i == 1 { (0i8, -1i8) } else if i == 2 { (1i8, 0i8) }
    else if i == 3 { (-1i8, 0i8) } else if i == 4 { (1i8, 1i8) } else if i == 5 { (1i8, -1i8) }
    else if i == 6 { (-1i8, 1i8) } else { (-1i8, -1i8) }
}

/// The sign of `a`.
pub open spec fn sgn(a: int) -> int {
    if a > 0 { 1 } else if a < 0 { -1 } else { 0 }
}

/// Occupied, or terrain that stops a ground walker.
pub open spec fn cell_blocked(v: PosView, sq: int) -> bool {
    v.board[sq] >= 0 || crate::attack::v_stops(v, v.terrain[sq], false, false)
}

/// Heal: piece `q`, when it is a damaged friendly piece on the board within
/// `range` of the caster.
pub open spec fn heal_at(g: GameDef, v: PosView, from: u16, amount: i16, range: u8, q: int) -> Seq<Move> {
    let p = v.pieces[q];
    match p.loc {
        Loc::Board(sq) => if p.side == v.stm && v.hp[q] < g.types@[p.t as int].max_hp
            && spec_cheb(g, sq as int, from as int) <= range as int {
            seq![ab_move(from, sq, Effect::Heal(amount), NO_SQ)]
        } else {
            Seq::empty()
        },
        _ => Seq::empty(),
    }
}

/// Terrain-making ability with effect `e`: cell `sq`, when it is another,
/// unobstructed, bare cell within `range`.
pub open spec fn cell_effect_at(g: GameDef, v: PosView, from: u16, e: Effect, range: u8, sq: int) -> Seq<Move> {
    if sq != from as int && !cell_blocked(v, sq) && v.terrain[sq] == T_NONE
        && spec_cheb(g, sq, from as int) <= range as int {
        seq![ab_move(from, sq as u16, e, NO_SQ)]
    } else {
        Seq::empty()
    }
}

/// Hack: piece `q`, when it is a non-royal enemy on the board at exactly one
/// hit point within `range`.
pub open spec fn hack_at(g: GameDef, v: PosView, from: u16, range: u8, q: int) -> Seq<Move> {
    let p = v.pieces[q];
    match p.loc {
        Loc::Board(sq) => if p.side != v.stm && !g.types@[p.t as int].royal && spec_hp_gate_ok(1, 1, v.hp[q])
            && spec_cheb(g, sq as int, from as int) <= range as int {
            seq![ab_move(from, sq, Effect::Hack, NO_SQ)]
        } else {
            Seq::empty()
        },
        _ => Seq::empty(),
    }
}

/// Some dead piece of type `t` belongs to `side`.
pub open spec fn dead_has(v: PosView, side: Side, t: int) -> bool {
    exists|j: int| 0 <= j < v.pieces.len() && ({
        let p = #[trigger] v.pieces[j];
        p.side == side && p.t as int == t && p.loc == Loc::Dead
    })
}

/// Resurrect a piece of type `t2` onto cell `sq`, when unobstructed and
/// within `range`.
pub open spec fn rez_cell(g: GameDef, v: PosView, from: u16, range: u8, t2: int, sq: int) -> Seq<Move> {
    if !cell_blocked(v, sq) && spec_cheb(g, sq, from as int) <= range as int {
        seq![Move { from, to: sq as u16, kind: MoveKind::Ability, promo: None, drop_type: t2 as TypeId, aux: NO_SQ,
            effect: Effect::Resurrect }]
    } else {
        Seq::empty()
    }
}

pub open spec fn rez_cells(g: GameDef, v: PosView, from: u16, range: u8, t2: int, n: int) -> Seq<Move>
    decreases n,
{
    if n <= 0 {
        Seq::empty()
    } else {
        rez_cells(g, v, from, range, t2, n - 1) + rez_cell(g, v, from, range, t2, n - 1)
    }
}

/// Resurrect: type `t2`, when it is not royal and the side to move has a
/// dead piece of it, onto each cell in turn.
pub open spec fn rez_type(g: GameDef, v: PosView, from: u16, range: u8, t2: int) -> Seq<Move> {
    if !g.types@[t2].royal && dead_has(v, v.stm, t2) {
        rez_cells(g, v, from, range, t2, g.ncells() as int)
    } else {
        Seq::empty()
    }
}

/// The cell a laser caster retreats to along `-(dx,dy)`: `Some(NO_SQ)`
/// when the ability has no retreat; `None` when the retreat cell is off the
/// board, occupied or closed.
pub open spec fn laser_back(g: GameDef, v: PosView, from: u16, dx: int, dy: int, retreat: bool) -> Option<u16> {
    if retreat {
        match g.board.spec_offset(from as int, -dx, -dy) {
            Some(r) => if v.board[r as int] < 0 && !crate::attack::v_stops(v, v.terrain[r as int], false, false) {
                Some(r)
            } else {
                None
            },
            None => None,
        }
    } else {
        Some(NO_SQ)
    }
}

/// The laser moves along `(dx,dy)` from `cur` on, with at most `fuel` more
/// cells: a closed cell ends the beam, a target when it is an empty block;
/// an enemy is a target (with the retreat cell as aux) and ends the beam
/// unless it pierces; a friendly piece ends it unless it pierces; no
/// retreat cell ends the beam at the first enemy.
pub open spec fn laser_walk(g: GameDef, v: PosView, from: u16, back: Option<u16>, pierce: bool, dx: int, dy: int,
    cur: int, fuel: nat) -> Seq<Move>
    decreases fuel,
{
    if fuel == 0 {
        Seq::empty()
    } else {
        match g.board.spec_offset(cur, dx, dy) {
            None => Seq::empty(),
            Some(nsq) => if crate::attack::v_stops(v, v.terrain[nsq as int], false, false) {
                if crate::terrain_defs::spec_tiers(v.terrain[nsq as int]) > 0 && v.board[nsq as int] < 0 {
                    match back {
                        Some(aux) => seq![ab_move(from, nsq, Effect::Laser, aux)],
                        None => Seq::empty(),
                    }
                } else {
                    Seq::empty()
                }
            } else if v.board[nsq as int] >= 0 {
                if v.pieces[v.board[nsq as int] as int].side != v.stm {
                    match back {
                        Some(aux) => seq![ab_move(from, nsq, Effect::Laser, aux)] + (if pierce {
                            laser_walk(g, v, from, back, pierce, dx, dy, nsq as int, (fuel - 1) as nat)
                        } else {
                            Seq::empty()
                        }),
                        None => Seq::empty(),
                    }
                } else if pierce {
                    laser_walk(g, v, from, back, pierce, dx, dy, nsq as int, (fuel - 1) as nat)
                } else {
                    Seq::empty()
                }
            } else {
                laser_walk(g, v, from, back, pierce, dx, dy, nsq as int, (fuel - 1) as nat)
            },
        }
    }
}

/// Swap: piece `q`, when it is another friendly piece on the board within
/// `range`, and each of the two may stand on the other's cell.
pub open spec fn swap_at(g: GameDef, v: PosView, from: u16, t: TypeId, range: u8, q: int) -> Seq<Move> {
    let p = v.pieces[q];
    match p.loc {
        Loc::Board(sq) => if p.side == v.stm && sq != from && spec_cheb(g, sq as int, from as int) <= range as int
            && !crate::attack::v_stops(v, v.terrain[sq as int], g.types@[t as int].flight, g.types@[t as int].drill)
            && !crate::attack::v_stops(v, v.terrain[from as int], g.types@[p.t as int].flight, g.types@[p.t as int].drill) {
            seq![ab_move(from, sq, Effect::Swap, NO_SQ)]
        } else {
            Seq::empty()
        },
        _ => Seq::empty(),
    }
}

/// Push: piece `q`, when it is an enemy on the board within `range` whose
/// cell one step further from the caster is empty and open to it; that
/// cell is the aux.
pub open spec fn push_at(g: GameDef, v: PosView, from: u16, range: u8, q: int) -> Seq<Move> {
    let p = v.pieces[q];
    match p.loc {
        Loc::Board(sq) => if p.side != v.stm && spec_cheb(g, sq as int, from as int) <= range as int {
            match g.board.spec_offset(sq as int, sgn(g.board.spec_x(sq as int) - g.board.spec_x(from as int)),
                sgn(g.board.spec_y(sq as int) - g.board.spec_y(from as int))) {
                Some(dest) => if v.board[dest as int] < 0
                    && !crate::attack::v_stops(v, v.terrain[dest as int], g.types@[p.t as int].flight, g.types@[p.t as int].drill) {
                    seq![ab_move(from, sq, Effect::Push, dest)]
                } else {
                    Seq::empty()
                },
                None => Seq::empty(),
            }
        } else {
            Seq::empty()
        },
        _ => Seq::empty(),
    }
}

/// Cell `sq` is a legal target of custom row `row` cast from `from`.
pub open spec fn custom_ok(g: GameDef, v: PosView, row: crate::effects::CustomAbility, from: u16, sq: u16) -> bool {
    who_holds(g, v, row.who, from, sq)
        && forall|k: int| 0 <= k < row.preds@.len() ==> #[trigger] pred_holds(g, v, row.preds@[k], from, sq)
}

/// Custom point reach: cell `sq` within `range` that the row accepts.
pub open spec fn cpoint_at(g: GameDef, v: PosView, from: u16, ci: u16, row: crate::effects::CustomAbility, range: u8,
    sq: int) -> Seq<Move> {
    if spec_cheb(g, sq, from as int) <= range as int && custom_ok(g, v, row, from, sq as u16) {
        seq![ab_move(from, sq as u16, Effect::Custom(ci), NO_SQ)]
    } else {
        Seq::empty()
    }
}

/// Custom ray reach along `(dx,dy)` from `cur` on, with at most `fuel` more
/// cells: each accepted cell is a target; closed terrain ends the ray, and
/// so does an occupied cell unless it pierces.
pub open spec fn cray_walk(g: GameDef, v: PosView, from: u16, ci: u16, row: crate::effects::CustomAbility, pierce: bool,
    dx: int, dy: int, cur: int, fuel: nat) -> Seq<Move>
    decreases fuel,
{
    if fuel == 0 {
        Seq::empty()
    } else {
        match g.board.spec_offset(cur, dx, dy) {
            None => Seq::empty(),
            Some(nsq) => (if custom_ok(g, v, row, from, nsq) {
                seq![ab_move(from, nsq, Effect::Custom(ci), NO_SQ)]
            } else {
                Seq::empty()
            }) + (if crate::attack::v_stops(v, v.terrain[nsq as int], false, false) || (v.board[nsq as int] >= 0 && !pierce) {
                Seq::empty()
            } else {
                cray_walk(g, v, from, ci, row, pierce, dx, dy, nsq as int, (fuel - 1) as nat)
            }),
        }
    }
}

/// What ability `a` of a caster of type `t` on `from` yields at the `i`-th
/// step of its scan (a piece, a cell, a type or a direction, by ability).
pub open spec fn scan_at(g: GameDef, v: PosView, from: u16, t: TypeId, a: AbilityBit, i: int) -> Seq<Move> {
    match a {
        AbilityBit::Heal { amount, range } => heal_at(g, v, from, amount, range, i),
        AbilityBit::CreateWall { range } => cell_effect_at(g, v, from, Effect::Wall, range, i),
        AbilityBit::DigPit { range } => cell_effect_at(g, v, from, Effect::Pit, range, i),
        AbilityBit::MineLayer { range } => cell_effect_at(g, v, from, Effect::Mine, range, i),
        AbilityBit::Hack { range } => hack_at(g, v, from, range, i),
        AbilityBit::Resurrect { range } => rez_type(g, v, from, range, i),
        AbilityBit::Laser { range, retreat, pierce } => laser_walk(g, v, from,
            laser_back(g, v, from, spec_dir8(i).0 as int, spec_dir8(i).1 as int, retreat), pierce,
            spec_dir8(i).0 as int, spec_dir8(i).1 as int, from as int, range as nat),
        AbilityBit::Swap { range } => swap_at(g, v, from, t, range, i),
        AbilityBit::Push { range } => push_at(g, v, from, range, i),
        AbilityBit::Custom(ci) => if (ci as int) < g.custom_effects@.len() {
            let row = g.custom_effects@[ci as int];
            match row.reach {
                CustomReach::Point { range } => cpoint_at(g, v, from, ci, row, range, i),
                CustomReach::Ray { max, pierce } => cray_walk(g, v, from, ci, row, pierce,
                    spec_dir8(i).0 as int, spec_dir8(i).1 as int, from as int, max as nat),
            }
        } else {
            Seq::empty()
        },
    }
}

/// How many steps the scan of ability `a` takes.
pub open spec fn scan_len(g: GameDef, v: PosView, a: AbilityBit) -> int {
    match a {
        AbilityBit::Heal { .. } | AbilityBit::Hack { .. } | AbilityBit::Swap { .. } | AbilityBit::Push { .. } =>
            v.pieces.len() as int,
        AbilityBit::CreateWall { .. } | AbilityBit::DigPit { .. } | AbilityBit::MineLayer { .. } => g.ncells() as int,
        AbilityBit::Resurrect { .. } => g.types@.len() as int,
        AbilityBit::Laser { .. } => 8,
        AbilityBit::Custom(ci) => if (ci as int) < g.custom_effects@.len() {
            match g.custom_effects@[ci as int].reach {
                CustomReach::Point { .. } => g.ncells() as int,
                CustomReach::Ray { .. } => 8,
            }
        } else {
            0
        },
    }
}

pub open spec fn scan_upto(g: GameDef, v: PosView, from: u16, t: TypeId, a: AbilityBit, n: int) -> Seq<Move>
    decreases n,
{
    if n <= 0 {
        Seq::empty()
    } else {
        scan_upto(g, v, from, t, a, n - 1) + scan_at(g, v, from, t, a, n - 1)
    }
}

pub open spec fn ability_moves(g: GameDef, v: PosView, from: u16, t: TypeId, abs: Seq<AbilityBit>) -> Seq<Move>
    decreases abs.len(),
{
    if abs.len() == 0 {
        Seq::empty()
    } else {
        ability_moves(g, v, from, t, abs.drop_last())
            + scan_upto(g, v, from, t, abs.last(), scan_len(g, v, abs.last()))
    }
}

/// The ability moves of piece `i` on `from`: none under an enemy EMP aura;
/// else those of each ability of its type, in order.
pub open spec fn abilities_of(g: GameDef, v: PosView, i: int, from: u16) -> Seq<Move> {
    let t = v.pieces[i].t;
    if emp_suppressed(g, v, from) {
        Seq::empty()
    } else {
        ability_moves(g, v, from, t, g.types@[t as int].abilities@)
    }
}

/// Ability actions: one effect as the turn's single action. Inside an
/// enemy EMP emitter's radius no ability generates at all.
fn gen_abilities(g: &GameDef, pos: &Position, pi: usize, from: u16, out: &mut Vec<Move>)
    requires
        pos.wf(*g),
        pi < pos.pieces@.len(),
        pos.pieces@[pi as int].loc == Loc::Board(from),
        pos.pieces@[pi as int].side == pos.stm,
        all_anchored(*g, pos@, old(out)@),
    ensures
        all_anchored(*g, pos@, final(out)@),
        emp_suppressed(*g, pos@, from) ==> final(out)@ == old(out)@,
        final(out)@ == old(out)@ + abilities_of(*g, pos@, pi as int, from),
{
    let ghost start = out@;
    proof {
        crate::game::lemma_ncells_bound(g.board);
        assert(piece_ok(pos.pieces@[pi as int], *g));
        assert(crate::position::on_board_at(pos.pieces@[pi as int], pos@.board, pi as int));
        assert(from_ok(*g, pos@, from));
    }
    let stm = pos.stm;
    let t = pos.pieces[pi].t;
    let nc = g.board.ncells();
    // EMP aura: inside an enemy emitter's radius, ability Bits are dead.
    let mut ei: usize = 0;
    while ei < pos.pieces.len()
        invariant
            pos.wf(*g),
            (from as int) < g.ncells(),
            all_anchored(*g, pos@, out@),
            stm == pos.stm,
            ei <= pos.pieces@.len(),
            forall|k: int| 0 <= k < ei ==> !#[trigger] emits_over(*g, pos@, k, from),
            out@ == old(out)@,
        decreases pos.pieces@.len() - ei,
    {
        let e = pos.pieces[ei];
        proof { assert(piece_ok(pos.pieces@[ei as int], *g)); }
        ei += 1;
        if let Loc::Board(esq) = e.loc {
            let r = g.types[e.t as usize].emp_aura;
            if e.side != stm && r != 0 && cheb(g, esq, from) <= r as u16 {
                proof {
                    assert(emits_over(*g, pos@, ei - 1, from));
                    assert(out@ =~= out@ + abilities_of(*g, pos@, pi as int, from));
                }
                return;
            }
        }
    }
    assert(!emp_suppressed(*g, pos@, from));
    let abilities = &g.types[t as usize].abilities;
    let mut ai: usize = 0;
    assert(abilities@.subrange(0, 0) =~= Seq::<AbilityBit>::empty());
    assert(out@ =~= start + ability_moves(*g, pos@, from, t, abilities@.subrange(0, 0)));
    while ai < abilities.len()
        invariant
            pos.wf(*g),
            from_ok(*g, pos@, from),
            (t as int) < g.ntypes(),
            t == pos.pieces@[pi as int].t,
            *abilities == g.types@[t as int].abilities,
            stm == pos.stm,
            nc == g.ncells(),
            nc <= 65025,
            ai <= abilities@.len(),
            out@ == start + ability_moves(*g, pos@, from, t, abilities@.subrange(0, ai as int)),
            all_anchored(*g, pos@, out@),
            !emp_suppressed(*g, pos@, from),
        decreases abilities@.len() - ai,
    {
        let a = abilities[ai];
        ai += 1;
        let ghost mid = out@;
        proof {
            let pre = abilities@.subrange(0, ai as int);
            assert(pre.drop_last() =~= abilities@.subrange(0, ai - 1));
            assert(pre.last() == a);
        }
        match a {
            AbilityBit::Heal { amount, range } => {
                let mut qi: usize = 0;
                while qi < pos.pieces.len()
                    invariant
                        pos.wf(*g),
                        from_ok(*g, pos@, from),
                        stm == pos.stm,
                        a == (AbilityBit::Heal { amount, range }),
                        qi <= pos.pieces@.len(),
                        out@ == mid + scan_upto(*g, pos@, from, t, a, qi as int),
                        all_anchored(*g, pos@, out@),
                        !emp_suppressed(*g, pos@, from),
                    decreases pos.pieces@.len() - qi,
                {
                    let q = pos.pieces[qi];
                    proof { assert(piece_ok(pos.pieces@[qi as int], *g)); }
                    let ghost s0 = out@;
                    if let Loc::Board(sq) = q.loc {
                        if q.side == stm && pos.hp[qi] < g.types[q.t as usize].max_hp && cheb(g, sq, from) <= range as u16 {
                            push_anchored(g, pos, Move::ability(from, sq, Effect::Heal(amount), NO_SQ), out);
                        }
                    }
                    proof { assert(out@ =~= s0 + scan_at(*g, pos@, from, t, a, qi as int)); }
                    qi += 1;
                }
            },
            AbilityBit::CreateWall { range } | AbilityBit::DigPit { range } | AbilityBit::MineLayer { range } => {
                let eff = match a {
                    AbilityBit::CreateWall { .. } => Effect::Wall,
                    AbilityBit::DigPit { .. } => Effect::Pit,
                    _ => Effect::Mine,
                };
                let mut sq: u16 = 0;
                while (sq as usize) < nc
                    invariant
                        pos.wf(*g),
                        from_ok(*g, pos@, from),
                        nc == g.ncells(),
                        nc <= 65025,
                        a == (AbilityBit::CreateWall { range }) || a == (AbilityBit::DigPit { range })
                            || a == (AbilityBit::MineLayer { range }),
                        eff == (match a {
                            AbilityBit::CreateWall { .. } => Effect::Wall,
                            AbilityBit::DigPit { .. } => Effect::Pit,
                            _ => Effect::Mine,
                        }),
                        sq <= nc,
                        out@ == mid + scan_upto(*g, pos@, from, t, a, sq as int),
                        all_anchored(*g, pos@, out@),
                        !emp_suppressed(*g, pos@, from),
                    decreases nc - sq,
                {
                    let ghost s0 = out@;
                    if sq != from && !pos.cell_obstructed(sq) && pos.terrain[sq as usize] == T_NONE
                        && cheb(g, sq, from) <= range as u16 {
                        push_anchored(g, pos, Move::ability(from, sq, eff, NO_SQ), out);
                    }
                    proof { assert(out@ =~= s0 + scan_at(*g, pos@, from, t, a, sq as int)); }
                    sq += 1;
                }
            },
            AbilityBit::Hack { range } => {
                let mut qi: usize = 0;
                while qi < pos.pieces.len()
                    invariant
                        pos.wf(*g),
                        from_ok(*g, pos@, from),
                        stm == pos.stm,
                        a == (AbilityBit::Hack { range }),
                        qi <= pos.pieces@.len(),
                        out@ == mid + scan_upto(*g, pos@, from, t, a, qi as int),
                        all_anchored(*g, pos@, out@),
                        !emp_suppressed(*g, pos@, from),
                    decreases pos.pieces@.len() - qi,
                {
                    let q = pos.pieces[qi];
                    proof { assert(piece_ok(pos.pieces@[qi as int], *g)); }
                    let ghost s0 = out@;
                    if let Loc::Board(sq) = q.loc {
                        if q.side != stm && !g.types[q.t as usize].royal && hp_gate_ok(1, 1, pos.hp[qi])
                            && cheb(g, sq, from) <= range as u16 {
                            push_anchored(g, pos, Move::ability(from, sq, Effect::Hack, NO_SQ), out);
                        }
                    }
                    proof { assert(out@ =~= s0 + scan_at(*g, pos@, from, t, a, qi as int)); }
                    qi += 1;
                }
            },
            AbilityBit::Resurrect { range } => {
                let mut t2: usize = 0;
                while t2 < g.types.len()
                    invariant
                        pos.wf(*g),
                        from_ok(*g, pos@, from),
                        stm == pos.stm,
                        nc == g.ncells(),
                        nc <= 65025,
                        g.types@.len() < 256,
                        a == (AbilityBit::Resurrect { range }),
                        t2 <= g.types@.len(),
                        out@ == mid + scan_upto(*g, pos@, from, t, a, t2 as int),
                        all_anchored(*g, pos@, out@),
                        !emp_suppressed(*g, pos@, from),
                    decreases g.types@.len() - t2,
                {
                    let ghost s0 = out@;
                    if !g.types[t2].royal && pos.find_in_pool(crate::ops::Pool::Dead, stm, t2 as TypeId).is_some() {
                        proof { assert(dead_has(pos@, pos.stm, t2 as int)); }
                        let mut sq: u16 = 0;
                        while (sq as usize) < nc
                            invariant
                                pos.wf(*g),
                                from_ok(*g, pos@, from),
                                nc == g.ncells(),
                                nc <= 65025,
                                t2 < 256,
                                sq <= nc,
                                out@ == s0 + rez_cells(*g, pos@, from, range, t2 as int, sq as int),
                                all_anchored(*g, pos@, out@),
                                !emp_suppressed(*g, pos@, from),
                            decreases nc - sq,
                        {
                            let ghost s1 = out@;
                            if !pos.cell_obstructed(sq) && cheb(g, sq, from) <= range as u16 {
                                push_anchored(g, pos, Move::resurrect(from, sq, t2 as TypeId), out);
                            }
                            proof { assert(out@ =~= s1 + rez_cell(*g, pos@, from, range, t2 as int, sq as int)); }
                            sq += 1;
                        }
                    } else {
                        proof {
                            if !g.types@[t2 as int].royal {
                                assert(!dead_has(pos@, pos.stm, t2 as int));
                            }
                        }
                    }
                    proof { assert(out@ =~= s0 + scan_at(*g, pos@, from, t, a, t2 as int)); }
                    t2 += 1;
                }
            },
            AbilityBit::Laser { range, retreat, pierce } => {
                let mut di: usize = 0;
                while di < 8
                    invariant
                        pos.wf(*g),
                        from_ok(*g, pos@, from),
                        stm == pos.stm,
                        a == (AbilityBit::Laser { range, retreat, pierce }),
                        di <= 8,
                        out@ == mid + scan_upto(*g, pos@, from, t, a, di as int),
                        all_anchored(*g, pos@, out@),
                        !emp_suppressed(*g, pos@, from),
                    decreases 8 - di,
                {
                    let ghost s0 = out@;
                    let ghost d = di as int;
                    let (dx, dy) = dir8(di);
                    di += 1;
                    // The forced retreat square (when the nerf is coupled).
                    let back = if retreat {
                        match g.board.offset(from, -dx, -dy) {
                            Some(r) => if pos.board[r as usize] < 0 && pos.terrain_open(r) { Some(r) } else { None },
                            None => None,
                        }
                    } else {
                        Some(NO_SQ)
                    };
                    assert(back == laser_back(*g, pos@, from, dx as int, dy as int, retreat));
                    let ghost total = laser_walk(*g, pos@, from, back, pierce, dx as int, dy as int, from as int, range as nat);
                    let mut cur = from;
                    let mut n: u8 = 0;
                    while n < range
                        invariant_except_break
                            s0 + total == out@ + laser_walk(*g, pos@, from, back, pierce, dx as int, dy as int, cur as int,
                                (range - n) as nat),
                        invariant
                            pos.wf(*g),
                            from_ok(*g, pos@, from),
                            (cur as int) < g.ncells(),
                            stm == pos.stm,
                            n <= range,
                            all_anchored(*g, pos@, out@),
                            !emp_suppressed(*g, pos@, from),
                        ensures
                            out@ == s0 + total,
                        decreases range - n,
                    {
                        let ghost s1 = out@;
                        let ghost rest = laser_walk(*g, pos@, from, back, pierce, dx as int, dy as int, cur as int, (range - n) as nat);
                        n += 1;
                        let nsq = match g.board.offset(cur, dx, dy) {
                            Some(q) => q,
                            None => {
                                proof { assert(out@ =~= s0 + total); }
                                break;
                            },
                        };
                        let ghost tail = laser_walk(*g, pos@, from, back, pierce, dx as int, dy as int, nsq as int, (range - n) as nat);
                        if !pos.terrain_open(nsq) {
                            // A destructible block is blocking terrain the beam
                            // may target; the beam stops here, pierce or not.
                            if crate::terrain_defs::is_block(pos.terrain[nsq as usize]) && pos.board[nsq as usize] < 0 {
                                if let Some(aux) = back {
                                    push_anchored(g, pos, Move::ability(from, nsq, Effect::Laser, aux), out);
                                }
                            }
                            proof { assert(out@ =~= s1 + rest); assert(out@ =~= s0 + total); }
                            break;
                        }
                        let e = pos.board[nsq as usize];
                        if e >= 0 {
                            if pos.pieces[e as usize].side != stm {
                                match back {
                                    Some(aux) => {
                                        push_anchored(g, pos, Move::ability(from, nsq, Effect::Laser, aux), out);
                                    },
                                    None => {
                                        proof { assert(out@ =~= s1 + rest); assert(out@ =~= s0 + total); }
                                        break;
                                    },
                                }
                                if !pierce {
                                    proof { assert(out@ =~= s1 + rest); assert(out@ =~= s0 + total); }
                                    break;
                                }
                                proof { assert(s1 + rest =~= out@ + tail); }
                            } else {
                                if !pierce {
                                    proof { assert(out@ =~= s1 + rest); assert(out@ =~= s0 + total); }
                                    break;
                                }
                            }
                        }
                        cur = nsq;
                    }
                    proof { assert(out@ =~= s0 + scan_at(*g, pos@, from, t, a, d)); }
                }
            },
            AbilityBit::Swap { range } => {
                let cflies = g.types[t as usize].flight;
                let cdrills = g.types[t as usize].drill;
                let mut qi: usize = 0;
                while qi < pos.pieces.len()
                    invariant
                        pos.wf(*g),
                        from_ok(*g, pos@, from),
                        stm == pos.stm,
                        (t as int) < g.ntypes(),
                        cflies == g.types@[t as int].flight,
                        cdrills == g.types@[t as int].drill,
                        a == (AbilityBit::Swap { range }),
                        qi <= pos.pieces@.len(),
                        out@ == mid + scan_upto(*g, pos@, from, t, a, qi as int),
                        all_anchored(*g, pos@, out@),
                        !emp_suppressed(*g, pos@, from),
                    decreases pos.pieces@.len() - qi,
                {
                    let q = pos.pieces[qi];
                    proof { assert(piece_ok(pos.pieces@[qi as int], *g)); }
                    let ghost s0 = out@;
                    if let Loc::Board(sq) = q.loc {
                        if q.side == stm && sq != from && cheb(g, sq, from) <= range as u16 {
                            let pflies = g.types[q.t as usize].flight;
                            let pdrills = g.types[q.t as usize].drill;
                            if pos.terrain_open_for(sq, cflies, cdrills) && pos.terrain_open_for(from, pflies, pdrills) {
                                push_anchored(g, pos, Move::ability(from, sq, Effect::Swap, NO_SQ), out);
                            }
                        }
                    }
                    proof { assert(out@ =~= s0 + scan_at(*g, pos@, from, t, a, qi as int)); }
                    qi += 1;
                }
            },
            AbilityBit::Push { range } => {
                let (fx, fy) = g.board.xy(from);
                let mut qi: usize = 0;
                while qi < pos.pieces.len()
                    invariant
                        pos.wf(*g),
                        from_ok(*g, pos@, from),
                        stm == pos.stm,
                        0 <= fx < 256,
                        0 <= fy < 256,
                        fx == g.board.spec_x(from as int),
                        fy == g.board.spec_y(from as int),
                        a == (AbilityBit::Push { range }),
                        qi <= pos.pieces@.len(),
                        out@ == mid + scan_upto(*g, pos@, from, t, a, qi as int),
                        all_anchored(*g, pos@, out@),
                        !emp_suppressed(*g, pos@, from),
                    decreases pos.pieces@.len() - qi,
                {
                    let q = pos.pieces[qi];
                    proof { assert(piece_ok(pos.pieces@[qi as int], *g)); }
                    let ghost s0 = out@;
                    let ghost one = scan_at(*g, pos@, from, t, a, qi as int);
                    qi += 1;
                    if let Loc::Board(sq) = q.loc {
                        if q.side == stm || cheb(g, sq, from) > range as u16 {
                            proof { assert(out@ =~= s0 + one); }
                            continue;
                        }
                        let (x, y) = g.board.xy(sq);
                        let dx: i8 = if x > fx { 1 } else if x < fx { -1 } else { 0 };
                        let dy: i8 = if y > fy { 1 } else if y < fy { -1 } else { 0 };
                        proof {
                            assert(dx as int == sgn(g.board.spec_x(sq as int) - g.board.spec_x(from as int)));
                            assert(dy as int == sgn(g.board.spec_y(sq as int) - g.board.spec_y(from as int)));
                        }
                        let dest = match g.board.offset(sq, dx, dy) {
                            Some(d) => d,
                            None => {
                                proof { assert(out@ =~= s0 + one); }
                                continue;
                            },
                        };
                        let vflies = g.types[q.t as usize].flight;
                        let vdrills = g.types[q.t as usize].drill;
                        if pos.board[dest as usize] < 0 && pos.terrain_open_for(dest, vflies, vdrills) {
                            push_anchored(g, pos, Move::ability(from, sq, Effect::Push, dest), out);
                        }
                    }
                    proof { assert(out@ =~= s0 + one); }
                }
            },
            AbilityBit::Custom(ci) => {
                if (ci as usize) < g.custom_effects.len() {
                    let row = &g.custom_effects[ci as usize];
                    match row.reach {
                        CustomReach::Point { range } => {
                            let mut sq: u16 = 0;
                            while (sq as usize) < nc
                                invariant
                                    pos.wf(*g),
                                    from_ok(*g, pos@, from),
                                    nc == g.ncells(),
                                    nc <= 65025,
                                    a == AbilityBit::Custom(ci),
                                    (ci as int) < g.custom_effects@.len(),
                                    *row == g.custom_effects@[ci as int],
                                    row.reach == (CustomReach::Point { range }),
                                    sq <= nc,
                                    out@ == mid + scan_upto(*g, pos@, from, t, a, sq as int),
                                    all_anchored(*g, pos@, out@),
                                    !emp_suppressed(*g, pos@, from),
                                decreases nc - sq,
                            {
                                let ghost s0 = out@;
                                if cheb(g, sq, from) <= range as u16 && custom_target_ok(g, pos, row.who, &row.preds, from, sq) {
                                    push_anchored(g, pos, Move::ability(from, sq, Effect::Custom(ci), NO_SQ), out);
                                }
                                proof { assert(out@ =~= s0 + scan_at(*g, pos@, from, t, a, sq as int)); }
                                sq += 1;
                            }
                        },
                        CustomReach::Ray { max, pierce } => {
                            let mut di: usize = 0;
                            while di < 8
                                invariant
                                    pos.wf(*g),
                                    from_ok(*g, pos@, from),
                                    a == AbilityBit::Custom(ci),
                                    (ci as int) < g.custom_effects@.len(),
                                    *row == g.custom_effects@[ci as int],
                                    row.reach == (CustomReach::Ray { max, pierce }),
                                    di <= 8,
                                    out@ == mid + scan_upto(*g, pos@, from, t, a, di as int),
                                    all_anchored(*g, pos@, out@),
                                    !emp_suppressed(*g, pos@, from),
                                decreases 8 - di,
                            {
                                let ghost s0 = out@;
                                let ghost d = di as int;
                                let (dx, dy) = dir8(di);
                                di += 1;
                                let ghost total = cray_walk(*g, pos@, from, ci, *row, pierce, dx as int, dy as int, from as int, max as nat);
                                let mut cur = from;
                                let mut n: u8 = 0;
                                while n < max
                                    invariant_except_break
                                        s0 + total == out@ + cray_walk(*g, pos@, from, ci, *row, pierce, dx as int, dy as int,
                                            cur as int, (max - n) as nat),
                                    invariant
                                        pos.wf(*g),
                                        from_ok(*g, pos@, from),
                                        (cur as int) < g.ncells(),
                                        n <= max,
                                        all_anchored(*g, pos@, out@),
                                        !emp_suppressed(*g, pos@, from),
                                    ensures
                                        out@ == s0 + total,
                                    decreases max - n,
                                {
                                    let ghost s1 = out@;
                                    let ghost rest = cray_walk(*g, pos@, from, ci, *row, pierce, dx as int, dy as int, cur as int,
                                        (max - n) as nat);
                                    n += 1;
                                    let nsq = match g.board.offset(cur, dx, dy) {
                                        Some(q) => q,
                                        None => {
                                            proof { assert(out@ =~= s0 + total); }
                                            break;
                                        },
                                    };
                                    let ghost tail = cray_walk(*g, pos@, from, ci, *row, pierce, dx as int, dy as int, nsq as int,
                                        (max - n) as nat);
                                    let occupied = pos.board[nsq as usize] >= 0;
                                    let open = pos.terrain_open(nsq);
                                    if custom_target_ok(g, pos, row.who, &row.preds, from, nsq) {
                                        push_anchored(g, pos, Move::ability(from, nsq, Effect::Custom(ci), NO_SQ), out);
                                    }
                                    if !open || (occupied && !pierce) {
                                        proof { assert(out@ =~= s1 + rest); assert(out@ =~= s0 + total); }
                                        break;
                                    }
                                    proof { assert(s1 + rest =~= out@ + tail); }
                                    cur = nsq;
                                }
                                proof { assert(out@ =~= s0 + scan_at(*g, pos@, from, t, a, d)); }
                            }
                        },
                    }
                }
            },
        }
        proof {
            assert(out@ =~= mid + scan_upto(*g, pos@, from, t, a, scan_len(*g, pos@, a)));
        }
    }
    proof { assert(abilities@.subrange(0, abilities@.len() as int) =~= abilities@); }
}



/// Kernel-only pseudo moves (leaps and rides) of the piece standing on
/// `from`: no specials, abilities, drops, or nested compounds.
fn pseudo_kernel_moves_of(g: &GameDef, pos: &Position, from: u16) -> (out: Vec<Move>)
    requires
        pos.wf(*g),
        (from as int) < g.ncells(),
    ensures
        forall|j: int| 0 <= j < out@.len() ==> (#[trigger] out@[j]).from == from
            && (out@[j].to as int) < g.ncells() && out@[j].kind == MoveKind::Normal,
        out@ == plain_kernel_moves(*g, pos@, from),
{
    proof { crate::game::lemma_ncells_bound(g.board); }
    let mut out: Vec<Move> = Vec::new();
    let e = pos.board[from as usize];
    if e < 0 {
        return out;
    }
    let p = pos.pieces[e as usize];
    proof { assert(piece_ok(pos.pieces@[e as int], *g)); }
    let stm = pos.stm;
    if p.side != stm {
        return out;
    }
    let flies = g.types[p.t as usize].flight;
    let drills = g.types[p.t as usize].drill;
    let hp = pos.hp[e as usize];
    let ck = g.compiled(p.t, stm);
    let ghost i = e as int;
    let mut ki: usize = 0;
    while ki < ck.leaps.len()
        invariant
            pos.wf(*g),
            (from as int) < g.ncells(),
            stm == pos.stm,
            i == pos@.board[from as int],
            0 <= i < pos@.pieces.len(),
            p == pos@.pieces[i],
            p.side == stm,
            hp == pos@.hp[i],
            flies == g.types@[p.t as int].flight,
            drills == g.types@[p.t as int].drill,
            ki <= ck.leaps@.len(),
            out@ == plain_leap_moves(*g, pos@, i, from, ck.leaps@.subrange(0, ki as int)),
            forall|j: int| 0 <= j < out@.len() ==> (#[trigger] out@[j]).from == from
                && (out@[j].to as int) < g.ncells() && out@[j].kind == MoveKind::Normal,
        decreases ck.leaps@.len() - ki,
    {
        let k = &ck.leaps[ki];
        proof {
            assert(ck.leaps@.subrange(0, ki + 1).drop_last() =~= ck.leaps@.subrange(0, ki as int));
            assert(ck.leaps@.subrange(0, ki + 1).last() == *k);
        }
        ki += 1;
        if !hp_gate_ok(k.min_hp, k.max_hp, hp) || !g.zone_ok(k.from_zone, stm, from) {
            continue;
        }
        let to = match g.board.offset(from, k.d.dx, k.d.dy) {
            Some(t) => t,
            None => { continue; },
        };
        if !g.zone_ok(k.to_zone, stm, to) || !pos.terrain_open_for(to, flies, drills) {
            continue;
        }
        let mut blocked = false;
        let mut bi: usize = 0;
        while bi < k.blockers.len()
            invariant
                pos.wf(*g),
                (from as int) < g.ncells(),
                bi <= k.blockers@.len(),
                !blocked <==> forall|b: int| 0 <= b < bi ==> #[trigger] crate::attack::leg_clear(pos@, *g, from,
                    k.blockers@[b], flies, drills),
            decreases k.blockers@.len() - bi,
        {
            let b = k.blockers[bi];
            let clear = match g.board.offset(from, b.dx, b.dy) {
                Some(bsq) => !pos.cell_obstructed_for(bsq, flies, drills),
                None => false,
            };
            assert(clear == crate::attack::leg_clear(pos@, *g, from, k.blockers@[bi as int], flies, drills));
            if !clear {
                blocked = true;
            }
            bi += 1;
        }
        if blocked {
            continue;
        }
        let ok = match pos.piece_at(to) {
            None => k.mode.can_move(),
            Some(v) => v.side != stm && k.mode.can_capture(),
        };
        if ok {
            out.push(Move::normal(from, to));
        }
    }
    proof { assert(ck.leaps@.subrange(0, ck.leaps@.len() as int) =~= ck.leaps@); }
    let ghost leaps_out = out@;
    let mut ki: usize = 0;
    while ki < ck.rides.len()
        invariant
            pos.wf(*g),
            (from as int) < g.ncells(),
            stm == pos.stm,
            i == pos@.board[from as int],
            0 <= i < pos@.pieces.len(),
            p == pos@.pieces[i],
            p.side == stm,
            hp == pos@.hp[i],
            flies == g.types@[p.t as int].flight,
            drills == g.types@[p.t as int].drill,
            ki <= ck.rides@.len(),
            out@ == leaps_out + plain_ride_moves(*g, pos@, i, from, ck.rides@.subrange(0, ki as int)),
            forall|j: int| 0 <= j < out@.len() ==> (#[trigger] out@[j]).from == from
                && (out@[j].to as int) < g.ncells() && out@[j].kind == MoveKind::Normal,
        decreases ck.rides@.len() - ki,
    {
        let k = &ck.rides[ki];
        let ghost before = out@;
        proof {
            assert(ck.rides@.subrange(0, ki + 1).drop_last() =~= ck.rides@.subrange(0, ki as int));
            assert(ck.rides@.subrange(0, ki + 1).last() == *k);
        }
        ki += 1;
        if !hp_gate_ok(k.min_hp, k.max_hp, hp) || !g.zone_ok(k.from_zone, stm, from) {
            proof { assert(before + Seq::<Move>::empty() =~= before); }
            continue;
        }
        let mut cur = from;
        let mut steps: u16 = 0;
        while steps < 256
            invariant_except_break
                before + ride_walk(*g, pos@, i, from, *k, from as int, 0, 256)
                    == out@ + ride_walk(*g, pos@, i, from, *k, cur as int, steps as int, (256 - steps) as nat),
            invariant
                pos.wf(*g),
                (from as int) < g.ncells(),
                (cur as int) < g.ncells(),
                stm == pos.stm,
                steps <= 256,
                i == pos@.board[from as int],
                0 <= i < pos@.pieces.len(),
                p == pos@.pieces[i],
                p.side == stm,
                flies == g.types@[p.t as int].flight,
                drills == g.types@[p.t as int].drill,
                forall|j: int| 0 <= j < out@.len() ==> (#[trigger] out@[j]).from == from
                    && (out@[j].to as int) < g.ncells() && out@[j].kind == MoveKind::Normal,
            ensures
                out@ == before + ride_walk(*g, pos@, i, from, *k, from as int, 0, 256),
            decreases 256 - steps,
        {
            let ghost prev = out@;
            let to = match g.board.offset(cur, k.d.dx, k.d.dy) {
                Some(t) => t,
                None => {
                    proof { assert(prev + Seq::<Move>::empty() =~= prev); }
                    break;
                },
            };
            steps += 1;
            if k.max_steps != 0 && steps > k.max_steps as u16 {
                proof { assert(prev + Seq::<Move>::empty() =~= prev); }
                break;
            }
            if !g.zone_ok(k.to_zone, stm, to) || !pos.terrain_open_for(to, flies, drills) {
                proof { assert(prev + Seq::<Move>::empty() =~= prev); }
                break;
            }
            match pos.piece_at(to) {
                None => {
                    if k.mode.can_move() {
                        out.push(Move::normal(from, to));
                    }
                    proof {
                        let rest = ride_walk(*g, pos@, i, from, *k, to as int, steps as int, (256 - steps) as nat);
                        if k.mode.spec_can_move() {
                            assert(prev + (seq![Move::spec_normal(from, to)] + rest) =~= out@ + rest);
                        } else {
                            assert(prev + (Seq::<Move>::empty() + rest) =~= out@ + rest);
                        }
                    }
                    cur = to;
                },
                Some(v) => {
                    if v.side != stm && k.mode.can_capture() {
                        out.push(Move::normal(from, to));
                    }
                    proof {
                        if v.side != stm && k.mode.spec_can_capture() {
                            assert(prev + seq![Move::spec_normal(from, to)] =~= out@);
                        } else {
                            assert(prev + Seq::<Move>::empty() =~= out@);
                        }
                    }
                    break;
                },
            }
        }
        proof {
            assert(leaps_out + plain_ride_moves(*g, pos@, i, from, ck.rides@.subrange(0, ki as int))
                =~= before + ride_walk(*g, pos@, i, from, *k, from as int, 0, 256));
        }
    }
    proof { assert(ck.rides@.subrange(0, ck.rides@.len() as int) =~= ck.rides@); }
    out
}

/// The leap kernel `k` of piece `i` on `from` reaches `to` as a plain
/// move: gates pass, the target is on the board, in zone and passable,
/// the legs are clear, and the target is empty (for a kernel that may move)
/// or an enemy (for one that may capture).
pub open spec fn plain_leap_target(g: GameDef, v: PosView, i: int, from: u16, k: crate::game::LeapK) -> Option<u16> {
    let p = v.pieces[i];
    let ty = g.types@[p.t as int];
    if !spec_hp_gate_ok(k.min_hp, k.max_hp, v.hp[i]) || !g.spec_zone_ok(k.from_zone, v.stm, from) {
        None
    } else {
        match g.board.spec_offset(from as int, k.d.dx as int, k.d.dy as int) {
            None => None,
            Some(to) => if !g.spec_zone_ok(k.to_zone, v.stm, to)
                || crate::attack::v_stops(v, v.terrain[to as int], ty.flight, ty.drill)
                || !(forall|b: int| 0 <= b < k.blockers@.len() ==> #[trigger] crate::attack::leg_clear(v, g, from,
                    k.blockers@[b], ty.flight, ty.drill)) {
                None
            } else if (v.board[to as int] < 0 && k.mode.spec_can_move())
                || (v.board[to as int] >= 0 && v.pieces[v.board[to as int] as int].side != v.stm && k.mode.spec_can_capture()) {
                Some(to)
            } else {
                None
            },
        }
    }
}

/// The plain moves of the leap kernels `ks`, kernel by kernel.
pub open spec fn plain_leap_moves(g: GameDef, v: PosView, i: int, from: u16, ks: Seq<crate::game::LeapK>) -> Seq<Move>
    decreases ks.len(),
{
    if ks.len() == 0 {
        Seq::empty()
    } else {
        plain_leap_moves(g, v, i, from, ks.drop_last()) + match plain_leap_target(g, v, i, from, ks.last()) {
            Some(to) => seq![Move::spec_normal(from, to)],
            None => Seq::empty(),
        }
    }
}

/// The plain moves of ride kernel `k` from `cur` on, `steps` steps out,
/// with at most `fuel` more steps: each step onto a passable cell in zone
/// and in range; an empty cell is a move (for a kernel that may move) and
/// the ride goes on; an occupied one ends it, a capture if it holds an
/// enemy (for a kernel that may capture).
pub open spec fn ride_walk(g: GameDef, v: PosView, i: int, from: u16, k: crate::game::RideK, cur: int, steps: int,
    fuel: nat) -> Seq<Move>
    decreases fuel,
{
    let ty = g.types@[v.pieces[i].t as int];
    if fuel == 0 {
        Seq::empty()
    } else {
        match g.board.spec_offset(cur, k.d.dx as int, k.d.dy as int) {
            None => Seq::empty(),
            Some(to) => if (k.max_steps != 0 && steps + 1 > k.max_steps) || !g.spec_zone_ok(k.to_zone, v.stm, to)
                || crate::attack::v_stops(v, v.terrain[to as int], ty.flight, ty.drill) {
                Seq::empty()
            } else if v.board[to as int] < 0 {
                (if k.mode.spec_can_move() { seq![Move::spec_normal(from, to)] } else { Seq::empty() })
                    + ride_walk(g, v, i, from, k, to as int, steps + 1, (fuel - 1) as nat)
            } else if v.pieces[v.board[to as int] as int].side != v.stm && k.mode.spec_can_capture() {
                seq![Move::spec_normal(from, to)]
            } else {
                Seq::empty()
            },
        }
    }
}

/// The plain moves of the ride kernels `ks`, kernel by kernel.
pub open spec fn plain_ride_moves(g: GameDef, v: PosView, i: int, from: u16, ks: Seq<crate::game::RideK>) -> Seq<Move>
    decreases ks.len(),
{
    if ks.len() == 0 {
        Seq::empty()
    } else {
        let k = ks.last();
        plain_ride_moves(g, v, i, from, ks.drop_last()) + if spec_hp_gate_ok(k.min_hp, k.max_hp, v.hp[i])
            && g.spec_zone_ok(k.from_zone, v.stm, from) {
            ride_walk(g, v, i, from, k, from as int, 0, 256)
        } else {
            Seq::empty()
        }
    }
}

/// The plain kernel moves (leaps, then rides; no promotion variants, no
/// hoppers) of the piece of the side to move standing on `from`; none when
/// no such piece stands there.
pub open spec fn plain_kernel_moves(g: GameDef, v: PosView, from: u16) -> Seq<Move> {
    let i = v.board[from as int] as int;
    if v.board[from as int] < 0 || v.pieces[i].side != v.stm {
        Seq::empty()
    } else {
        let p = v.pieces[i];
        let ck = g.compiled@[(p.t as int) * g.sides + p.side];
        plain_leap_moves(g, v, i, from, ck.leaps@) + plain_ride_moves(g, v, i, from, ck.rides@)
    }
}

/// The plain kernel moves do not read the position's key.
pub proof fn lemma_plain_kernel_moves_keyless(g: GameDef, v: PosView, from: u16)
    ensures
        plain_kernel_moves(g, v, from) == plain_kernel_moves(g, v.plain(), from),
{
    let i = v.board[from as int] as int;
    if v.board[from as int] >= 0 && v.pieces[i].side == v.stm {
        let p = v.pieces[i];
        let ck = g.compiled@[(p.t as int) * g.sides + p.side];
        lemma_leap_moves_keyless(g, v, i, from, ck.leaps@);
        lemma_ride_moves_keyless(g, v, i, from, ck.rides@);
    }
}

proof fn lemma_leap_moves_keyless(g: GameDef, v: PosView, i: int, from: u16, ks: Seq<crate::game::LeapK>)
    ensures
        plain_leap_moves(g, v, i, from, ks) == plain_leap_moves(g, v.plain(), i, from, ks),
    decreases ks.len(),
{
    if ks.len() > 0 {
        lemma_leap_moves_keyless(g, v, i, from, ks.drop_last());
        let k = ks.last();
        let ty = g.types@[v.pieces[i].t as int];
        assert forall|b: int|
            #![trigger crate::attack::leg_clear(v, g, from, k.blockers@[b], ty.flight, ty.drill)]
            #![trigger crate::attack::leg_clear(v.plain(), g, from, k.blockers@[b], ty.flight, ty.drill)]
            0 <= b < k.blockers@.len() implies crate::attack::leg_clear(v, g, from, k.blockers@[b],
            ty.flight, ty.drill) == crate::attack::leg_clear(v.plain(), g, from, k.blockers@[b], ty.flight, ty.drill) by {}
        assert(plain_leap_target(g, v, i, from, k) == plain_leap_target(g, v.plain(), i, from, k));
    }
}

proof fn lemma_ride_walk_keyless(g: GameDef, v: PosView, i: int, from: u16, k: crate::game::RideK, cur: int, steps: int,
    fuel: nat)
    ensures
        ride_walk(g, v, i, from, k, cur, steps, fuel) == ride_walk(g, v.plain(), i, from, k, cur, steps, fuel),
    decreases fuel,
{
    if fuel > 0 {
        match g.board.spec_offset(cur, k.d.dx as int, k.d.dy as int) {
            Some(to) => lemma_ride_walk_keyless(g, v, i, from, k, to as int, steps + 1, (fuel - 1) as nat),
            None => {},
        }
    }
}

proof fn lemma_ride_moves_keyless(g: GameDef, v: PosView, i: int, from: u16, ks: Seq<crate::game::RideK>)
    ensures
        plain_ride_moves(g, v, i, from, ks) == plain_ride_moves(g, v.plain(), i, from, ks),
    decreases ks.len(),
{
    if ks.len() > 0 {
        lemma_ride_moves_keyless(g, v, i, from, ks.drop_last());
        lemma_ride_walk_keyless(g, v, i, from, ks.last(), from as int, 0, 256);
    }
}

impl Position {
    /// An independent copy of the position (same state, element by element).
    pub fn duplicate(&self) -> (r: Position)
        ensures
            r@ == self@,
    {
        let mut board: Vec<i32> = Vec::new();
        let mut k: usize = 0;
        while k < self.board.len()
            invariant
                k <= self.board@.len(),
                board@ == self.board@.subrange(0, k as int),
            decreases self.board@.len() - k,
        {
            board.push(self.board[k]);
            k += 1;
            assert(board@ =~= self.board@.subrange(0, k as int));
        }
        let mut pieces: Vec<Piece> = Vec::new();
        let mut hp: Vec<i16> = Vec::new();
        let mut k: usize = 0;
        while k < self.pieces.len()
            invariant
                k <= self.pieces@.len(),
                pieces@ == self.pieces@.subrange(0, k as int),
            decreases self.pieces@.len() - k,
        {
            pieces.push(self.pieces[k]);
            k += 1;
            assert(pieces@ =~= self.pieces@.subrange(0, k as int));
        }
        let mut k: usize = 0;
        while k < self.hp.len()
            invariant
                k <= self.hp@.len(),
                hp@ == self.hp@.subrange(0, k as int),
            decreases self.hp@.len() - k,
        {
            hp.push(self.hp[k]);
            k += 1;
            assert(hp@ =~= self.hp@.subrange(0, k as int));
        }
        let mut terrain: Vec<u8> = Vec::new();
        let mut k: usize = 0;
        while k < self.terrain.len()
            invariant
                k <= self.terrain@.len(),
                terrain@ == self.terrain@.subrange(0, k as int),
            decreases self.terrain@.len() - k,
        {
            terrain.push(self.terrain[k]);
            k += 1;
            assert(terrain@ =~= self.terrain@.subrange(0, k as int));
        }
        let mut hands: Vec<Vec<u8>> = Vec::new();
        let mut s: usize = 0;
        while s < self.hands.len()
            invariant
                s <= self.hands@.len(),
                hands@.len() == s,
                forall|j: int| 0 <= j < s ==> (#[trigger] hands@[j])@ == self.hands@[j]@,
            decreases self.hands@.len() - s,
        {
            let mut row: Vec<u8> = Vec::new();
            let mut t: usize = 0;
            while t < self.hands[s].len()
                invariant
                    s < self.hands@.len(),
                    t <= self.hands@[s as int]@.len(),
                    row@ == self.hands@[s as int]@.subrange(0, t as int),
                decreases self.hands@[s as int]@.len() - t,
            {
                row.push(self.hands[s][t]);
                t += 1;
                assert(row@ =~= self.hands@[s as int]@.subrange(0, t as int));
            }
            assert(row@ =~= self.hands@[s as int]@);
            hands.push(row);
            s += 1;
        }
        let mut cust: Vec<crate::terrain_defs::Blocks> = Vec::new();
        let mut k: usize = 0;
        while k < self.cust.len()
            invariant
                k <= self.cust@.len(),
                cust@ == self.cust@.subrange(0, k as int),
            decreases self.cust@.len() - k,
        {
            cust.push(self.cust[k]);
            k += 1;
            assert(cust@ =~= self.cust@.subrange(0, k as int));
        }
        assert(board@ =~= self.board@);
        assert(pieces@ =~= self.pieces@);
        assert(hp@ =~= self.hp@);
        assert(terrain@ =~= self.terrain@);
        assert(cust@ =~= self.cust@);
        let r = Position { board, pieces, hp, terrain, stm: self.stm, ep: self.ep, hands, hash: self.hash, cust };
        assert(r@.hands =~= self@.hands);
        assert(r@ =~= self@);
        r
    }
}

/// The compound moves from `from` through `mid`, one per second step in
/// `secs`, in order.
pub open spec fn compound_moves(from: u16, mid: u16, secs: Seq<Move>) -> Seq<Move>
    decreases secs.len(),
{
    if secs.len() == 0 {
        Seq::empty()
    } else {
        compound_moves(from, mid, secs.drop_last()).push(Move {
            from,
            to: mid,
            kind: MoveKind::Compound,
            promo: None,
            drop_type: 0,
            aux: secs.last().to,
            effect: Effect::Twice,
        })
    }
}

/// The overclock moves through first step `f` of the piece on `from`:
/// none when `f` lands on an occupied cell; else one per plain kernel move
/// from `f.to` in the position `f` leaves, with the same side to move.
pub open spec fn overclock_one(g: GameDef, v: PosView, from: u16, f: Move) -> Seq<Move> {
    if v.board[f.to as int] >= 0 {
        Seq::empty()
    } else {
        compound_moves(from, f.to, plain_kernel_moves(g, crate::position::spec_make(g, v, f).with_stm(v.stm), f.to))
    }
}

pub open spec fn overclock_moves(g: GameDef, v: PosView, from: u16, fs: Seq<Move>) -> Seq<Move>
    decreases fs.len(),
{
    if fs.len() == 0 {
        Seq::empty()
    } else {
        overclock_moves(g, v, from, fs.drop_last()) + overclock_one(g, v, from, fs.last())
    }
}

/// Overclock compound moves: enumerate ⟨move, move⟩ pairs by applying
/// step 1 — a quiet kernel move — on a scratch copy, then listing the same
/// piece's kernel moves from its landing square.
fn gen_overclock(g: &GameDef, pos: &Position, from: u16, out: &mut Vec<Move>)
    requires
        pos.wf(*g),
        from_ok(*g, pos@, from),
        all_anchored(*g, pos@, old(out)@),
    ensures
        all_anchored(*g, pos@, final(out)@),
        final(out)@ == old(out)@ + overclock_moves(*g, pos@, from, plain_kernel_moves(*g, pos@, from)),
{
    let ghost start = out@;
    let mut tmp = pos.duplicate();
    let all = pseudo_kernel_moves_of(g, &tmp, from);
    let mut fi: usize = 0;
    assert(out@ =~= start + overclock_moves(*g, pos@, from, all@.subrange(0, 0)));
    while fi < all.len()
        invariant
            tmp@ == pos@,
            all@ == plain_kernel_moves(*g, pos@, from),
            fi <= all@.len(),
            out@ == start + overclock_moves(*g, pos@, from, all@.subrange(0, fi as int)),
            pos.wf(*g),
            from_ok(*g, pos@, from),
            all_anchored(*g, pos@, out@),
            forall|j: int| 0 <= j < all@.len() ==> (#[trigger] all@[j]).from == from
                && (all@[j].to as int) < g.ncells() && all@[j].kind == MoveKind::Normal,
        decreases all@.len() - fi,
    {
        let f = all[fi];
        fi += 1;
        proof {
            let pre = all@.subrange(0, fi as int);
            assert(pre.drop_last() =~= all@.subrange(0, fi - 1));
            assert(pre.last() == f);
        }
        if tmp.board[f.to as usize] >= 0 {
            proof { assert(out@ =~= out@ + overclock_one(*g, pos@, from, f)); }
            continue;
        }
        let ghost before = tmp@;
        let u = tmp.make(g, &f);
        let ghost after = tmp@;
        let next = tmp.stm;
        tmp.set_stm(g, pos.stm);
        let seconds = pseudo_kernel_moves_of(g, &tmp, f.to);
        proof {
            crate::position::lemma_make_plain_stm(tmp@, after, pos.stm);
            lemma_plain_kernel_moves_keyless(*g, tmp@, f.to);
        }
        let ghost secs = plain_kernel_moves(*g, crate::position::spec_make(*g, pos@, f).with_stm(pos.stm), f.to);
        assert(seconds@ == secs);
        let ghost mid0 = out@;
        let mut si: usize = 0;
        assert(out@ =~= mid0 + compound_moves(from, f.to, seconds@.subrange(0, 0)));
        while si < seconds.len()
            invariant
                si <= seconds@.len(),
                out@ == mid0 + compound_moves(from, f.to, seconds@.subrange(0, si as int)),
                pos.wf(*g),
                from_ok(*g, pos@, from),
                (f.to as int) < g.ncells(),
                all_anchored(*g, pos@, out@),
                forall|j: int| 0 <= j < seconds@.len() ==> (#[trigger] seconds@[j]).from == f.to
                    && (seconds@[j].to as int) < g.ncells() && seconds@[j].kind == MoveKind::Normal,
            decreases seconds@.len() - si,
        {
            let sm = seconds[si];
            si += 1;
            proof {
                let pre = seconds@.subrange(0, si as int);
                assert(pre.drop_last() =~= seconds@.subrange(0, si - 1));
            }
            push_anchored(g, pos, Move::compound(from, f.to, sm.to), out);
        }
        proof {
            assert(seconds@.subrange(0, seconds@.len() as int) =~= seconds@);
            assert(out@ =~= mid0 + overclock_one(*g, pos@, from, f));
        }
        tmp.set_stm(g, next);
        let ghost mid = tmp@;
        assert(mid =~= after.with_hash(mid.hash));
        tmp.unmake(g, &u);
        proof {
            crate::position::lemma_make_unmake(*g, before, after, u);
            let x = after.with_stm(crate::position::prev_side(after.stm, g.sides));
            crate::ops::lemma_revert_all_hash(x, u.log(), mid.hash);
            assert(mid.with_stm(crate::position::prev_side(mid.stm, g.sides)) =~= x.with_hash(mid.hash));
            assert(crate::position::unmade(*g, mid, u) =~= crate::position::unmade(*g, after, u));
        }
    }
    proof { assert(all@.subrange(0, all@.len() as int) =~= all@); }
}


pub open spec fn spec_gcd(a: nat, b: nat) -> nat
    decreases b,
{
    if b == 0 { a } else { spec_gcd(b, a % b) }
}

/// `a / b` rounded toward zero, for `b > 0`.
pub open spec fn trunc_div(a: int, b: int) -> int {
    if a >= 0 { a / b } else { -((-a) / b) }
}

/// A ride kernel a piece skids along: it may move, in exactly this step.
pub open spec fn skid_ride(k: crate::game::RideK, sx: i8, sy: i8) -> bool {
    k.mode.spec_can_move() && k.d.dx == sx && k.d.dy == sy
}

/// Some ride kernel of `ck` skids along `(sx, sy)`.
pub open spec fn has_skid_ride(ck: crate::game::Compiled, sx: i8, sy: i8) -> bool {
    exists|j: int| 0 <= j < ck.rides@.len() && #[trigger] skid_ride(ck.rides@[j], sx, sy)
}

/// The end of a skid from `cur` for at most `fuel` steps: each step onto an
/// empty cell the mover may enter; the skid ends on the first such cell
/// that is not ice, or before a cell it may not enter.
pub open spec fn ice_run(g: GameDef, v: PosView, cur: int, sx: int, sy: int, flies: bool, drills: bool, fuel: nat) -> u16
    decreases fuel,
{
    if fuel == 0 {
        cur as u16
    } else {
        match g.board.spec_offset(cur, sx, sy) {
            None => cur as u16,
            Some(nx) => if v.board[nx as int] >= 0 || crate::attack::v_stops(v, v.terrain[nx as int], flies, drills) {
                cur as u16
            } else if v.terrain[nx as int] != T_ICE {
                nx
            } else {
                ice_run(g, v, nx as int, sx, sy, flies, drills, (fuel - 1) as nat)
            },
        }
    }
}

/// Where the ice rewrite sends a move: a quiet, unpromoted plain move onto
/// an empty ice cell, made in whole steps along one of the mover's ride
/// kernels that may move, skids on in that step (see `ice_run`); every
/// other move is kept.
pub open spec fn spec_slide(g: GameDef, v: PosView, mv: Move) -> Move {
    if mv.kind != MoveKind::Normal || mv.promo is Some || v.board[mv.to as int] >= 0 || v.terrain[mv.to as int] != T_ICE {
        mv
    } else {
        let mover = v.pieces[v.board[mv.from as int] as int];
        let dx = g.board.spec_x(mv.to as int) - g.board.spec_x(mv.from as int);
        let dy = g.board.spec_y(mv.to as int) - g.board.spec_y(mv.from as int);
        let gd = spec_gcd((if dx < 0 { -dx } else { dx }) as nat, (if dy < 0 { -dy } else { dy }) as nat);
        let sx = trunc_div(dx, gd as int);
        let sy = trunc_div(dy, gd as int);
        let ck = g.compiled@[(mover.t as int) * g.sides + mover.side];
        let ty = g.types@[mover.t as int];
        if gd == 0 || gd > 255 || sx < -128 || sx > 127 || sy < -128 || sy > 127 {
            mv
        } else if !has_skid_ride(ck, sx as i8, sy as i8) {
            mv
        } else {
            Move { to: ice_run(g, v, mv.to as int, sx, sy, ty.flight, ty.drill, 256), ..mv }
        }
    }
}

/// The end of a belt carry from `cur` for at most `fuel` carries: each
/// carry follows the belt under `cur` onto an empty cell the mover may
/// enter and has not yet visited.
pub open spec fn belt_run(g: GameDef, v: PosView, cur: int, visited: Seq<u16>, flies: bool, drills: bool, fuel: nat) -> u16
    decreases fuel,
{
    if fuel == 0 {
        cur as u16
    } else {
        match crate::terrain_defs::spec_carry(v.terrain[cur as int]) {
            crate::terrain_defs::Carry::Belt { dx, dy } => match g.board.spec_offset(cur, dx as int, dy as int) {
                None => cur as u16,
                Some(nx) => if v.board[nx as int] >= 0 || crate::attack::v_stops(v, v.terrain[nx as int], flies, drills)
                    || visited.contains(nx) {
                    cur as u16
                } else {
                    belt_run(g, v, nx as int, visited.push(nx), flies, drills, (fuel - 1) as nat)
                },
            },
            _ => cur as u16,
        }
    }
}

/// Where the belt rewrite sends a move: a quiet, unpromoted plain move onto
/// an empty cell rides the belts from there (see `belt_run`, at most eight
/// carries); every other move is kept.
pub open spec fn spec_carry(g: GameDef, v: PosView, mv: Move) -> Move {
    if mv.kind != MoveKind::Normal || mv.promo is Some || v.board[mv.to as int] >= 0 {
        mv
    } else {
        let ty = g.types@[v.pieces[v.board[mv.from as int] as int].t as int];
        Move { to: belt_run(g, v, mv.to as int, seq![mv.to], ty.flight, ty.drill, 8), ..mv }
    }
}

/// Greatest common divisor.
pub fn gcd(a: u32, b: u32) -> (r: u32)
    ensures
        r == spec_gcd(a as nat, b as nat),
    decreases b,
{
    if b == 0 {
        a
    } else {
        gcd(b, a % b)
    }
}

/// Ice slide: rewrite a quiet rider move that lands on ice to its slide-out
/// endpoint — the last ice cell before a blocker or the edge, or the first
/// open non-ice cell past the sheet. Only a piece riding in exactly the
/// entry direction skids.
fn slide_on_ice(g: &GameDef, pos: &Position, mv: Move) -> (r: Move)
    requires
        pos.wf(*g),
        anchored(*g, pos@, mv),
    ensures
        anchored(*g, pos@, r),
        r == (Move { to: r.to, ..mv }),
        mv.kind != MoveKind::Normal ==> r == mv,
        r == spec_slide(*g, pos@, mv),
{
    proof { crate::game::lemma_ncells_bound(g.board); }
    if mv.kind != MoveKind::Normal || mv.promo.is_some() {
        return mv;
    }
    if pos.board[mv.to as usize] >= 0 || pos.terrain[mv.to as usize] != T_ICE {
        return mv;
    }
    let mover = pos.pieces[pos.board[mv.from as usize] as usize];
    proof { assert(piece_ok(pos.pieces@[pos@.board[mv.from as int] as int], *g)); }
    let (fx, fy) = g.board.xy(mv.from);
    let (tx, ty) = g.board.xy(mv.to);
    let dx = (tx - fx) as i32;
    let dy = (ty - fy) as i32;
    let adx: u32 = if dx < 0 { (-dx) as u32 } else { dx as u32 };
    let ady: u32 = if dy < 0 { (-dy) as u32 } else { dy as u32 };
    let gd = gcd(adx, ady);
    if gd == 0 || gd > 255 {
        return mv;
    }
    let sx = dx / (gd as i32);
    let sy = dy / (gd as i32);
    assert(sx == trunc_div(dx as int, gd as int) && sy == trunc_div(dy as int, gd as int));
    if sx < -128 || sx > 127 || sy < -128 || sy > 127 {
        return mv;
    }
    let (sx, sy) = (sx as i8, sy as i8);
    let ck = g.compiled(mover.t, mover.side);
    let mut is_ride = false;
    let mut k: usize = 0;
    while k < ck.rides.len()
        invariant
            k <= ck.rides@.len(),
            is_ride == exists|j: int| 0 <= j < k && #[trigger] skid_ride(ck.rides@[j], sx, sy),
        decreases ck.rides@.len() - k,
    {
        let r = &ck.rides[k];
        if r.mode.can_move() && r.d.dx == sx && r.d.dy == sy {
            is_ride = true;
        }
        assert(is_ride == (exists|j: int| 0 <= j < k && #[trigger] skid_ride(ck.rides@[j], sx, sy))
            || skid_ride(ck.rides@[k as int], sx, sy));
        k += 1;
    }
    if !is_ride {
        return mv;
    }
    let flies = g.types[mover.t as usize].flight;
    let drills = g.types[mover.t as usize].drill;
    proof {
        let mover_s = pos@.pieces[pos@.board[mv.from as int] as int];
        assert(mover == mover_s);
        let dxs = g.board.spec_x(mv.to as int) - g.board.spec_x(mv.from as int);
        let dys = g.board.spec_y(mv.to as int) - g.board.spec_y(mv.from as int);
        assert(dx == dxs && dy == dys);
        let gds = spec_gcd((if dxs < 0 { -dxs } else { dxs }) as nat, (if dys < 0 { -dys } else { dys }) as nat);
        assert(gd == gds);
        assert(sx as int == trunc_div(dxs, gds as int) && sy as int == trunc_div(dys, gds as int));
        assert(*ck == g.compiled@[(mover_s.t as int) * g.sides + mover_s.side]);
        assert(mv.kind == MoveKind::Normal && mv.promo is None && pos@.board[mv.to as int] < 0
            && pos@.terrain[mv.to as int] == T_ICE);
        assert(!(gds == 0 || gds > 255));
        assert(-128 <= sx <= 127 && -128 <= sy <= 127);
        assert((trunc_div(dxs, gds as int) as i8) == sx && (trunc_div(dys, gds as int) as i8) == sy);
        assert(has_skid_ride(*ck, sx, sy));
        assert(flies == g.types@[mover_s.t as int].flight && drills == g.types@[mover_s.t as int].drill);
        assert(spec_slide(*g, pos@, mv).to == ice_run(*g, pos@, mv.to as int, sx as int, sy as int, flies, drills, 256));
    }
    let mut cur = mv.to;
    let mut n: u16 = 0;
    while n < 256
        invariant_except_break
            ice_run(*g, pos@, mv.to as int, sx as int, sy as int, flies, drills, 256)
                == ice_run(*g, pos@, cur as int, sx as int, sy as int, flies, drills, (256 - n) as nat),
        invariant
            pos.wf(*g),
            (cur as int) < g.ncells(),
            pos@.board[cur as int] < 0,
            n <= 256,
        ensures
            cur == ice_run(*g, pos@, mv.to as int, sx as int, sy as int, flies, drills, 256),
        decreases 256 - n,
    {
        n += 1;
        let next = match g.board.offset(cur, sx, sy) {
            Some(q) => q,
            None => { break; },
        };
        if pos.board[next as usize] >= 0 || !pos.terrain_open_for(next, flies, drills) {
            break;
        }
        cur = next;
        if pos.terrain[next as usize] != T_ICE {
            break;
        }
    }
    Move { to: cur, ..mv }
}

/// Conveyor carry: a quiet landing on a belt is carried one square in the
/// belt's direction when that square is open for the mover and empty,
/// chaining across consecutive belts — at most 8 carries, stopping where a
/// belt cycle closes. A blocked exit parks the piece on the belt.
fn carry_on_belt(g: &GameDef, pos: &Position, mv: Move) -> (r: Move)
    requires
        pos.wf(*g),
        anchored(*g, pos@, mv),
    ensures
        anchored(*g, pos@, r),
        r == (Move { to: r.to, ..mv }),
        mv.kind != MoveKind::Normal ==> r == mv,
        r == spec_carry(*g, pos@, mv),
{
    proof { crate::game::lemma_ncells_bound(g.board); }
    if mv.kind != MoveKind::Normal || mv.promo.is_some() {
        return mv;
    }
    if pos.board[mv.to as usize] >= 0 {
        return mv;
    }
    let mover = pos.pieces[pos.board[mv.from as usize] as usize];
    proof { assert(piece_ok(pos.pieces@[pos@.board[mv.from as int] as int], *g)); }
    let flies = g.types[mover.t as usize].flight;
    let drills = g.types[mover.t as usize].drill;
    let mut cur = mv.to;
    let mut visited: Vec<u16> = vec![cur];
    assert(visited@ =~= seq![mv.to]);
    let mut n: u8 = 0;
    while n < 8
        invariant_except_break
            belt_run(*g, pos@, mv.to as int, seq![mv.to], flies, drills, 8)
                == belt_run(*g, pos@, cur as int, visited@, flies, drills, (8 - n) as nat),
        invariant
            pos.wf(*g),
            (cur as int) < g.ncells(),
            pos@.board[cur as int] < 0,
            n <= 8,
        ensures
            cur == belt_run(*g, pos@, mv.to as int, seq![mv.to], flies, drills, 8),
        decreases 8 - n,
    {
        n += 1;
        let (dx, dy) = match crate::terrain_defs::conv_dir(pos.terrain[cur as usize]) {
            Some(d) => d,
            None => { break; },
        };
        let next = match g.board.offset(cur, dx, dy) {
            Some(q) => q,
            None => { break; },
        };
        if pos.board[next as usize] >= 0 || !pos.terrain_open_for(next, flies, drills) {
            break;
        }
        let mut seen = false;
        let mut k: usize = 0;
        while k < visited.len()
            invariant
                k <= visited@.len(),
                seen == exists|j: int| 0 <= j < k && visited@[j] == next,
            decreases visited@.len() - k,
        {
            if visited[k] == next {
                seen = true;
            }
            k += 1;
        }
        assert(seen == visited@.contains(next));
        if seen {
            break;
        }
        visited.push(next);
        cur = next;
    }
    Move { to: cur, ..mv }
}

fn contains_move(v: &Vec<Move>, m: Move) -> (r: bool)
    ensures
        r == v@.contains(m),
{
    let mut k: usize = 0;
    while k < v.len()
        invariant
            k <= v@.len(),
            forall|j: int| 0 <= j < k ==> v@[j] != m,
        decreases v@.len() - k,
    {
        if v[k] == m {
            return true;
        }
        k += 1;
    }
    false
}

/// A type that admits no drop (none in hand, or no drop row) has no drops.
proof fn lemma_no_drops_of_type(g: GameDef, v: PosView, t: int, n: int)
    requires
        forall|q: int| !#[trigger] drop_admitted(g, v, t, q),
    ensures
        drops_of_type(g, v, t, n) == Seq::<Move>::empty(),
    decreases n,
{
    if n > 0 {
        lemma_no_drops_of_type(g, v, t, n - 1);
        assert(!drop_admitted(g, v, t, n - 1));
        assert(drops_of_type(g, v, t, n) =~= Seq::<Move>::empty());
    }
}

/// Drops from the hand: onto an empty, unobstructed square the type could
/// act from, honoring the drop row's *nifu* gate (no second unpromoted
/// piece of the type on the file).
fn gen_drops(g: &GameDef, pos: &Position, out: &mut Vec<Move>)
    requires
        pos.wf(*g),
        all_anchored(*g, pos@, old(out)@),
    ensures
        all_anchored(*g, pos@, final(out)@),
        has_all_drops(*g, pos@, final(out)@),
        forall|m: Move| old(out)@.contains(m) ==> #[trigger] final(out)@.contains(m),
        final(out)@ == old(out)@ + drops_upto(*g, pos@, g.types@.len() as int),
{
    let ghost start = out@;
    proof { crate::game::lemma_ncells_bound(g.board); }
    assert(out@ =~= start + drops_upto(*g, pos@, 0));
    let stm = pos.stm;
    let nc = g.board.ncells();
    let mut t: usize = 0;
    while t < g.types.len()
        invariant
            pos.wf(*g),
            stm == pos.stm,
            nc == g.ncells(),
            nc <= 65025,
            g.types@.len() < 256,
            all_anchored(*g, pos@, out@),
            t <= g.types@.len(),
            forall|m: Move| start.contains(m) ==> #[trigger] out@.contains(m),
            forall|t2: int, q: int| #[trigger] drop_admitted(*g, pos@, t2, q) && t2 < t ==> out@.contains(drop_move(t2, q)),
            out@ == start + drops_upto(*g, pos@, t as int),
        decreases g.types@.len() - t,
    {
        assert(pos@.hands[stm as int] == pos.hands@[stm as int]@);
        assert(pos@.hands[stm as int].len() == g.ntypes());
        if pos.hands[stm as usize][t] == 0 {
            proof {
                lemma_no_drops_of_type(*g, pos@, t as int, g.ncells() as int);
                assert(out@ =~= start + drops_upto(*g, pos@, t + 1));
            }
            t += 1;
            continue;
        }
        let ghost before_t = out@;
        let ck = g.compiled(t as TypeId, stm);
        let no_dup = match &ck.drop {
            Some(dr) => dr.no_dup_file,
            None => {
                proof {
                    crate::game::lemma_compiled_index(*g, t as int, stm);
                    lemma_no_drops_of_type(*g, pos@, t as int, g.ncells() as int);
                    assert(out@ =~= start + drops_upto(*g, pos@, t + 1));
                }
                t += 1;
                continue;
            },
        };
        assert(*ck == g.compiled@[t * g.sides + pos@.stm]);
        let mut sq: u16 = 0;
        while (sq as usize) < nc
            invariant
                pos.wf(*g),
                ck.wf(g.ncells()),
                stm == pos.stm,
                nc == g.ncells(),
                nc <= 65025,
                t < g.ntypes(),
                t < 256,
                pos@.hands[stm as int][t as int] > 0,
                all_anchored(*g, pos@, out@),
                *ck == g.compiled@[t * g.sides + pos@.stm],
                ck.drop matches Some(dr) && dr.no_dup_file == no_dup,
                sq <= nc,
                forall|m: Move| start.contains(m) ==> #[trigger] out@.contains(m),
                forall|m: Move| before_t.contains(m) ==> #[trigger] out@.contains(m),
                forall|t2: int, q: int| #[trigger] drop_admitted(*g, pos@, t2, q) && t2 < t ==> before_t.contains(drop_move(t2, q)),
                forall|q: int| #[trigger] drop_admitted(*g, pos@, t as int, q) && q < sq ==> out@.contains(drop_move(t as int, q)),
                out@ == before_t + drops_of_type(*g, pos@, t as int, sq as int),
                before_t == start + drops_upto(*g, pos@, t as int),
            decreases nc - sq,
        {
            proof { assert(pos.cust@ == pos@.cust); }
            if !pos.cell_obstructed(sq) && ck.can_act_from[sq as usize] {
                let mut dup = false;
                let (x, _y) = g.board.xy(sq);
                if no_dup {
                    let mut y: u8 = 0;
                    while y < g.board.h
                        invariant
                            pos.wf(*g),
                            0 <= x < g.board.w,
                            stm == pos.stm,
                            y <= g.board.h,
                            dup == exists|y2: int| 0 <= y2 < y && #[trigger] own_type_at(pos@, t as int, g.board.spec_sq(x as int, y2)),
                        decreases g.board.h - y,
                    {
                        proof { crate::game::lemma_sq_in_board(g.board, x as int, y as int); }
                        let here = g.board.sq(x as u8, y);
                        match pos.piece_at(here) {
                            Some(v) => {
                                if v.side == stm && v.t as usize == t {
                                    dup = true;
                                }
                            },
                            None => {},
                        }
                        assert(dup == (exists|y2: int| 0 <= y2 < y && #[trigger] own_type_at(pos@, t as int, g.board.spec_sq(x as int, y2)))
                            || own_type_at(pos@, t as int, g.board.spec_sq(x as int, y as int)));
                        y += 1;
                    }
                    assert(dup == own_on_file(*g, pos@, t as int, x as int));
                }
                if !dup {
                    assert(drop_ok(*g, pos@, t as int, sq as int));
                    let ghost prev = out@;
                    let dm = Move::drop(t as TypeId, sq);
                    push_anchored(g, pos, dm, out);
                    proof {
                        lemma_push_keeps(prev, dm);
                        assert(out@[prev.len() as int] == drop_move(t as int, sq as int));
                        assert(out@.contains(drop_move(t as int, sq as int)));
                    }
                } else {
                    assert(!drop_ok(*g, pos@, t as int, sq as int));
                }
            } else {
                assert(!drop_ok(*g, pos@, t as int, sq as int));
            }
            proof { assert(drop_admitted(*g, pos@, t as int, sq as int) == drop_ok(*g, pos@, t as int, sq as int)); }
            sq += 1;
        }
        proof { assert(out@ =~= start + drops_upto(*g, pos@, t + 1)); }
        t += 1;
    }
}

/// The drops of type `t` onto the first `n` cells, cell by cell.
pub open spec fn drops_of_type(g: GameDef, v: PosView, t: int, n: int) -> Seq<Move>
    decreases n,
{
    if n <= 0 {
        Seq::empty()
    } else {
        drops_of_type(g, v, t, n - 1) + if drop_admitted(g, v, t, n - 1) { seq![drop_move(t, n - 1)] } else { Seq::empty() }
    }
}

/// The drops of the first `n` types, type by type.
pub open spec fn drops_upto(g: GameDef, v: PosView, n: int) -> Seq<Move>
    decreases n,
{
    if n <= 0 {
        Seq::empty()
    } else {
        drops_upto(g, v, n - 1) + drops_of_type(g, v, n - 1, g.ncells() as int)
    }
}

/// The overclock moves of piece `i` on `from`, when its type has an
/// overclock row whose origin gates pass.
pub open spec fn overclock_of(g: GameDef, v: PosView, i: int, from: u16) -> Seq<Move> {
    let p = v.pieces[i];
    match g.compiled@[(p.t as int) * g.sides + p.side].overclock {
        Some(oc) => if oc.gates.spec_pass(g, v, from, p.moved, v.hp[i]) {
            overclock_moves(g, v, from, plain_kernel_moves(g, v, from))
        } else {
            Seq::empty()
        },
        None => Seq::empty(),
    }
}

/// The moves generated for piece `i`: for a piece of the side to move on
/// the board, its kernel moves, abilities, overclock moves and specials.
pub open spec fn piece_moves(g: GameDef, v: PosView, i: int) -> Seq<Move> {
    let p = v.pieces[i];
    match p.loc {
        Loc::Board(from) => if p.side == v.stm {
            kernel_moves(g, v, i, from) + abilities_of(g, v, i, from) + overclock_of(g, v, i, from)
                + specials_of(g, v, i, from, v.hp[i])
        } else {
            Seq::empty()
        },
        _ => Seq::empty(),
    }
}

pub open spec fn pieces_moves(g: GameDef, v: PosView, n: int) -> Seq<Move>
    decreases n,
{
    if n <= 0 {
        Seq::empty()
    } else {
        pieces_moves(g, v, n - 1) + piece_moves(g, v, n - 1)
    }
}

/// Some cell of the first `n` holds ice.
pub open spec fn has_ice(v: PosView, n: int) -> bool {
    exists|k: int| 0 <= k < n && v.terrain[k] == T_ICE
}

/// Some cell of the first `n` holds a conveyor belt.
pub open spec fn has_belt(v: PosView, n: int) -> bool {
    exists|k: int| 0 <= k < n && crate::terrain_defs::spec_carry(v.terrain[k]) is Belt
}

/// A move after the ice and belt rewrites that apply.
pub open spec fn rewritten(g: GameDef, v: PosView, m: Move, ice: bool, belt: bool) -> Move {
    let m1 = if ice { spec_slide(g, v, m) } else { m };
    if belt { spec_carry(g, v, m1) } else { m1 }
}

/// The first `n` moves of `s` rewritten, keeping the first of any
/// duplicates.
pub open spec fn rewrite_all(g: GameDef, v: PosView, s: Seq<Move>, ice: bool, belt: bool, n: int) -> Seq<Move>
    decreases n,
{
    if n <= 0 {
        Seq::empty()
    } else {
        let k = rewrite_all(g, v, s, ice, belt, n - 1);
        let m = rewritten(g, v, s[n - 1], ice, belt);
        if k.contains(m) { k } else { k.push(m) }
    }
}

/// A move survives the hologram rule: drops and moves of non-holograms
/// always; a hologram's only as a quiet normal step onto an empty cell.
pub open spec fn keeps_hologram_rule(g: GameDef, v: PosView, m: Move) -> bool {
    m.kind == MoveKind::Drop || m.from == NO_SQ || !g.types@[v.pieces[v.board[m.from as int] as int].t as int].hologram
        || (m.kind == MoveKind::Normal && v.board[m.to as int] < 0)
}

pub open spec fn hologram_filter(g: GameDef, v: PosView, s: Seq<Move>, n: int) -> Seq<Move>
    decreases n,
{
    if n <= 0 {
        Seq::empty()
    } else {
        hologram_filter(g, v, s, n - 1) + if keeps_hologram_rule(g, v, s[n - 1]) { seq![s[n - 1]] } else { Seq::empty() }
    }
}

/// The pseudo-legal moves of the side to move, in generation order: every
/// piece's moves, then the drops; then the ice and belt rewrites (when the
/// board has any), then the hologram rule.
pub open spec fn spec_pseudo_moves(g: GameDef, v: PosView) -> Seq<Move> {
    let raw = pieces_moves(g, v, v.pieces.len() as int) + drops_upto(g, v, g.types@.len() as int);
    let ice = has_ice(v, v.terrain.len() as int);
    let belt = has_belt(v, v.terrain.len() as int);
    let s = if ice || belt { rewrite_all(g, v, raw, ice, belt, raw.len() as int) } else { raw };
    hologram_filter(g, v, s, s.len() as int)
}

/// All pseudo-legal moves of the side to move: kernels, abilities,
/// overclock compounds and specials of every piece on the board, then
/// drops; then the ice and belt destination rewrites (keeping the first of
/// any duplicates), and holograms restricted to quiet kernel steps.
pub fn pseudo_moves(g: &GameDef, pos: &Position) -> (out: Vec<Move>)
    requires
        pos.wf(*g),
    ensures
        all_anchored(*g, pos@, out@),
        forall|j: int| 0 <= j < out@.len() ==> #[trigger] hologram_quiet(*g, pos@, out@[j]),
        forall|j: int| 0 <= j < out@.len() ==> #[trigger] capture_seen(*g, pos@, out@[j]),
        has_all_drops(*g, pos@, out@),
        out@ == spec_pseudo_moves(*g, pos@),
        forall|j: int| 0 <= j < out@.len() ==> #[trigger] nifu_respected(*g, pos@, out@[j]),
        forall|t: int, sq: int| #[trigger] drop_allowed(*g, pos@, t, sq) ==> out@.contains(drop_move(t, sq)),
{
    proof { crate::game::lemma_ncells_bound(g.board); }
    let stm = pos.stm;
    let mut out: Vec<Move> = Vec::new();
    let mut pi: usize = 0;
    assert(out@ =~= pieces_moves(*g, pos@, 0));
    while pi < pos.pieces.len()
        invariant
            pos.wf(*g),
            stm == pos.stm,
            all_anchored(*g, pos@, out@),
            pi <= pos.pieces@.len(),
            out@ == pieces_moves(*g, pos@, pi as int),
        decreases pos.pieces@.len() - pi,
    {
        let p = pos.pieces[pi];
        proof {
            assert(piece_ok(pos.pieces@[pi as int], *g));
            assert(crate::position::on_board_at(pos.pieces@[pi as int], pos@.board, pi as int));
        }
        let ghost s0 = out@;
        if let Loc::Board(from) = p.loc {
            if p.side == stm {
                gen_kernels(g, pos, pi, from, &mut out);
                gen_abilities(g, pos, pi, from, &mut out);
                let ck = g.compiled(p.t, stm);
                let ghost s2 = out@;
                match &ck.overclock {
                    Some(oc) => {
                        if oc.gates.pass(g, pos, from, p.moved, pos.hp[pi]) {
                            gen_overclock(g, pos, from, &mut out);
                        }
                    },
                    None => {},
                }
                assert(out@ == s2 + overclock_of(*g, pos@, pi as int, from));
                gen_specials(g, pos, pi, from, pos.hp[pi], &mut out);
                proof {
                    assert(out@ =~= s0 + piece_moves(*g, pos@, pi as int));
                }
            } else {
                proof { assert(out@ =~= s0 + piece_moves(*g, pos@, pi as int)); }
            }
        } else {
            proof { assert(out@ =~= s0 + piece_moves(*g, pos@, pi as int)); }
        }
        pi += 1;
    }
    let ghost raw0 = out@;
    gen_drops(g, pos, &mut out);
    let ghost all_drops = out@;
    assert(all_drops == pieces_moves(*g, pos@, pos@.pieces.len() as int) + drops_upto(*g, pos@, g.types@.len() as int));
    let mut any_ice = false;
    let mut any_belt = false;
    let mut k: usize = 0;
    while k < pos.terrain.len()
        invariant
            k <= pos.terrain@.len(),
            any_ice == has_ice(pos@, k as int),
            any_belt == has_belt(pos@, k as int),
        decreases pos.terrain@.len() - k,
    {
        let t = pos.terrain[k];
        if t == T_ICE {
            any_ice = true;
        }
        if crate::terrain_defs::conv_dir(t).is_some() {
            any_belt = true;
        }
        proof {
            if t == T_ICE { assert(pos@.terrain[k as int] == T_ICE); }
            assert(has_ice(pos@, k + 1) == (has_ice(pos@, k as int) || pos@.terrain[k as int] == T_ICE));
            assert(has_belt(pos@, k + 1) == (has_belt(pos@, k as int)
                || crate::terrain_defs::spec_carry(pos@.terrain[k as int]) is Belt));
        }
        k += 1;
    }
    let ghost before_rw = out@;
    if any_ice || any_belt {
        let mut kept: Vec<Move> = Vec::new();
        let mut k: usize = 0;
        while k < out.len()
            invariant
                pos.wf(*g),
                all_anchored(*g, pos@, out@),
                all_anchored(*g, pos@, kept@),
                out@ == all_drops,
                has_all_drops(*g, pos@, out@),
                k <= out@.len(),
                forall|j: int| 0 <= j < k && out@[j].kind == MoveKind::Drop ==> kept@.contains(#[trigger] out@[j]),
                kept@ == rewrite_all(*g, pos@, all_drops, any_ice, any_belt, k as int),
            decreases out@.len() - k,
        {
            let mut m = out[k];
            let ghost m0 = m;
            let ghost prev = kept@;
            if any_ice {
                m = slide_on_ice(g, pos, m);
            }
            if any_belt {
                m = carry_on_belt(g, pos, m);
            }
            if !contains_move(&kept, m) {
                push_anchored(g, pos, m, &mut kept);
                proof {
                    lemma_push_keeps(prev, m);
                    assert(kept@[prev.len() as int] == m);
                }
            }
            proof {
                if m0.kind == MoveKind::Drop {
                    assert(m == m0);
                    assert(kept@.contains(m0));
                }
                assert(m == rewritten(*g, pos@, all_drops[k as int], any_ice, any_belt));
            }
            k += 1;
        }
        proof {
            assert forall|t: int, sq: int| #[trigger] drop_admitted(*g, pos@, t, sq) implies kept@.contains(drop_move(t, sq)) by {
                assert(out@.contains(drop_move(t, sq)));
                let j = choose|j: int| 0 <= j < out@.len() && out@[j] == drop_move(t, sq);
                assert(out@[j].kind == MoveKind::Drop);
            }
        }
        out = kept;
    }
    let ghost mid = out@;
    assert(mid == (if any_ice || any_belt { rewrite_all(*g, pos@, all_drops, any_ice, any_belt, all_drops.len() as int) }
        else { all_drops }));
    // Holograms move but never threaten: keep only their quiet kernel steps.
    let mut kept: Vec<Move> = Vec::new();
    let mut k: usize = 0;
    while k < out.len()
        invariant
            out@ == mid,
            kept@ == hologram_filter(*g, pos@, mid, k as int),
            pos.wf(*g),
            all_anchored(*g, pos@, out@),
            all_anchored(*g, pos@, kept@),
            forall|j: int| 0 <= j < kept@.len() ==> #[trigger] hologram_quiet(*g, pos@, kept@[j]),
            has_all_drops(*g, pos@, out@),
            k <= out@.len(),
            forall|j: int| 0 <= j < k && out@[j].kind == MoveKind::Drop ==> kept@.contains(#[trigger] out@[j]),
        decreases out@.len() - k,
    {
        let m = out[k];
        let ghost prev = kept@;
        k += 1;
        assert(anchored(*g, pos@, out@[k - 1]));
        let keep = if m.kind == MoveKind::Drop || m.from == NO_SQ {
            true
        } else {
            let e = pos.board[m.from as usize];
            proof { assert(piece_ok(pos.pieces@[e as int], *g)); }
            let q = pos.pieces[e as usize];
            !g.types[q.t as usize].hologram || (m.kind == MoveKind::Normal && pos.board[m.to as usize] < 0)
        };
        assert(keep ==> hologram_quiet(*g, pos@, m));
        if keep {
            push_anchored(g, pos, m, &mut kept);
            proof {
                lemma_push_keeps(prev, m);
                assert(kept@[prev.len() as int] == m);
            }
        }
    }
    proof {
        assert forall|t: int, sq: int| #[trigger] drop_admitted(*g, pos@, t, sq) implies kept@.contains(drop_move(t, sq)) by {
            assert(out@.contains(drop_move(t, sq)));
            let j = choose|j: int| 0 <= j < out@.len() && out@[j] == drop_move(t, sq);
            assert(out@[j].kind == MoveKind::Drop);
        }
        assert forall|j: int| 0 <= j < kept@.len() implies #[trigger] capture_seen(*g, pos@, kept@[j]) by {
            assert(anchored(*g, pos@, kept@[j]));
            assert(hologram_quiet(*g, pos@, kept@[j]));
            lemma_capture_seen(*g, pos@, kept@[j]);
        }
        assert forall|t: int, sq: int| #[trigger] drop_allowed(*g, pos@, t, sq) implies kept@.contains(drop_move(t, sq)) by {
            lemma_drop_allowed_admitted(*g, pos@, t, sq);
        }
        assert forall|j: int| 0 <= j < kept@.len() implies #[trigger] nifu_respected(*g, pos@, kept@[j]) by {
            assert(anchored(*g, pos@, kept@[j]));
            lemma_anchored_nifu(*g, pos@, kept@[j]);
        }
    }
    kept
}

/// How many drop-mate checks the legality test may nest. The recursion
/// spends a stack frame per level, so no run reaches this bound.
pub const LOOKAHEAD: u64 = 0xffff_ffff_ffff_ffff;

/// A drop of a type under the drop-mate rule (*uchifuzume*).
pub open spec fn drop_gated(g: GameDef, mv: Move) -> bool {
    &&& mv.kind == MoveKind::Drop
    &&& (mv.drop_type as int) < g.types@.len()
    &&& g.types@[mv.drop_type as int].drop_no_mate
}

/// Legality of `mv` in `v` with at most `fuel` nested drop-mate checks,
/// each check run in generation order and stopping at the first legal
/// reply: `None` when the budget ran out before the answer was known.
/// After the move the mover's royals must stand unattacked; a drop under
/// the drop-mate rule that attacks the next side's royal is legal only if
/// that side has a legal reply.
pub open spec fn spec_legal_fuel(g: GameDef, v: PosView, mv: Move, fuel: nat) -> Option<bool>
    decreases fuel, 0nat, 0nat,
{
    let a = crate::position::spec_made(g, v, mv);
    if crate::attack::v_royal_attacked(a, g, v.stm) {
        Some(false)
    } else if drop_gated(g, mv) && crate::attack::v_royal_attacked(a, g, a.stm) {
        if fuel == 0 {
            None
        } else {
            spec_any_fuel(g, a, spec_pseudo_moves(g, a), (fuel - 1) as nat, 0)
        }
    } else {
        Some(true)
    }
}

/// Whether one of the moves of `ms` from index `k` on is legal in `v`,
/// tried in order with the budget `fuel`: the first legal one answers
/// `Some(true)`, an unknown one before it answers `None`.
pub open spec fn spec_any_fuel(g: GameDef, v: PosView, ms: Seq<Move>, fuel: nat, k: nat) -> Option<bool>
    decreases fuel, 1nat, ms.len() - k,
{
    if k >= ms.len() {
        Some(false)
    } else {
        match spec_legal_fuel(g, v, ms[k as int], fuel) {
            Some(true) => Some(true),
            Some(false) => spec_any_fuel(g, v, ms, fuel, k + 1),
            None => None,
        }
    }
}

/// Once the drop-mate recursion settles under a budget, a larger budget
/// gives the same answer.
pub proof fn lemma_legal_fuel_settled(g: GameDef, v: PosView, mv: Move, f: nat, f2: nat)
    requires
        f <= f2,
        spec_legal_fuel(g, v, mv, f) is Some,
    ensures
        spec_legal_fuel(g, v, mv, f2) == spec_legal_fuel(g, v, mv, f),
    decreases f, 0nat, 0nat,
{
    let a = crate::position::spec_made(g, v, mv);
    if !crate::attack::v_royal_attacked(a, g, v.stm) && drop_gated(g, mv)
        && crate::attack::v_royal_attacked(a, g, a.stm) {
        lemma_any_fuel_settled(g, a, spec_pseudo_moves(g, a), (f - 1) as nat, (f2 - 1) as nat, 0);
    }
}

/// The same for a scan of moves.
pub proof fn lemma_any_fuel_settled(g: GameDef, v: PosView, ms: Seq<Move>, f: nat, f2: nat, k: nat)
    requires
        f <= f2,
        spec_any_fuel(g, v, ms, f, k) is Some,
    ensures
        spec_any_fuel(g, v, ms, f2, k) == spec_any_fuel(g, v, ms, f, k),
    decreases f, 1nat, ms.len() - k,
{
    if k < ms.len() {
        lemma_legal_fuel_settled(g, v, ms[k as int], f, f2);
        if spec_legal_fuel(g, v, ms[k as int], f) == Some(false) {
            lemma_any_fuel_settled(g, v, ms, f, f2, k + 1);
        }
    }
}

/// Legality: the drop-mate recursion run to its end.
pub open spec fn spec_legal(g: GameDef, v: PosView, mv: Move) -> bool {
    spec_legal_fuel(g, v, mv, LOOKAHEAD as nat) == Some(true)
}

/// The side to move has a legal move: the pseudo-legal moves tried in
/// generation order until one is legal.
pub open spec fn spec_any_legal(g: GameDef, v: PosView) -> bool {
    spec_any_fuel(g, v, spec_pseudo_moves(g, v), LOOKAHEAD as nat, 0) == Some(true)
}

/// Legality does not depend on the look-ahead budget: wherever the
/// drop-mate recursion settles, its answer is the move's legality.
pub proof fn law_legal_settled(g: GameDef, v: PosView, mv: Move, f: nat)
    requires
        f <= LOOKAHEAD,
        spec_legal_fuel(g, v, mv, f) is Some,
    ensures
        spec_legal(g, v, mv) == (spec_legal_fuel(g, v, mv, f) == Some(true)),
{
    lemma_legal_fuel_settled(g, v, mv, f, LOOKAHEAD as nat);
}

/// The drop-mate rule in full: where the recursion settles, a move is
/// legal exactly when the mover's royals stand unattacked after it and,
/// when it is a drop under the rule that attacks the next side's royal,
/// that side has a legal reply, legal in the same full sense.
pub proof fn law_legal_unfolds(g: GameDef, v: PosView, mv: Move)
    requires
        spec_legal_fuel(g, v, mv, LOOKAHEAD as nat) is Some,
    ensures
        ({
            let a = crate::position::spec_made(g, v, mv);
            spec_legal(g, v, mv) == (!crate::attack::v_royal_attacked(a, g, v.stm)
                && !(drop_gated(g, mv) && crate::attack::v_royal_attacked(a, g, a.stm) && !spec_any_legal(g, a)))
        }),
{
    let a = crate::position::spec_made(g, v, mv);
    if !crate::attack::v_royal_attacked(a, g, v.stm) && drop_gated(g, mv)
        && crate::attack::v_royal_attacked(a, g, a.stm) {
        lemma_any_fuel_settled(g, a, spec_pseudo_moves(g, a), (LOOKAHEAD - 1) as nat, LOOKAHEAD as nat, 0);
    }
}

/// The first `n` moves of `ms` that are legal in `v`, in order.
pub open spec fn legal_filter(g: GameDef, v: PosView, ms: Seq<Move>, n: int) -> Seq<Move>
    decreases n,
{
    if n <= 0 {
        Seq::empty()
    } else {
        legal_filter(g, v, ms, n - 1) + if spec_legal(g, v, ms[n - 1]) { seq![ms[n - 1]] } else { Seq::empty() }
    }
}

/// With no legal move among the first `n`, none of them is legal.
pub proof fn lemma_no_legal_in_filter(g: GameDef, v: PosView, ms: Seq<Move>, n: int)
    requires
        0 <= n <= ms.len(),
        legal_filter(g, v, ms, n).len() == 0,
    ensures
        forall|j: int| 0 <= j < n ==> !#[trigger] spec_legal(g, v, ms[j]),
    decreases n,
{
    if n > 0 {
        lemma_no_legal_in_filter(g, v, ms, n - 1);
    }
}

/// The legal moves: the pseudo-legal moves that are legal, in order.
pub open spec fn spec_legal_moves(g: GameDef, v: PosView) -> Seq<Move> {
    legal_filter(g, v, spec_pseudo_moves(g, v), spec_pseudo_moves(g, v).len() as int)
}

/// Legality with a budget of `fuel` nested drop-mate checks (make, own
/// royal safety, the drop row's *uchifuzume* gate, unmake).
fn is_legal_fuel(g: &GameDef, pos: &mut Position, mv: &Move, fuel: u64) -> (r: Option<bool>)
    requires
        old(pos).wf(*g),
    ensures
        r == spec_legal_fuel(*g, old(pos)@, *mv, fuel as nat),
        final(pos)@ == old(pos)@,
    decreases fuel, 0nat,
{
    let ghost before = pos@;
    let mover = pos.stm;
    let u = pos.make(g, mv);
    let ghost after = pos@;
    let safe = !pos.royal_attacked(g, mover);
    let mut r: Option<bool> = Some(safe);
    if safe && mv.kind == MoveKind::Drop && (mv.drop_type as usize) < g.types.len()
        && g.types[mv.drop_type as usize].drop_no_mate {
        let enemy = pos.stm;
        if pos.royal_attacked(g, enemy) {
            r = if fuel == 0 { None } else { has_any_fuel(g, pos, fuel - 1) };
        }
    }
    pos.unmake(g, &u);
    proof { crate::position::lemma_make_unmake(*g, before, after, u); }
    r
}

/// Whether the side to move has a legal move under the budget `fuel`,
/// trying the pseudo-legal moves in order.
fn has_any_fuel(g: &GameDef, pos: &mut Position, fuel: u64) -> (r: Option<bool>)
    requires
        old(pos).wf(*g),
    ensures
        r == spec_any_fuel(*g, old(pos)@, spec_pseudo_moves(*g, old(pos)@), fuel as nat, 0),
        final(pos)@ == old(pos)@,
    decreases fuel, 1nat,
{
    let moves = pseudo_moves(g, pos);
    let mut k: usize = 0;
    while k < moves.len()
        invariant
            pos.wf(*g),
            pos@ == old(pos)@,
            moves@ == spec_pseudo_moves(*g, pos@),
            k <= moves@.len(),
            spec_any_fuel(*g, pos@, moves@, fuel as nat, 0) == spec_any_fuel(*g, pos@, moves@, fuel as nat, k as nat),
        decreases moves@.len() - k,
    {
        let res = is_legal_fuel(g, pos, &moves[k], fuel);
        match res {
            Some(true) => { return Some(true); },
            None => { return None; },
            Some(false) => {},
        }
        k += 1;
    }
    Some(false)
}

/// Full legality: make, verify own royal safety, interpret the drop row's
/// *uchifuzume* gate, unmake. The position is left as it was.
pub fn is_legal(g: &GameDef, pos: &mut Position, mv: &Move) -> (r: bool)
    requires
        old(pos).wf(*g),
    ensures
        r == spec_legal(*g, old(pos)@, *mv),
        final(pos)@ == old(pos)@,
{
    match is_legal_fuel(g, pos, mv, LOOKAHEAD) {
        Some(b) => b,
        None => false,
    }
}

/// The legal moves: the pseudo-legal moves that pass the legality filter,
/// in generation order.
pub fn legal_moves(g: &GameDef, pos: &mut Position) -> (out: Vec<Move>)
    requires
        old(pos).wf(*g),
    ensures
        out@ == spec_legal_moves(*g, old(pos)@),
        final(pos)@ == old(pos)@,
        all_anchored(*g, old(pos)@, out@),
        forall|j: int| 0 <= j < out@.len() ==> #[trigger] hologram_quiet(*g, old(pos)@, out@[j]),
        forall|j: int| 0 <= j < out@.len() ==> #[trigger] capture_seen(*g, old(pos)@, out@[j]),
{
    let pseudo = pseudo_moves(g, pos);
    let mut out: Vec<Move> = Vec::new();
    let mut k: usize = 0;
    while k < pseudo.len()
        invariant
            pos.wf(*g),
            pos@ == old(pos)@,
            all_anchored(*g, pos@, pseudo@),
            all_anchored(*g, pos@, out@),
            forall|j: int| 0 <= j < pseudo@.len() ==> #[trigger] hologram_quiet(*g, pos@, pseudo@[j]),
            forall|j: int| 0 <= j < out@.len() ==> #[trigger] hologram_quiet(*g, pos@, out@[j]),
            forall|j: int| 0 <= j < pseudo@.len() ==> #[trigger] capture_seen(*g, pos@, pseudo@[j]),
            forall|j: int| 0 <= j < out@.len() ==> #[trigger] capture_seen(*g, pos@, out@[j]),
            pseudo@ == spec_pseudo_moves(*g, pos@),
            k <= pseudo@.len(),
            out@ == legal_filter(*g, pos@, pseudo@, k as int),
        decreases pseudo@.len() - k,
    {
        let m = pseudo[k];
        assert(anchored(*g, pos@, pseudo@[k as int]));
        assert(hologram_quiet(*g, pos@, pseudo@[k as int]));
        assert(capture_seen(*g, pos@, pseudo@[k as int]));
        if is_legal(g, pos, &m) {
            push_anchored(g, pos, m, &mut out);
        }
        k += 1;
    }
    out
}

pub fn has_any_legal(g: &GameDef, pos: &mut Position) -> (r: bool)
    requires
        old(pos).wf(*g),
    ensures
        r == spec_any_legal(*g, old(pos)@),
        final(pos)@ == old(pos)@,
{
    match has_any_fuel(g, pos, LOOKAHEAD) {
        Some(b) => b,
        None => false,
    }
}

#[derive(Clone, Copy, PartialEq, Eq, Debug, Structural)]
pub enum Status {
    Ongoing,
    Win(Side),
    Draw,
}

/// Terminal status per the policy layer: ongoing while a legal move
/// exists; otherwise a royal in check loses, and stalemate follows the
/// stalemate policy.
pub fn status(g: &GameDef, pos: &mut Position) -> (r: Status)
    requires
        old(pos).wf(*g),
    ensures
        (r is Ongoing) == spec_any_legal(*g, old(pos)@),
        final(pos)@ == old(pos)@,
        r matches Status::Win(s) ==> s == crate::position::next_side(old(pos).stm, g.sides),
        !(r is Ongoing) ==> r == (if crate::attack::v_royal_attacked(old(pos)@, *g, old(pos).stm) {
            Status::Win(crate::position::next_side(old(pos).stm, g.sides))
        } else {
            match g.policy.stalemate {
                StalematePolicy::Draw => Status::Draw,
                StalematePolicy::Loss => Status::Win(crate::position::next_side(old(pos).stm, g.sides)),
            }
        }),
{
    if has_any_legal(g, pos) {
        return Status::Ongoing;
    }
    let stm = pos.stm;
    let enemy = ((stm as u16 + 1) % (g.sides as u16)) as u8;
    if pos.royal_attacked(g, stm) {
        return Status::Win(enemy);
    }
    match g.policy.stalemate {
        StalematePolicy::Draw => Status::Draw,
        StalematePolicy::Loss => Status::Win(enemy),
    }
}

/// With a legal move among the first `n`, the legal list is not empty,
/// and the other way round.
proof fn lemma_filter_nonempty(g: GameDef, v: PosView, ms: Seq<Move>, n: int)
    requires
        0 <= n <= ms.len(),
    ensures
        legal_filter(g, v, ms, n).len() > 0 <==> exists|j: int| 0 <= j < n && #[trigger] spec_legal(g, v, ms[j]),
    decreases n,
{
    if n > 0 {
        lemma_filter_nonempty(g, v, ms, n - 1);
        if spec_legal(g, v, ms[n - 1]) {
            assert(exists|j: int| 0 <= j < n && #[trigger] spec_legal(g, v, ms[j]));
        } else {
            if exists|j: int| 0 <= j < n && #[trigger] spec_legal(g, v, ms[j]) {
                let j = choose|j: int| 0 <= j < n && #[trigger] spec_legal(g, v, ms[j]);
                assert(j < n - 1);
            }
        }
    }
}

/// The scan for a legal move from `k` on: a find is a legal move; where
/// every move from `k` on settles, any legal move is found.
proof fn lemma_any_scan(g: GameDef, v: PosView, ms: Seq<Move>, k: nat)
    requires
        k <= ms.len(),
    ensures
        spec_any_fuel(g, v, ms, LOOKAHEAD as nat, k) == Some(true)
            ==> exists|j: int| k <= j < ms.len() && #[trigger] spec_legal(g, v, ms[j]),
        (forall|j: int| k <= j < ms.len() ==> (#[trigger] spec_legal_fuel(g, v, ms[j], LOOKAHEAD as nat)) is Some)
            && (exists|j: int| k <= j < ms.len() && #[trigger] spec_legal(g, v, ms[j]))
            ==> spec_any_fuel(g, v, ms, LOOKAHEAD as nat, k) == Some(true),
    decreases ms.len() - k,
{
    if k < ms.len() {
        lemma_any_scan(g, v, ms, k + 1);
        if spec_legal_fuel(g, v, ms[k as int], LOOKAHEAD as nat) == Some(true) {
            assert(spec_legal(g, v, ms[k as int]));
        }
        if spec_any_fuel(g, v, ms, LOOKAHEAD as nat, k) == Some(true)
            && spec_legal_fuel(g, v, ms[k as int], LOOKAHEAD as nat) != Some(true) {
            assert(spec_any_fuel(g, v, ms, LOOKAHEAD as nat, k + 1) == Some(true));
            let j = choose|j: int| k + 1 <= j < ms.len() && #[trigger] spec_legal(g, v, ms[j]);
            assert(spec_legal(g, v, ms[j]));
        }
        if exists|j: int| k <= j < ms.len() && #[trigger] spec_legal(g, v, ms[j]) {
            let j = choose|j: int| k <= j < ms.len() && #[trigger] spec_legal(g, v, ms[j]);
            if j > k && !spec_legal(g, v, ms[k as int]) {
                assert(exists|j2: int| k + 1 <= j2 < ms.len() && #[trigger] spec_legal(g, v, ms[j2]));
            }
        }
    }
}

/// The game goes on exactly when the side to move has a legal move,
/// wherever the drop-mate look-ahead settles for every pseudo-legal move
/// (a found move is always legal).
pub proof fn law_status_ongoing(g: GameDef, v: PosView)
    ensures
        spec_any_legal(g, v) ==> spec_legal_moves(g, v).len() > 0,
        (forall|j: int| 0 <= j < spec_pseudo_moves(g, v).len()
            ==> (#[trigger] spec_legal_fuel(g, v, spec_pseudo_moves(g, v)[j], LOOKAHEAD as nat)) is Some)
            ==> (spec_any_legal(g, v) <==> spec_legal_moves(g, v).len() > 0),
{
    let ms = spec_pseudo_moves(g, v);
    lemma_any_scan(g, v, ms, 0);
    lemma_filter_nonempty(g, v, ms, ms.len() as int);
}

proof fn lemma_drops_of_type_member(g: GameDef, v: PosView, t: int, n: int, m: Move)
    requires
        drops_of_type(g, v, t, n).contains(m),
    ensures
        exists|q: int| 0 <= q < n && #[trigger] drop_admitted(g, v, t, q) && m == drop_move(t, q),
    decreases n,
{
    if n > 0 {
        let a = drops_of_type(g, v, t, n - 1);
        let b: Seq<Move> = if drop_admitted(g, v, t, n - 1) { seq![drop_move(t, n - 1)] } else { Seq::empty() };
        let k = choose|k: int| 0 <= k < (a + b).len() && (a + b)[k] == m;
        if k < a.len() {
            assert(a[k] == m);
            lemma_drops_of_type_member(g, v, t, n - 1, m);
        } else {
            assert(b[k - a.len()] == m);
            assert(drop_admitted(g, v, t, n - 1));
        }
    }
}

proof fn lemma_drops_upto_member(g: GameDef, v: PosView, n: int, m: Move)
    requires
        drops_upto(g, v, n).contains(m),
    ensures
        exists|t: int, q: int| 0 <= t < n && #[trigger] drop_admitted(g, v, t, q) && m == drop_move(t, q),
    decreases n,
{
    if n > 0 {
        let a = drops_upto(g, v, n - 1);
        let b = drops_of_type(g, v, n - 1, g.ncells() as int);
        let k = choose|k: int| 0 <= k < (a + b).len() && (a + b)[k] == m;
        if k < a.len() {
            assert(a[k] == m);
            lemma_drops_upto_member(g, v, n - 1, m);
        } else {
            assert(b[k - a.len()] == m);
            assert(b.contains(m));
            lemma_drops_of_type_member(g, v, n - 1, g.ncells() as int, m);
        }
    }
}

/// A drop of type `t` onto `to` under a drop row that forbids a second
/// piece on a file (*nifu*) finds no piece of type `t` of the side to move
/// anywhere on the file of `to`.
pub open spec fn nifu_respected(g: GameDef, v: PosView, m: Move) -> bool {
    (m.kind == MoveKind::Drop && (g.compiled@[m.drop_type as int * g.sides + v.stm].drop matches Some(r)
        && r.no_dup_file)) ==> forall|y: int| 0 <= y < g.board.h ==> {
        let e = #[trigger] v.board[g.board.spec_sq(g.board.spec_x(m.to as int), y)];
        !(0 <= e < v.pieces.len() && v.pieces[e as int].side == v.stm && v.pieces[e as int].t == m.drop_type)
    }
}

/// Nifu for the generated drops: every drop the hand offers is a drop move
/// of a type in hand onto a cell of the board, and under a *nifu* drop row
/// no piece of its type belonging to the side to move stands on the
/// destination's file.
pub proof fn law_drops_nifu(g: GameDef, v: PosView, m: Move)
    requires
        view_wf(v, g),
        drops_upto(g, v, g.types@.len() as int).contains(m),
    ensures
        m.kind == MoveKind::Drop,
        m.from == NO_SQ,
        (m.to as int) < g.ncells(),
        (m.drop_type as int) < g.ntypes(),
        v.hands[v.stm as int][m.drop_type as int] > 0,
        nifu_respected(g, v, m),
{
    lemma_drops_upto_member(g, v, g.types@.len() as int, m);
    let (t, q) = choose|t: int, q: int| 0 <= t < g.types@.len() && #[trigger] drop_admitted(g, v, t, q)
        && m == drop_move(t, q);
    crate::game::lemma_ncells_bound(g.board);
    assert(m.to as int == q);
    assert(m.drop_type as int == t);
    assert(drop_ok(g, v, t, q));
    lemma_drop_ok_nifu(g, v, m);
}

proof fn lemma_drop_ok_nifu(g: GameDef, v: PosView, m: Move)
    requires
        m.kind == MoveKind::Drop,
        drop_ok(g, v, m.drop_type as int, m.to as int),
    ensures
        nifu_respected(g, v, m),
{
    let t = m.drop_type as int;
    let ck = g.compiled@[t * g.sides + v.stm];
    if ck.drop matches Some(r) && r.no_dup_file {
        assert(!own_on_file(g, v, t, g.board.spec_x(m.to as int)));
        assert forall|y: int| 0 <= y < g.board.h implies {
            let e = #[trigger] v.board[g.board.spec_sq(g.board.spec_x(m.to as int), y)];
            !(0 <= e < v.pieces.len() && v.pieces[e as int].side == v.stm && v.pieces[e as int].t == m.drop_type)
        } by {
            assert(!own_type_at(v, t, g.board.spec_sq(g.board.spec_x(m.to as int), y)));
        }
    }
}

/// Nifu for everything the move generator offers: see `nifu_respected`.
proof fn lemma_anchored_nifu(g: GameDef, v: PosView, m: Move)
    requires
        anchored(g, v, m),
    ensures
        nifu_respected(g, v, m),
{
    if m.kind == MoveKind::Drop {
        lemma_drop_ok_nifu(g, v, m);
    }
}

proof fn lemma_drops_of_type_has(g: GameDef, v: PosView, t: int, n: int, q: int)
    requires
        drop_admitted(g, v, t, q),
        0 <= q < n,
    ensures
        drops_of_type(g, v, t, n).contains(drop_move(t, q)),
    decreases n,
{
    let a = drops_of_type(g, v, t, n - 1);
    let b: Seq<Move> = if drop_admitted(g, v, t, n - 1) { seq![drop_move(t, n - 1)] } else { Seq::empty() };
    assert(drops_of_type(g, v, t, n) == a + b);
    if q == n - 1 {
        assert((a + b)[a.len() as int] == drop_move(t, q));
    } else {
        lemma_drops_of_type_has(g, v, t, n - 1, q);
        let j = choose|j: int| 0 <= j < a.len() && a[j] == drop_move(t, q);
        assert((a + b)[j] == drop_move(t, q));
    }
}

proof fn lemma_drops_upto_has(g: GameDef, v: PosView, n: int, t: int, q: int)
    requires
        drop_admitted(g, v, t, q),
        0 <= t < n,
    ensures
        drops_upto(g, v, n).contains(drop_move(t, q)),
    decreases n,
{
    let a = drops_upto(g, v, n - 1);
    let b = drops_of_type(g, v, n - 1, g.ncells() as int);
    assert(drops_upto(g, v, n) == a + b);
    if t == n - 1 {
        lemma_drops_of_type_has(g, v, t, g.ncells() as int, q);
        let j = choose|j: int| 0 <= j < b.len() && b[j] == drop_move(t, q);
        assert((a + b)[a.len() + j] == drop_move(t, q));
    } else {
        lemma_drops_upto_has(g, v, n - 1, t, q);
        let j = choose|j: int| 0 <= j < a.len() && a[j] == drop_move(t, q);
        assert((a + b)[j] == drop_move(t, q));
    }
}

/// The hand may drop type `t` onto `sq`: the side to move holds one, the
/// type has a drop row, the cell is empty and its terrain does not stop a
/// piece landing, the type could act from it, and under *nifu* no piece of
/// the type of the side to move stands on its file.
pub open spec fn drop_allowed(g: GameDef, v: PosView, t: int, sq: int) -> bool {
    let ck = g.compiled@[t * g.sides + v.stm];
    &&& 0 <= t < g.ntypes()
    &&& 0 <= sq < g.ncells()
    &&& v.hands[v.stm as int][t] > 0
    &&& ck.drop is Some
    &&& v.board[sq] < 0
    &&& !crate::attack::v_stops(v, v.terrain[sq], false, false)
    &&& ck.can_act_from@[sq]
    &&& (ck.drop->0.no_dup_file ==> forall|y: int| 0 <= y < g.board.h ==> {
        let e = #[trigger] v.board[g.board.spec_sq(g.board.spec_x(sq), y)];
        !(0 <= e < v.pieces.len() && v.pieces[e as int].side == v.stm && v.pieces[e as int].t == t)
    })
}

proof fn lemma_drop_allowed_admitted(g: GameDef, v: PosView, t: int, sq: int)
    requires
        drop_allowed(g, v, t, sq),
    ensures
        drop_admitted(g, v, t, sq),
{
    let ck = g.compiled@[t * g.sides + v.stm];
    if ck.drop->0.no_dup_file {
        if own_on_file(g, v, t, g.board.spec_x(sq)) {
            let y = choose|y: int| 0 <= y < g.board.h && #[trigger] own_type_at(v, t, g.board.spec_sq(g.board.spec_x(sq), y));
            let e = v.board[g.board.spec_sq(g.board.spec_x(sq), y)];
            assert(false);
        }
    }
}

/// Every drop the rules allow is generated: for each type in hand and each
/// cell where `drop_allowed` holds, the hand offers that drop.
pub proof fn law_drops_complete(g: GameDef, v: PosView, t: int, sq: int)
    requires
        drop_allowed(g, v, t, sq),
    ensures
        drops_upto(g, v, g.types@.len() as int).contains(drop_move(t, sq)),
{
    lemma_drop_allowed_admitted(g, v, t, sq);
    lemma_drops_upto_has(g, v, g.types@.len() as int, t, sq);
}

} // verus!
