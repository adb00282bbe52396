//! The measured side of the cost model. The mobility integral counts a
//! type's move and attack destinations with the real compiled kernels
//! against seeded random occupancies, so path rules, zones, hoppers and
//! direction masks all price themselves. Bit categories are the
//! interpretable features over which a pairwise synergy prior is fitted.

use vstd::prelude::*;
use crate::game::{GameDef, Side, TypeId};
use crate::movegen::pseudo_moves;
use crate::moves::{Move, NO_SQ};
use crate::position::{Loc, PosView, Position, claimed_before, view_wf};
use crate::rng::{Rng, GOLDEN, spec_mix};
use crate::terrain_defs::T_NONE;
use crate::zobrist::keyed;

verus! {

/// How many categories a type is described by.
pub const K_CATS: usize = 8;

/// The categories of type `t`, from its side-0 kernels: leaps, rides, hops,
/// forward-only (all leaps, or all rides, step forward), hit points above
/// one, overclock, abilities, and a capture-only kernel.
pub open spec fn spec_categories(g: GameDef, t: TypeId) -> Seq<bool> {
    let ck = g.compiled@[(t as int) * g.sides];
    let ty = g.types@[t as int];
    seq![
        ck.leaps@.len() > 0,
        ck.rides@.len() > 0,
        ck.hops@.len() > 0,
        (ck.leaps@.len() > 0 && forall|k: int| 0 <= k < ck.leaps@.len() ==> #[trigger] ck.leaps@[k].d.dy > 0)
            || (ck.rides@.len() > 0 && forall|k: int| 0 <= k < ck.rides@.len() ==> #[trigger] ck.rides@[k].d.dy > 0),
        ty.max_hp > 1,
        ty.overclock,
        ty.abilities@.len() > 0,
        (exists|k: int| 0 <= k < ck.leaps@.len() && !(#[trigger] ck.leaps@[k]).mode.spec_can_move())
            || (exists|k: int| 0 <= k < ck.rides@.len() && !(#[trigger] ck.rides@[k]).mode.spec_can_move()),
    ]
}

pub fn bit_categories(g: &GameDef, t: TypeId) -> (r: [bool; K_CATS])
    requires
        g.wf(),
        (t as int) < g.ntypes(),
    ensures
        r@ == spec_categories(*g, t),
{
    let ck = g.compiled(t, 0);
    let ty = &g.types[t as usize];
    let mut leaps_fwd = true;
    let mut leaps_capture_only = false;
    let mut k: usize = 0;
    while k < ck.leaps.len()
        invariant
            k <= ck.leaps@.len(),
            leaps_fwd == forall|m: int| 0 <= m < k ==> #[trigger] ck.leaps@[m].d.dy > 0,
            leaps_capture_only == exists|m: int| 0 <= m < k && !(#[trigger] ck.leaps@[m]).mode.spec_can_move(),
        decreases ck.leaps@.len() - k,
    {
        if ck.leaps[k].d.dy <= 0 {
            leaps_fwd = false;
        }
        if !ck.leaps[k].mode.can_move() {
            leaps_capture_only = true;
        }
        k += 1;
    }
    let mut rides_fwd = true;
    let mut rides_capture_only = false;
    let mut k: usize = 0;
    while k < ck.rides.len()
        invariant
            k <= ck.rides@.len(),
            rides_fwd == forall|m: int| 0 <= m < k ==> #[trigger] ck.rides@[m].d.dy > 0,
            rides_capture_only == exists|m: int| 0 <= m < k && !(#[trigger] ck.rides@[m]).mode.spec_can_move(),
        decreases ck.rides@.len() - k,
    {
        if ck.rides[k].d.dy <= 0 {
            rides_fwd = false;
        }
        if !ck.rides[k].mode.can_move() {
            rides_capture_only = true;
        }
        k += 1;
    }
    let r = [
        ck.leaps.len() > 0,
        ck.rides.len() > 0,
        ck.hops.len() > 0,
        (leaps_fwd && ck.leaps.len() > 0) || (rides_fwd && ck.rides.len() > 0),
        ty.max_hp > 1,
        ty.overclock,
        ty.abilities.len() > 0,
        leaps_capture_only || rides_capture_only,
    ];
    assert(r@ =~= spec_categories(*g, t));
    r
}


/// Random occupancies sampled per type.
pub const SAMPLES: usize = 48;

/// The filler density 0.30 on the unit interval of 53-bit draws: a draw
/// whose top 53 bits are at most this value falls below the density.
pub const DENSITY_CUT: u64 = 2702159776422297;

/// One half on the unit interval of 53-bit draws: a draw whose top 53 bits
/// are below this value falls below one half.
pub const HALF_CUT: u64 = 4503599627370496;

/// Destination totals of a type over every square of every sampled
/// occupancy: quiet destinations, occupied destinations, and placements.
#[derive(Clone, Copy, Debug)]
pub struct MobilityCounts {
    pub moved: u64,
    pub attacked: u64,
    pub placements: u64,
}

fn contains_sq(v: &Vec<u16>, sq: u16) -> (r: bool)
    ensures
        r == v@.contains(sq),
{
    let mut k: usize = 0;
    while k < v.len()
        invariant
            k <= v@.len(),
            forall|m: int| 0 <= m < k ==> v@[m] != sq,
        decreases v@.len() - k,
    {
        if v[k] == sq {
            return true;
        }
        k += 1;
    }
    false
}

/// A placement entry: type, side, square, moved.
pub type Entry = (TypeId, Side, u16, bool);

/// What the position built from the placement list `l` satisfies: every
/// entry placed at full hit points (dead when an earlier entry took its
/// square), bare floor, empty hands, `stm` to move, its ground-truth key.
pub open spec fn built_from(g: GameDef, l: Seq<Entry>, stm: Side, w: PosView) -> bool {
    &&& view_wf(w, g)
    &&& keyed(g.zobrist, w)
    &&& w.stm == stm
    &&& w.ep == NO_SQ
    &&& w.pieces.len() == l.len()
    &&& (forall|sq: int| 0 <= sq < w.terrain.len() ==> w.terrain[sq] == T_NONE)
    &&& (forall|k: int| 0 <= k < l.len() ==> {
        let e = #[trigger] l[k];
        let p = w.pieces[k];
        &&& p.t == e.0 && p.base == e.0 && p.side == e.1 && p.moved == e.3
        &&& w.hp[k] == g.types@[e.0 as int].max_hp
        &&& p.loc == (if claimed_before(l, k, e.2) { Loc::Dead } else { Loc::Board(e.2) })
    })
    &&& (forall|s: int, t: int| 0 <= s < g.sides && 0 <= t < g.ntypes() ==> #[trigger] w.hands[s][t] == 0)
}

/// Only one position is built from a placement list.
pub proof fn lemma_built_from_unique(g: GameDef, l: Seq<Entry>, stm: Side, w1: PosView, w2: PosView)
    requires
        built_from(g, l, stm, w1),
        built_from(g, l, stm, w2),
    ensures
        w1 == w2,
{
    assert(w1.pieces =~= w2.pieces) by {
        assert forall|k: int| 0 <= k < l.len() implies w1.pieces[k] == w2.pieces[k] by {
            let e = l[k];
        }
    }
    assert(w1.hp =~= w2.hp) by {
        assert forall|k: int| 0 <= k < l.len() implies w1.hp[k] == w2.hp[k] by {
            let e = l[k];
        }
    }
    assert(w1.terrain =~= w2.terrain);
    assert(w1.board =~= w2.board) by {
        assert forall|sq: int| 0 <= sq < w1.board.len() implies w1.board[sq] == w2.board[sq] by {
            let e1 = w1.board[sq];
            let e2 = w2.board[sq];
            crate::game::lemma_ncells_bound(g.board);
            assert((sq as u16) as int == sq);
            if e1 >= 0 {
                assert(crate::position::on_board_at(w2.pieces[e1 as int], w2.board, e1 as int));
            } else if e2 >= 0 {
                assert(crate::position::on_board_at(w1.pieces[e2 as int], w1.board, e2 as int));
            }
        }
    }
    assert(w1.hands =~= w2.hands) by {
        assert forall|s: int| 0 <= s < w1.hands.len() implies w1.hands[s] == w2.hands[s] by {
            assert(w1.hands[s] =~= w2.hands[s]);
        }
    }
    assert(w1.with_hash(0) == w2.with_hash(0));
    assert(w1 == w2);
}

/// The position built from a placement list.
pub open spec fn spec_from_pieces(g: GameDef, l: Seq<Entry>, stm: Side) -> PosView {
    choose|w: PosView| built_from(g, l, stm, w)
}

/// A position that `built_from` describes is the one built.
pub proof fn lemma_built_from(g: GameDef, l: Seq<Entry>, stm: Side, w: PosView)
    requires
        built_from(g, l, stm, w),
    ensures
        w == spec_from_pieces(g, l, stm),
{
    lemma_built_from_unique(g, l, stm, w, spec_from_pieces(g, l, stm));
}

/// A `u64` count raised by `d`, held at the top.
pub open spec fn sat_add(x: int, d: int) -> int {
    if x + d > u64::MAX { u64::MAX as int } else { x + d }
}

/// A square that holds a piece.
pub open spec fn occupied(w: PosView, sq: u16) -> bool {
    (sq as int) < w.board.len() && w.board[sq as int] >= 0 && w.board[sq as int] < w.pieces.len()
}

/// Over the first `j` moves of `ms`: the distinct destinations of the
/// moves from `probe`, in order of first appearance, with how many of them
/// are empty and how many occupied.
pub open spec fn dest_scan(w: PosView, ms: Seq<Move>, probe: u16, j: int) -> (Seq<u16>, int, int)
    decreases j,
{
    if j <= 0 {
        (Seq::empty(), 0, 0)
    } else {
        let prev = dest_scan(w, ms, probe, j - 1);
        let mv = ms[j - 1];
        if mv.from == probe && !prev.0.contains(mv.to) {
            if occupied(w, mv.to) {
                (prev.0.push(mv.to), prev.1, sat_add(prev.2, 1))
            } else {
                (prev.0.push(mv.to), sat_add(prev.1, 1), prev.2)
            }
        } else {
            prev
        }
    }
}

/// The entries among the first `k` of `list` on another square than `probe`.
pub open spec fn others(list: Seq<Entry>, probe: u16, k: int) -> Seq<Entry>
    decreases k,
{
    if k <= 0 {
        Seq::empty()
    } else {
        others(list, probe, k - 1) + if list[k - 1].2 != probe { seq![list[k - 1]] } else { Seq::empty() }
    }
}

/// The (empty, occupied) destination counts of a piece of type `t` and
/// side `side` placed on `probe` among the fillers of `list`.
pub open spec fn probe_counts(g: GameDef, t: TypeId, side: Side, list: Seq<Entry>, probe: u16) -> (int, int) {
    let l = others(list, probe, list.len() as int).push((t, side, probe, true));
    let w = spec_from_pieces(g, l, side);
    let ms = crate::movegen::spec_pseudo_moves(g, w);
    let d = dest_scan(w, ms, probe, ms.len() as int);
    (d.1, d.2)
}

/// One sampled occupancy from square `sq` on, from the generator at
/// `state`: each square draws whether a filler stands there (density 0.30)
/// and, if so, its side (even odds). The fillers appended to `acc`, and
/// the generator's state after.
pub open spec fn sample_fillers(state: u64, nc: int, sq: int, acc: Seq<Entry>) -> (Seq<Entry>, u64)
    decreases nc - sq,
{
    if sq >= nc || sq < 0 {
        (acc, state)
    } else {
        let st1 = state.wrapping_add(GOLDEN);
        if (spec_mix(st1) >> 11) <= DENSITY_CUT {
            let st2 = st1.wrapping_add(GOLDEN);
            let s: Side = if (spec_mix(st2) >> 11) < HALF_CUT { 0 } else { 1 };
            sample_fillers(st2, nc, sq + 1, acc.push((0, s, sq as u16, true)))
        } else {
            sample_fillers(st1, nc, sq + 1, acc)
        }
    }
}

/// The running totals raised by the counts of the probes from `sq` on.
pub open spec fn probe_totals(g: GameDef, t: TypeId, side: Side, list: Seq<Entry>, nc: int, sq: int,
    mv: int, at: int) -> (int, int)
    decreases nc - sq,
{
    if sq >= nc || sq < 0 {
        (mv, at)
    } else {
        let c = probe_counts(g, t, side, list, sq as u16);
        probe_totals(g, t, side, list, nc, sq + 1, sat_add(mv, c.0), sat_add(at, c.1))
    }
}

/// The running totals raised by the samples from `sample` on, the
/// generator at `state`.
pub open spec fn sample_totals(g: GameDef, t: TypeId, side: Side, state: u64, nc: int, sample: int,
    mv: int, at: int) -> (int, int)
    decreases SAMPLES - sample,
{
    if sample >= SAMPLES || sample < 0 {
        (mv, at)
    } else {
        let f = sample_fillers(state, nc, 0, Seq::empty());
        let tot = probe_totals(g, t, side, f.0, nc, 0, mv, at);
        sample_totals(g, t, side, f.1, nc, sample + 1, tot.0, tot.1)
    }
}

/// The generator seed of the samples for type `t` of `side`.
pub open spec fn mobility_seed(t: TypeId, side: Side) -> u64 {
    (0xC057_0000u64 + t as u64 * 7919 + side as u64) as u64
}

/// The mobility integral's counts for type `t` of `side`: `SAMPLES` seeded
/// occupancies (fillers of type 0, density 0.30, either side with even
/// odds), the probe placed on each square in turn, its pseudo-move
/// destinations counted once each.
pub fn mobility_counts(g: &GameDef, t: TypeId, side: Side) -> (m: MobilityCounts)
    requires
        g.wf(),
        (t as int) < g.ntypes(),
        side < g.sides,
        g.sides >= 2,
    ensures
        m.placements == SAMPLES * g.ncells(),
        (m.moved as int, m.attacked as int) == sample_totals(*g, t, side, mobility_seed(t, side), g.ncells() as int, 0, 0, 0),
{
    let mut rng = Rng::new((0xC057_0000u64 + t as u64 * 7919) + side as u64);
    let ncells = g.board.ncells();
    proof { crate::game::lemma_ncells_bound(g.board); }
    let mut moved: u64 = 0;
    let mut attacked: u64 = 0;
    let mut placements: u64 = 0;
    let mut sample: usize = 0;
    while sample < SAMPLES
        invariant
            g.wf(),
            (t as int) < g.ntypes(),
            side < g.sides,
            g.sides >= 2,
            ncells == g.ncells(),
            ncells <= 65025,
            sample <= SAMPLES,
            placements == sample * ncells,
            sample_totals(*g, t, side, mobility_seed(t, side), ncells as int, 0, 0, 0)
                == sample_totals(*g, t, side, rng.state(), ncells as int, sample as int, moved as int, attacked as int),
        decreases SAMPLES - sample,
    {
        let ghost st_s = rng.state();
        let ghost moved_s = moved;
        let ghost attacked_s = attacked;
        let mut list: Vec<(TypeId, Side, u16, bool)> = Vec::new();
        let mut sq: usize = 0;
        while sq < ncells
            invariant
                sample_fillers(st_s, ncells as int, 0, Seq::empty())
                    == sample_fillers(rng.state(), ncells as int, sq as int, list@),
                g.wf(),
                g.sides >= 2,
                ncells == g.ncells(),
                ncells <= 65025,
                sq <= ncells,
                list@.len() <= sq,
                forall|k: int| 0 <= k < list@.len() ==> {
                    let e = #[trigger] list@[k];
                    &&& e.0 == 0
                    &&& e.1 < 2
                    &&& (e.2 as int) < sq
                },
            decreases ncells - sq,
        {
            if (rng.next_u64() >> 11) <= DENSITY_CUT {
                let s: Side = if (rng.next_u64() >> 11) < HALF_CUT { 0 } else { 1 };
                list.push((0, s, sq as u16, true));
            }
            sq += 1;
        }
        let ghost fl = list@;
        assert(sample_fillers(st_s, ncells as int, 0, Seq::empty()) == (fl, rng.state()));
        let mut sq: usize = 0;
        while sq < ncells
            invariant
                list@ == fl,
                probe_totals(*g, t, side, fl, ncells as int, 0, moved_s as int, attacked_s as int)
                    == probe_totals(*g, t, side, fl, ncells as int, sq as int, moved as int, attacked as int),
                g.wf(),
                (t as int) < g.ntypes(),
                side < g.sides,
                g.sides >= 2,
                ncells == g.ncells(),
                ncells <= 65025,
                sample < SAMPLES,
                sq <= ncells,
                list@.len() <= ncells,
                placements == sample * ncells + sq,
                forall|k: int| 0 <= k < list@.len() ==> {
                    let e = #[trigger] list@[k];
                    &&& e.0 == 0
                    &&& e.1 < 2
                    &&& (e.2 as int) < ncells
                },
            decreases ncells - sq,
        {
            let probe = sq as u16;
            let mut l: Vec<(TypeId, Side, u16, bool)> = Vec::new();
            let mut k: usize = 0;
            while k < list.len()
                invariant
                    g.wf(),
                    g.sides >= 2,
                    (t as int) < g.ntypes(),
                    side < g.sides,
                    ncells == g.ncells(),
                    k <= list@.len(),
                    list@.len() <= ncells,
                    ncells <= 65025,
                    l@.len() <= k,
                    l@ == others(list@, probe, k as int),
                    forall|k: int| 0 <= k < list@.len() ==> {
                        let e = #[trigger] list@[k];
                        &&& e.0 == 0
                        &&& e.1 < 2
                        &&& (e.2 as int) < ncells
                    },
                    forall|j: int| 0 <= j < l@.len() ==> {
                        let e = #[trigger] l@[j];
                        &&& (e.0 as int) < g.ntypes()
                        &&& e.1 < g.sides
                        &&& (e.2 as int) < g.ncells()
                    },
                decreases list@.len() - k,
            {
                let e = list[k];
                if e.2 != probe {
                    l.push(e);
                }
                k += 1;
                assert(l@ =~= others(list@, probe, k as int));
            }
            l.push((t, side, probe, true));
            let pos = Position::from_pieces(g, &l, side);
            proof { lemma_built_from(*g, l@, side, pos@); }
            let moves = pseudo_moves(g, &pos);
            let mut dests: Vec<u16> = Vec::new();
            let mut m: u64 = 0;
            let mut a: u64 = 0;
            let mut j: usize = 0;
            while j < moves.len()
                invariant
                    j <= moves@.len(),
                    (dests@, m as int, a as int) == dest_scan(pos@, moves@, probe, j as int),
                decreases moves@.len() - j,
            {
                let mv = moves[j];
                if mv.from == probe && !contains_sq(&dests, mv.to) {
                    dests.push(mv.to);
                    if pos.piece_at(mv.to).is_some() {
                        a = a.saturating_add(1);
                    } else {
                        m = m.saturating_add(1);
                    }
                }
                j += 1;
            }
            moved = moved.saturating_add(m);
            attacked = attacked.saturating_add(a);
            proof {
                assert(placements + 1 <= SAMPLES * ncells) by (nonlinear_arith)
                    requires placements == sample * ncells + sq, sq < ncells, sample < SAMPLES;
            }
            placements += 1;
            sq += 1;
        }
        proof {
            assert(placements == (sample + 1) * ncells) by (nonlinear_arith)
                requires placements == sample * ncells + ncells;
        }
        sample += 1;
    }
    MobilityCounts { moved, attacked, placements }
}

} // verus!
