//! Attack detection: which squares a side's pieces strike through their
//! compiled kernels, stated as a function of the position and proved of the
//! scan that answers it.

use vstd::prelude::*;
use crate::bits::{HopMode, TargetPred};
use crate::game::{GameDef, HopK, LeapK, RideK, Side};
use crate::geometry::Delta;
use crate::position::{Loc, PosView, Position, hp_gate_ok, piece_ok, ray_steps, spec_hp_gate_ok, steps_of};
use crate::terrain_defs::{Blocks, NT, spec_blocks};

verus! {

// ---------------------------------------------------------------------
// What an attack is
// ---------------------------------------------------------------------

/// Does terrain code `t` stop a mover with these permissions in `v`?
pub open spec fn v_stops(v: PosView, t: u8, flies: bool, drills: bool) -> bool {
    let b = if (t as int) < NT {
        spec_blocks(t)
    } else if (t as int) - NT < v.cust.len() {
        v.cust[(t as int) - NT]
    } else {
        Blocks { ground: false, flight: false, drill: false }
    };
    b.ground && (!flies || b.flight) && (!drills || b.drill)
}

/// Take `left` steps of `(dx, dy)` from `cur`: `None` when a step leaves the
/// board or lands on terrain that stops the mover, else how many of the
/// cells stepped onto are occupied.
pub open spec fn v_walk(v: PosView, g: GameDef, cur: int, dx: int, dy: int, left: int, flies: bool, drills: bool) -> Option<nat>
    decreases left,
{
    if left <= 0 {
        Some(0)
    } else {
        match g.board.spec_offset(cur, dx, dy) {
            None => None,
            Some(c) => if v_stops(v, v.terrain[c as int], flies, drills) {
                None
            } else {
                match v_walk(v, g, c as int, dx, dy, left - 1, flies, drills) {
                    None => None,
                    Some(k) => Some(k + if v.board[c as int] >= 0 { 1nat } else { 0nat }),
                }
            },
        }
    }
}

/// The cell `n` steps of `(dx, dy)` from `c`, if every step stays on the board.
pub open spec fn ray_cell(g: GameDef, c: int, dx: int, dy: int, n: int) -> Option<u16>
    decreases n,
{
    if n <= 0 {
        Some(c as u16)
    } else {
        match g.board.spec_offset(c, dx, dy) {
            None => None,
            Some(c1) => ray_cell(g, c1 as int, dx, dy, n - 1),
        }
    }
}

/// One more step along a ray: the cell `n + 1` steps out is one step from
/// the cell `n` steps out.
pub proof fn lemma_ray_snoc(g: GameDef, c: int, dx: int, dy: int, n: int)
    requires
        n >= 0,
        0 <= c < 0x10000,
        ray_cell(g, c, dx, dy, n) is Some,
    ensures
        ray_cell(g, c, dx, dy, n + 1) == g.board.spec_offset(ray_cell(g, c, dx, dy, n)->0 as int, dx, dy),
    decreases n,
{
    if n > 0 {
        let c1 = g.board.spec_offset(c, dx, dy)->0 as int;
        lemma_ray_snoc(g, c1, dx, dy, n - 1);
    } else {
        match g.board.spec_offset(c, dx, dy) {
            Some(c1) => { assert(ray_cell(g, c1 as int, dx, dy, 0) == Some(c1)); },
            None => {},
        }
    }
}

/// One more step along a walk: the walk of `n + 1` steps is the walk of `n`
/// steps followed by the step from the `n`-th cell.
pub proof fn lemma_walk_snoc(v: PosView, g: GameDef, c: int, dx: int, dy: int, n: int, flies: bool, drills: bool)
    requires
        n >= 0,
        0 <= c < 0x10000,
        ray_cell(g, c, dx, dy, n) is Some,
    ensures
        ray_cell(g, c, dx, dy, n + 1) == g.board.spec_offset(ray_cell(g, c, dx, dy, n)->0 as int, dx, dy),
        ({
            let cn = ray_cell(g, c, dx, dy, n)->0 as int;
            v_walk(v, g, c, dx, dy, n + 1, flies, drills) == match v_walk(v, g, c, dx, dy, n, flies, drills) {
                None => None,
                Some(k) => match g.board.spec_offset(cn, dx, dy) {
                    None => None,
                    Some(nx) => if v_stops(v, v.terrain[nx as int], flies, drills) {
                        None
                    } else {
                        Some(k + if v.board[nx as int] >= 0 { 1nat } else { 0nat })
                    },
                },
            }
        }),
    decreases n,
{
    if n > 0 {
        let c1 = g.board.spec_offset(c, dx, dy)->0 as int;
        lemma_walk_snoc(v, g, c1, dx, dy, n - 1, flies, drills);
    } else {
        assert(ray_cell(g, c, dx, dy, 0) == Some(c as u16));
        assert(v_walk(v, g, c, dx, dy, 0, flies, drills) == Some(0nat));
        match g.board.spec_offset(c, dx, dy) {
            Some(c1) => {
                assert(ray_cell(g, c1 as int, dx, dy, 0) == Some(c1));
                assert(v_walk(v, g, c1 as int, dx, dy, 0, flies, drills) == Some(0nat));
            },
            None => {},
        }
    }
}

/// The cell `n` steps out lies `n` steps away in file and rank.
pub proof fn lemma_ray_xy(g: GameDef, c: int, dx: int, dy: int, n: int)
    requires
        g.board.valid(),
        0 <= c < g.board.spec_ncells(),
        n >= 0,
        ray_cell(g, c, dx, dy, n) is Some,
    ensures
        ({
            let cn = ray_cell(g, c, dx, dy, n)->0 as int;
            &&& 0 <= cn < g.board.spec_ncells()
            &&& g.board.spec_x(cn) == g.board.spec_x(c) + n * dx
            &&& g.board.spec_y(cn) == g.board.spec_y(c) + n * dy
        }),
    decreases n,
{
    if n > 0 {
        crate::game::lemma_offset_xy(g.board, c, dx, dy);
        let c1 = g.board.spec_offset(c, dx, dy)->0 as int;
        lemma_ray_xy(g, c1, dx, dy, n - 1);
        assert(n * dx == (n - 1) * dx + dx) by (nonlinear_arith);
        assert(n * dy == (n - 1) * dy + dy) by (nonlinear_arith);
    } else {
        assert((c as u16) as int == c) by {
            crate::game::lemma_ncells_bound(g.board);
        }
    }
}

/// A kernel's target predicate, given whether a royal piece stands on the target.
pub open spec fn target_holds(t: TargetPred, occ_royal: bool) -> bool {
    match t {
        TargetPred::Any => true,
        TargetPred::EnemyRoyal => occ_royal,
    }
}

/// Does a royal piece stand on `sq`?
pub open spec fn v_royal_on(v: PosView, g: GameDef, sq: int) -> bool {
    &&& 0 <= sq < v.board.len()
    &&& 0 <= v.board[sq] < v.pieces.len()
    &&& (v.pieces[v.board[sq] as int].t as int) < g.types@.len()
    &&& g.types@[v.pieces[v.board[sq] as int].t as int].royal
}

/// The lame-leaper leg `d` from `psq` is on the board and free for this mover.
pub open spec fn leg_clear(v: PosView, g: GameDef, psq: u16, d: Delta, flies: bool, drills: bool) -> bool {
    match g.board.spec_offset(psq as int, d.dx as int, d.dy as int) {
        Some(c) => !(v.board[c as int] >= 0 || v_stops(v, v.terrain[c as int], flies, drills)),
        None => false,
    }
}

/// The file and rank distance from `psq` to `sq`.
pub open spec fn gap_x(g: GameDef, psq: u16, sq: u16) -> int {
    g.board.spec_x(sq as int) - g.board.spec_x(psq as int)
}

pub open spec fn gap_y(g: GameDef, psq: u16, sq: u16) -> int {
    g.board.spec_y(sq as int) - g.board.spec_y(psq as int)
}

/// Leap kernel `k` of piece `i`, standing on `psq`, strikes `sq`.
pub open spec fn leap_hits(v: PosView, g: GameDef, i: int, psq: u16, sq: u16, occ_royal: bool, k: LeapK) -> bool {
    let p = v.pieces[i];
    let ty = g.types@[p.t as int];
    &&& spec_hp_gate_ok(k.min_hp, k.max_hp, v.hp[i])
    &&& k.mode.spec_can_capture()
    &&& k.d.dx == gap_x(g, psq, sq)
    &&& k.d.dy == gap_y(g, psq, sq)
    &&& target_holds(k.target, occ_royal)
    &&& g.spec_zone_ok(k.from_zone, p.side, psq)
    &&& g.spec_zone_ok(k.to_zone, p.side, sq)
    &&& forall|b: int| 0 <= b < k.blockers@.len() ==> #[trigger] leg_clear(v, g, psq, k.blockers@[b], ty.flight, ty.drill)
}

/// Ride kernel `k` of piece `i` strikes `sq`: `sq` lies a whole number of
/// steps along the ray, within range, with every cell before it empty and
/// passable.
pub open spec fn ride_hits(v: PosView, g: GameDef, i: int, psq: u16, sq: u16, occ_royal: bool, k: RideK) -> bool {
    let p = v.pieces[i];
    let ty = g.types@[p.t as int];
    &&& spec_hp_gate_ok(k.min_hp, k.max_hp, v.hp[i])
    &&& k.mode.spec_can_capture()
    &&& target_holds(k.target, occ_royal)
    &&& !(k.d.dx == 0 && k.d.dy == 0)
    &&& g.spec_zone_ok(k.from_zone, p.side, psq)
    &&& g.spec_zone_ok(k.to_zone, p.side, sq)
    &&& exists|st: int| #[trigger] steps_of(st, gap_x(g, psq, sq), gap_y(g, psq, sq), k.d.dx as int, k.d.dy as int)
        && (k.max_steps == 0 || st <= k.max_steps)
        && v_walk(v, g, psq as int, k.d.dx as int, k.d.dy as int, st - 1, ty.flight, ty.drill) == Some(0nat)
}

/// What a hop kernel needs at its landing, `st` steps out.
pub open spec fn hop_lands(v: PosView, g: GameDef, i: int, psq: u16, sq: u16, occ_royal: bool, k: HopK, st: int) -> bool {
    let p = v.pieces[i];
    let ty = g.types@[p.t as int];
    let (sx, sy) = (k.d.dx as int, k.d.dy as int);
    match k.landing {
        HopMode::CannonAtRange => {
            &&& target_holds(k.target, occ_royal)
            &&& g.spec_zone_ok(k.to_zone, p.side, sq)
            &&& v_walk(v, g, psq as int, sx, sy, st - 1, ty.flight, ty.drill) == Some(1nat)
        },
        HopMode::BeyondScreen => {
            &&& st >= 2
            &&& target_holds(k.target, occ_royal)
            &&& g.spec_zone_ok(k.to_zone, p.side, sq)
            &&& v_walk(v, g, psq as int, sx, sy, st - 2, ty.flight, ty.drill) == Some(0nat)
            &&& match g.board.spec_offset(sq as int, -sx, -sy) {
                Some(s) => v.board[s as int] >= 0 && !v_stops(v, v.terrain[s as int], ty.flight, ty.drill),
                None => false,
            }
        },
        HopMode::Locust => {
            &&& v.board[sq as int] >= 0
            &&& target_holds(k.target, occ_royal)
            &&& !v_stops(v, v.terrain[sq as int], ty.flight, ty.drill)
            &&& v_walk(v, g, psq as int, sx, sy, st - 1, ty.flight, ty.drill) == Some(0nat)
            &&& match g.board.spec_offset(sq as int, sx, sy) {
                Some(l) => v.board[l as int] < 0 && !v_stops(v, v.terrain[l as int], ty.flight, ty.drill)
                    && g.spec_zone_ok(k.to_zone, p.side, l),
                None => false,
            }
        },
    }
}

/// Hop kernel `k` of piece `i` strikes `sq`.
pub open spec fn hop_hits(v: PosView, g: GameDef, i: int, psq: u16, sq: u16, occ_royal: bool, k: HopK) -> bool {
    let p = v.pieces[i];
    &&& spec_hp_gate_ok(k.min_hp, k.max_hp, v.hp[i])
    &&& k.mode.spec_can_capture()
    &&& !(k.d.dx == 0 && k.d.dy == 0)
    &&& g.spec_zone_ok(k.from_zone, p.side, psq)
    &&& exists|st: int| #[trigger] steps_of(st, gap_x(g, psq, sq), gap_y(g, psq, sq), k.d.dx as int, k.d.dy as int)
        && hop_lands(v, g, i, psq, sq, occ_royal, k, st)
}

/// Piece `i`, standing on `psq`, strikes `sq` through one of its kernels.
pub open spec fn v_piece_attacks(v: PosView, g: GameDef, i: int, psq: u16, sq: u16, occ_royal: bool) -> bool {
    let p = v.pieces[i];
    let ck = g.compiled@[(p.t as int) * g.sides + p.side];
    ||| exists|j: int| 0 <= j < ck.leaps@.len() && #[trigger] leap_hits(v, g, i, psq, sq, occ_royal, ck.leaps@[j])
    ||| exists|j: int| 0 <= j < ck.rides@.len() && #[trigger] ride_hits(v, g, i, psq, sq, occ_royal, ck.rides@[j])
    ||| exists|j: int| 0 <= j < ck.hops@.len() && #[trigger] hop_hits(v, g, i, psq, sq, occ_royal, ck.hops@[j])
}

/// Piece `i` is one of `by`'s, on the board elsewhere than `sq`, not a
/// hologram, and strikes `sq`.
pub open spec fn attacks_from(v: PosView, g: GameDef, i: int, sq: u16, by: Side) -> bool {
    let p = v.pieces[i];
    &&& p.side == by
    &&& !g.types@[p.t as int].hologram
    &&& p.loc matches Loc::Board(psq) && psq != sq && v_piece_attacks(v, g, i, psq, sq, v_royal_on(v, g, sq as int))
}

/// Is `sq` attacked by a piece of `by`?
pub open spec fn v_attacked(v: PosView, g: GameDef, sq: u16, by: Side) -> bool {
    exists|i: int| 0 <= i < v.pieces.len() && #[trigger] attacks_from(v, g, i, sq, by)
}

/// Piece `i` is a royal of `side` on the board, attacked by another side.
pub open spec fn royal_in_check(v: PosView, g: GameDef, i: int, side: Side) -> bool {
    let p = v.pieces[i];
    &&& p.side == side
    &&& g.types@[p.t as int].royal
    &&& p.loc matches Loc::Board(psq) && exists|e: Side| e < g.sides && e != side && #[trigger] v_attacked(v, g, psq, e)
}

/// Is some royal piece of `side` attacked?
pub open spec fn v_royal_attacked(v: PosView, g: GameDef, side: Side) -> bool {
    exists|i: int| 0 <= i < v.pieces.len() && #[trigger] royal_in_check(v, g, i, side)
}

/// A ray step count is unique when the step is not null.
proof fn lemma_steps_unique(a: int, b: int, dx: int, dy: int, sx: int, sy: int)
    requires
        steps_of(a, dx, dy, sx, sy),
        steps_of(b, dx, dy, sx, sy),
        !(sx == 0 && sy == 0),
    ensures
        a == b,
{
    if sx != 0 {
        assert(a == b) by (nonlinear_arith)
            requires dx == a * sx, dx == b * sx, sx != 0;
    } else {
        assert(a == b) by (nonlinear_arith)
            requires dy == a * sy, dy == b * sy, sy != 0;
    }
}

/// Once `st` is the step count of a ray, no other count is.
proof fn no_other_steps(dx: int, dy: int, sx: int, sy: int, st: int)
    requires
        steps_of(st, dx, dy, sx, sy),
        !(sx == 0 && sy == 0),
    ensures
        forall|t: int| #[trigger] steps_of(t, dx, dy, sx, sy) ==> t == st,
{
    assert forall|t: int| #[trigger] steps_of(t, dx, dy, sx, sy) implies t == st by {
        lemma_steps_unique(t, st, dx, dy, sx, sy);
    }
}

// ---------------------------------------------------------------------
// The scan
// ---------------------------------------------------------------------

impl Position {
    /// Walk `n - 1` steps of `(dx,dy)` from `from`: `None` if a step leaves
    /// the board or meets terrain that stops the mover, else the number of
    /// occupied cells on the way.
    fn walk_between(&self, g: &GameDef, from: u16, dx: i8, dy: i8, n: i32, flies: bool, drills: bool) -> (r: Option<u32>)
        requires
            self.wf(*g),
            (from as int) < g.ncells(),
        ensures
            match r {
                Some(k) => v_walk(self@, *g, from as int, dx as int, dy as int, n - 1, flies, drills) == Some(k as nat),
                None => v_walk(self@, *g, from as int, dx as int, dy as int, n - 1, flies, drills) is None,
            },
    {
        proof { crate::game::lemma_ncells_bound(g.board); }
        let ghost v = self@;
        let mut cur = from;
        let mut i: i32 = 1;
        let mut occupied: u32 = 0;
        while i < n
            invariant
                self.wf(*g),
                v == self@,
                (cur as int) < g.ncells(),
                1 <= i,
                occupied <= i,
                v_walk(v, *g, from as int, dx as int, dy as int, n - 1, flies, drills) == match v_walk(
                    v, *g, cur as int, dx as int, dy as int, n - i, flies, drills) {
                    None => None,
                    Some(k) => Some(k + occupied as nat),
                },
            decreases n - i,
        {
            let ghost prev = cur;
            match g.board.offset(cur, dx, dy) {
                Some(c) => cur = c,
                None => { return None; },
            }
            if self.terrain_stops_at(cur, flies, drills) {
                return None;
            }
            if self.board[cur as usize] >= 0 {
                occupied += 1;
            }
            i += 1;
        }
        Some(occupied)
    }

    /// Does the piece at list index `pi` attack `sq` through one of its
    /// compiled kernels? `occ_royal`: a royal piece stands on `sq`.
    fn piece_attacks(&self, g: &GameDef, pi: usize, psq: u16, sq: u16, occ_royal: bool) -> (r: bool)
        requires
            self.wf(*g),
            pi < self.pieces@.len(),
            self.pieces@[pi as int].loc == Loc::Board(psq),
            (sq as int) < g.ncells(),
        ensures
            r == v_piece_attacks(self@, *g, pi as int, psq, sq, occ_royal),
    {
        proof {
            crate::game::lemma_ncells_bound(g.board);
            assert(piece_ok(self.pieces@[pi as int], *g));
        }
        let ghost v = self@;
        let p = self.pieces[pi];
        let ty = &g.types[p.t as usize];
        let aflies = ty.flight;
        let adrills = ty.drill;
        let ahp = self.hp[pi];
        let (tx, ty_) = g.board.xy(sq);
        let (px, py) = g.board.xy(psq);
        let dx = (tx - px) as i32;
        let dy = (ty_ - py) as i32;
        let ck = g.compiled(p.t, p.side);
        let ghost tyd = g.types@[p.t as int];
        assert(dx == gap_x(*g, psq, sq) && dy == gap_y(*g, psq, sq));
        let mut ki: usize = 0;
        while ki < ck.leaps.len()
            invariant
                self.wf(*g),
                v == self@,
                ck.wf(g.ncells()),
                (psq as int) < g.ncells(),
                (sq as int) < g.ncells(),
                pi < v.pieces.len(),
                pi < v.hp.len(),
                (p.t as int) < g.ntypes(),
                p.side < g.sides,
                p == v.pieces[pi as int],
                *ck == g.compiled@[(p.t as int) * g.sides + p.side],
                ahp == v.hp[pi as int],
                tyd == g.types@[p.t as int],
                aflies == tyd.flight,
                adrills == tyd.drill,
                dx == gap_x(*g, psq, sq),
                dy == gap_y(*g, psq, sq),
                ki <= ck.leaps@.len(),
                forall|j: int| 0 <= j < ki ==> !#[trigger] leap_hits(v, *g, pi as int, psq, sq, occ_royal, ck.leaps@[j]),
            decreases ck.leaps@.len() - ki,
        {
            let k = &ck.leaps[ki];
            ki += 1;
            if !hp_gate_ok(k.min_hp, k.max_hp, ahp) || !k.mode.can_capture()
                || k.d.dx as i32 != dx || k.d.dy as i32 != dy {
                continue;
            }
            let pred = match k.target {
                TargetPred::Any => true,
                TargetPred::EnemyRoyal => occ_royal,
            };
            if !pred || !g.zone_ok(k.from_zone, p.side, psq) || !g.zone_ok(k.to_zone, p.side, sq) {
                continue;
            }
            let mut blocked = false;
            let mut bi: usize = 0;
            while bi < k.blockers.len()
                invariant
                    self.wf(*g),
                    v == self@,
                    (psq as int) < g.ncells(),
                    bi <= k.blockers@.len(),
                    !blocked <==> forall|b: int| 0 <= b < bi ==> #[trigger] leg_clear(v, *g, psq, k.blockers@[b], aflies, adrills),
                decreases k.blockers@.len() - bi,
            {
                let b = k.blockers[bi];
                let clear = match g.board.offset(psq, b.dx, b.dy) {
                    Some(bsq) => !self.cell_obstructed_for(bsq, aflies, adrills),
                    None => false,
                };
                assert(clear == leg_clear(v, *g, psq, k.blockers@[bi as int], aflies, adrills));
                if !clear {
                    blocked = true;
                }
                bi += 1;
            }
            if !blocked {
                proof {
                    assert(leap_hits(v, *g, pi as int, psq, sq, occ_royal, ck.leaps@[ki - 1]));
                }
                return true;
            }
        }
        let mut ki: usize = 0;
        while ki < ck.rides.len()
            invariant
                self.wf(*g),
                v == self@,
                ck.wf(g.ncells()),
                (psq as int) < g.ncells(),
                (sq as int) < g.ncells(),
                -255 <= dx <= 255,
                -255 <= dy <= 255,
                pi < v.pieces.len(),
                pi < v.hp.len(),
                (p.t as int) < g.ntypes(),
                p.side < g.sides,
                p == v.pieces[pi as int],
                *ck == g.compiled@[(p.t as int) * g.sides + p.side],
                ahp == v.hp[pi as int],
                tyd == g.types@[p.t as int],
                aflies == tyd.flight,
                adrills == tyd.drill,
                dx == gap_x(*g, psq, sq),
                dy == gap_y(*g, psq, sq),
                ki <= ck.rides@.len(),
                forall|j: int| 0 <= j < ki ==> !#[trigger] ride_hits(v, *g, pi as int, psq, sq, occ_royal, ck.rides@[j]),
            decreases ck.rides@.len() - ki,
        {
            let k = &ck.rides[ki];
            ki += 1;
            let pred = match k.target {
                TargetPred::Any => true,
                TargetPred::EnemyRoyal => occ_royal,
            };
            if !hp_gate_ok(k.min_hp, k.max_hp, ahp) || !k.mode.can_capture() || !pred {
                continue;
            }
            let steps = match ray_steps(dx, dy, k.d.dx as i32, k.d.dy as i32) {
                Some(st) => st,
                None => { continue; },
            };
            if !g.zone_ok(k.from_zone, p.side, psq) || !g.zone_ok(k.to_zone, p.side, sq) {
                continue;
            }
            if k.max_steps != 0 && steps > k.max_steps as i32 {
                proof { no_other_steps(dx as int, dy as int, k.d.dx as int, k.d.dy as int, steps as int); }
                continue;
            }
            match self.walk_between(g, psq, k.d.dx, k.d.dy, steps, aflies, adrills) {
                Some(0) => {
                    proof {
                        assert(steps_of(steps as int, dx as int, dy as int, k.d.dx as int, k.d.dy as int));
                        assert(ride_hits(v, *g, pi as int, psq, sq, occ_royal, ck.rides@[ki - 1]));
                    }
                    return true;
                },
                _ => {
                    proof { no_other_steps(dx as int, dy as int, k.d.dx as int, k.d.dy as int, steps as int); }
                },
            }
        }
        let mut ki: usize = 0;
        while ki < ck.hops.len()
            invariant
                self.wf(*g),
                v == self@,
                ck.wf(g.ncells()),
                (psq as int) < g.ncells(),
                (sq as int) < g.ncells(),
                -255 <= dx <= 255,
                -255 <= dy <= 255,
                pi < v.pieces.len(),
                pi < v.hp.len(),
                (p.t as int) < g.ntypes(),
                p.side < g.sides,
                p == v.pieces[pi as int],
                *ck == g.compiled@[(p.t as int) * g.sides + p.side],
                ahp == v.hp[pi as int],
                tyd == g.types@[p.t as int],
                aflies == tyd.flight,
                adrills == tyd.drill,
                dx == gap_x(*g, psq, sq),
                dy == gap_y(*g, psq, sq),
                ki <= ck.hops@.len(),
                forall|j: int| 0 <= j < ki ==> !#[trigger] hop_hits(v, *g, pi as int, psq, sq, occ_royal, ck.hops@[j]),
            decreases ck.hops@.len() - ki,
        {
            let k = &ck.hops[ki];
            ki += 1;
            if !hp_gate_ok(k.min_hp, k.max_hp, ahp) || !k.mode.can_capture() {
                continue;
            }
            let steps = match ray_steps(dx, dy, k.d.dx as i32, k.d.dy as i32) {
                Some(st) => st,
                None => { continue; },
            };
            if !g.zone_ok(k.from_zone, p.side, psq) {
                continue;
            }
            proof { no_other_steps(dx as int, dy as int, k.d.dx as int, k.d.dy as int, steps as int); }
            let pred = match k.target {
                TargetPred::Any => true,
                TargetPred::EnemyRoyal => occ_royal,
            };
            match k.landing {
                HopMode::CannonAtRange => {
                    if !pred || !g.zone_ok(k.to_zone, p.side, sq) {
                        continue;
                    }
                    if self.walk_between(g, psq, k.d.dx, k.d.dy, steps, aflies, adrills) == Some(1u32) {
                        proof {
                            assert(steps_of(steps as int, dx as int, dy as int, k.d.dx as int, k.d.dy as int));
                            assert(hop_lands(v, *g, pi as int, psq, sq, occ_royal, *k, steps as int));
                            assert(hop_hits(v, *g, pi as int, psq, sq, occ_royal, ck.hops@[ki - 1]));
                        }
                        return true;
                    }
                },
                HopMode::BeyondScreen => {
                    if steps < 2 || !pred || !g.zone_ok(k.to_zone, p.side, sq) {
                        continue;
                    }
                    // The screen sits exactly one step short of `sq`, with
                    // everything nearer empty.
                    let nearer = self.walk_between(g, psq, k.d.dx, k.d.dy, steps - 1, aflies, adrills);
                    let screen = g.board.offset(sq, -k.d.dx, -k.d.dy);
                    if nearer == Some(0u32) {
                        match screen {
                            Some(ssq) => {
                                if self.board[ssq as usize] >= 0 && !self.terrain_stops_at(ssq, aflies, adrills) {
                                    proof {
                                        assert(steps_of(steps as int, dx as int, dy as int, k.d.dx as int, k.d.dy as int));
                                        assert(hop_lands(v, *g, pi as int, psq, sq, occ_royal, *k, steps as int));
                                        assert(hop_hits(v, *g, pi as int, psq, sq, occ_royal, ck.hops@[ki - 1]));
                                    }
                                    return true;
                                }
                            },
                            None => {},
                        }
                    }
                },
                HopMode::Locust => {
                    if self.board[sq as usize] < 0 || !pred || self.terrain_stops_at(sq, aflies, adrills) {
                        continue;
                    }
                    if self.walk_between(g, psq, k.d.dx, k.d.dy, steps, aflies, adrills) != Some(0u32) {
                        continue;
                    }
                    match g.board.offset(sq, k.d.dx, k.d.dy) {
                        Some(land) => {
                            if self.board[land as usize] < 0 && !self.terrain_stops_at(land, aflies, adrills)
                                && g.zone_ok(k.to_zone, p.side, land) {
                                proof {
                                    assert(steps_of(steps as int, dx as int, dy as int, k.d.dx as int, k.d.dy as int));
                                    assert(hop_lands(v, *g, pi as int, psq, sq, occ_royal, *k, steps as int));
                                    assert(hop_hits(v, *g, pi as int, psq, sq, occ_royal, ck.hops@[ki - 1]));
                                }
                                return true;
                            }
                        },
                        None => {},
                    }
                },
            }
        }
        false
    }

    /// Is `sq` attacked by any piece of `by`? Target predicates see the
    /// occupant of `sq`; terrain obstructs rays, screens, and lame-leaper
    /// legs; a hologram projects no threat.
    pub fn is_attacked(&self, g: &GameDef, sq: u16, by: Side) -> (r: bool)
        requires
            self.wf(*g),
            (sq as int) < g.ncells(),
        ensures
            r == v_attacked(self@, *g, sq, by),
    {
        proof { crate::game::lemma_ncells_bound(g.board); }
        let ghost v = self@;
        let occ_royal = match self.piece_at(sq) {
            Some(p) => (p.t as usize) < g.types.len() && g.types[p.t as usize].royal,
            None => false,
        };
        assert(occ_royal == v_royal_on(v, *g, sq as int));
        let mut pi: usize = 0;
        while pi < self.pieces.len()
            invariant
                self.wf(*g),
                v == self@,
                (sq as int) < g.ncells(),
                occ_royal == v_royal_on(v, *g, sq as int),
                pi <= v.pieces.len(),
                forall|j: int| 0 <= j < pi ==> !#[trigger] attacks_from(v, *g, j, sq, by),
            decreases self.pieces@.len() - pi,
        {
            let p = self.pieces[pi];
            proof { assert(piece_ok(self.pieces@[pi as int], *g)); }
            match p.loc {
                Loc::Board(psq) => {
                    if p.side == by && psq != sq && !g.types[p.t as usize].hologram {
                        if self.piece_attacks(g, pi, psq, sq, occ_royal) {
                            assert(attacks_from(v, *g, pi as int, sq, by));
                            return true;
                        }
                    }
                },
                _ => {},
            }
            pi += 1;
        }
        false
    }

    /// Is any royal piece of `side` attacked by any other side?
    pub fn royal_attacked(&self, g: &GameDef, side: Side) -> (r: bool)
        requires
            self.wf(*g),
        ensures
            r == v_royal_attacked(self@, *g, side),
    {
        let ghost v = self@;
        let mut pi: usize = 0;
        while pi < self.pieces.len()
            invariant
                self.wf(*g),
                v == self@,
                pi <= v.pieces.len(),
                forall|j: int| 0 <= j < pi ==> !#[trigger] royal_in_check(v, *g, j, side),
            decreases self.pieces@.len() - pi,
        {
            let p = self.pieces[pi];
            proof { assert(piece_ok(self.pieces@[pi as int], *g)); }
            match p.loc {
                Loc::Board(psq) => {
                    if p.side == side && g.types[p.t as usize].royal {
                        let mut e: u8 = 0;
                        while e < g.sides
                            invariant
                                self.wf(*g),
                                v == self@,
                                (psq as int) < g.ncells(),
                                pi < self.pieces@.len(),
                                self.pieces@[pi as int] == p,
                                p.side == side,
                                p.loc == Loc::Board(psq),
                                g.types@[p.t as int].royal,
                                e <= g.sides,
                                forall|f: Side| f < e && f != side ==> !#[trigger] v_attacked(v, *g, psq, f),
                            decreases g.sides - e,
                        {
                            if e != side && self.is_attacked(g, psq, e) {
                                assert(royal_in_check(v, *g, pi as int, side));
                                return true;
                            }
                            e += 1;
                        }
                    }
                },
                _ => {},
            }
            pi += 1;
        }
        false
    }
}



} // verus!
