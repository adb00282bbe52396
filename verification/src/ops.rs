//! The micro-op layer: effects and move-application scripts compose a
//! small, closed, engine-owned set of atomic micro-operations. Each op
//! mutates the position inside its own incremental-hash bracket, pushes an
//! exact-undo record onto the move's `OpLog`, and is reverted by replaying
//! the log backwards.

use vstd::prelude::*;
use crate::game::{Side, TypeId};
use crate::game::GameDef;
use crate::position::{Loc, Piece, PosView, Position};
use crate::moves::NO_SQ;
use crate::terrain_defs::{LandGate, T_NONE, T_WALL, T_PIT, T_MINE0};
use crate::game::CaptureFate;
use crate::position::view_wf;
use crate::zobrist::{keyed, lemma_full_piece, lemma_full_terrain, lemma_full_hand, lemma_full_ep, lemma_xor, lemma_xor_swap_middle};

verus! {

/// Square reference, resolved against the applying move's fields.
#[derive(Clone, Copy, PartialEq, Eq, Debug, Structural)]
pub enum SqRef {
    From,
    To,
    Aux,
    /// Midpoint of `from` and `to` (castle rook destination, the
    /// double-step's passed-over square).
    Mid,
}

/// Source pool for `PlaceFrom`.
#[derive(Clone, Copy, PartialEq, Eq, Debug, Structural)]
pub enum Pool {
    /// Shogi-style hand: enters at full HP for its type.
    Hand,
    /// The dead pool: the lowest-index dead friendly of the move's named
    /// type re-enters at 1 HP.
    Dead,
}

/// Terrain laid by `SetTerrain`. Owner-tagged kinds resolve against the
/// caster's side at apply time; `Code` lays a fixed internal code.
#[derive(Clone, Copy, PartialEq, Eq, Debug, Structural)]
pub enum TerrainKind {
    Wall,
    Pit,
    OwnerMine,
    Code(u8),
}

/// HP delta source for `HpAdd`: a literal, or the amount carried by the
/// move (`Effect::Heal(n)`).
#[derive(Clone, Copy, PartialEq, Eq, Debug, Structural)]
pub enum HpAmt {
    Lit(i16),
    FromMove,
}

/// The closed micro-op set.
#[derive(Clone, Copy, PartialEq, Eq, Debug, Structural)]
pub enum MicroOp {
    /// Relocate the piece standing at `who` to `dest`, marking it moved.
    /// `hazard` runs the landing-hazard hook afterwards. A `dest` of `Aux`
    /// no-ops when the move carries no aux square.
    Relocate { who: SqRef, dest: SqRef, hazard: bool },
    /// Strike-or-kill the occupant of `at`: HP > 1 loses 1 HP and stays;
    /// HP 1 falls per the capture fate. No-op when `at` is empty.
    CaptureAt { at: SqRef },
    /// Enter the board at the move's `to` from a source pool.
    PlaceFrom { pool: Pool, hazard: bool },
    /// Add HP to the occupant of the move's `to`; `cap` clamps at the
    /// target type's max.
    HpAdd { n: HpAmt, cap: bool },
    /// Lay terrain on the move's `to`.
    SetTerrain { kind: TerrainKind },
    /// Erode an unoccupied destructible block at the move's `to` by one tier.
    TerrainStep,
    /// Flip the occupant of the move's `to` to the caster's side (hack).
    FlipSide,
    /// Exchange the caster (at `from`) with the piece at `to`; hazards bite
    /// both (caster first).
    SwapWithCaster,
    /// Set the ephemeral one-ply marker (the en-passant square) at `at`.
    SetEphemeral { at: SqRef },
    /// Re-type the occupant of the move's `to` to the move's promotion type.
    TransformType,
}

/// Move-derived context the interpreter resolves op parameters against.
#[derive(Clone, Copy, Debug)]
pub struct OpCtx {
    pub from: u16,
    pub to: u16,
    pub aux: u16,
    /// Heal amount (`Effect::Heal(n)`); 0 otherwise.
    pub amount: i16,
    /// The caster's side (side to move at apply time).
    pub side: Side,
    /// Named type for `PlaceFrom` (drop or resurrect target type).
    pub drop_type: TypeId,
    /// Promotion target for `TransformType`.
    pub promo: Option<TypeId>,
}

/// Exact-undo record for one applied micro-op. Reverting a move replays its
/// log backwards; each record fully inverts its op's state mutation.
#[derive(Clone, Copy, Debug)]
#[allow(inconsistent_fields)]
pub enum OpUndo {
    /// A piece relocated: put it back on `from`.
    Moved { i: u32, from: u16, prior_moved: bool },
    /// Promotion/demotion of piece `i`.
    Transformed { i: u32, prior_t: TypeId },
    /// A piece fell to `CaptureAt`: restore the full prior record and
    /// un-bank the hand credit if it went to a hand.
    Captured { i: u32, prior: Piece },
    /// HP change (strike, heal, overclock self-damage, hazard bite).
    Hp { i: u32, prior: i16 },
    /// Terrain change (lay/spend/erode).
    Terrain { sq: u16, prior: u8 },
    /// Entered from a hand: return there.
    PlacedFromHand { i: u32, prior_moved: bool },
    /// Revived from the dead pool: back to `Loc::Dead`.
    PlacedFromDead { i: u32, prior_moved: bool },
    /// Hack: restore the prior side.
    Flipped { i: u32, prior_side: Side },
    /// Atomic exchange: both pieces back to their prior squares.
    Swapped { a: u32, asq: u16, am: bool, b: u32, bsq: u16, bm: bool },
    /// Killed by a landing hazard on `sq`: back from the crater.
    HazardDeath { i: u32, sq: u16 },
    /// The ephemeral marker (en-passant square) changed: restore the prior
    /// value.
    Ephemeral { prior: u16 },
}

/// Per-move undo log, in application order.
pub struct OpLog {
    recs: Vec<OpUndo>,
}

impl View for OpLog {
    type V = Seq<OpUndo>;

    closed spec fn view(&self) -> Seq<OpUndo> {
        self.recs@
    }
}

impl OpLog {
    pub fn new() -> (l: Self)
        ensures
            l@ == Seq::<OpUndo>::empty(),
    {
        OpLog { recs: Vec::new() }
    }

    pub fn push(&mut self, u: OpUndo)
        ensures
            final(self)@ == old(self)@.push(u),
    {
        self.recs.push(u);
    }

    pub fn len(&self) -> (n: usize)
        ensures
            n == self@.len(),
    {
        self.recs.len()
    }

    pub fn get(&self, k: usize) -> (u: OpUndo)
        requires
            k < self@.len(),
        ensures
            u == self@[k as int],
    {
        self.recs[k]
    }

    /// Records in reverse application order.
    pub fn rev_iter(&self) -> (r: Vec<OpUndo>)
        ensures
            r@ == self@.reverse(),
    {
        let mut out: Vec<OpUndo> = Vec::new();
        let mut k = self.recs.len();
        while k > 0
            invariant
                k <= self.recs@.len(),
                out@ == self.recs@.subrange(k as int, self.recs@.len() as int).reverse(),
            decreases k,
        {
            k -= 1;
            out.push(self.recs[k]);
            assert(out@ =~= self.recs@.subrange(k as int, self.recs@.len() as int).reverse());
        }
        assert(self.recs@.subrange(0, self.recs@.len() as int) =~= self.recs@);
        out
    }
}


// ---------------------------------------------------------------------------
// The exact inverse of each record, as spec, and its replay.
// ---------------------------------------------------------------------------

/// Put piece `i` on `sq` in a view (mailbox entry and location).
pub open spec fn v_place(v: PosView, i: int, sq: int) -> PosView {
    PosView {
        board: v.board.update(sq, i as i32),
        pieces: v.pieces.update(i, Piece { loc: Loc::Board(sq as u16), ..v.pieces[i] }),
        ..v
    }
}

/// The state one record's revert produces. Each revert reads the piece's
/// current location, so reverse-order replay is robust to later ops
/// (already reverted) having moved or killed the same piece; records whose
/// indices do not fit the state change nothing.
pub open spec fn spec_revert(v: PosView, r: OpUndo) -> PosView {
    let np = v.pieces.len();
    let nb = v.board.len();
    match r {
        OpUndo::Moved { i, from, prior_moved } => {
            if (i as int) < np && v.pieces[i as int].loc is Board
                && (v.pieces[i as int].loc->Board_0 as int) < nb && (from as int) < nb {
                let cur = v.pieces[i as int].loc->Board_0;
                let w = PosView { board: v.board.update(cur as int, -1i32), ..v };
                let w2 = v_place(w, i as int, from as int);
                PosView {
                    pieces: w2.pieces.update(i as int, Piece { moved: prior_moved, ..w2.pieces[i as int] }),
                    ..w2
                }
            } else {
                v
            }
        },
        OpUndo::Transformed { i, prior_t } => {
            if (i as int) < np {
                PosView { pieces: v.pieces.update(i as int, Piece { t: prior_t, ..v.pieces[i as int] }), ..v }
            } else {
                v
            }
        },
        OpUndo::Captured { i, prior } => {
            if (i as int) < np && prior.loc is Board && (prior.loc->Board_0 as int) < nb {
                let p = v.pieces[i as int];
                let hands = if p.loc is Hand && (p.loc->Hand_0 as int) < v.hands.len()
                    && (p.t as int) < v.hands[p.loc->Hand_0 as int].len() {
                    let s = p.loc->Hand_0 as int;
                    v.hands.update(s, v.hands[s].update(p.t as int, v.hands[s][p.t as int].wrapping_sub(1)))
                } else {
                    v.hands
                };
                PosView {
                    board: v.board.update(prior.loc->Board_0 as int, i as i32),
                    pieces: v.pieces.update(i as int, prior),
                    hands,
                    ..v
                }
            } else {
                v
            }
        },
        OpUndo::Hp { i, prior } => {
            if (i as int) < v.hp.len() {
                PosView { hp: v.hp.update(i as int, prior), ..v }
            } else {
                v
            }
        },
        OpUndo::Terrain { sq, prior } => {
            if (sq as int) < v.terrain.len() {
                PosView { terrain: v.terrain.update(sq as int, prior), ..v }
            } else {
                v
            }
        },
        OpUndo::PlacedFromHand { i, prior_moved } => {
            if (i as int) < np && v.pieces[i as int].loc is Board
                && (v.pieces[i as int].loc->Board_0 as int) < nb
                && (v.pieces[i as int].side as int) < v.hands.len()
                && (v.pieces[i as int].t as int) < v.hands[v.pieces[i as int].side as int].len() {
                let p = v.pieces[i as int];
                let s = p.side as int;
                PosView {
                    board: v.board.update(p.loc->Board_0 as int, -1i32),
                    pieces: v.pieces.update(i as int, Piece { loc: Loc::Hand(p.side), moved: prior_moved, ..p }),
                    hands: v.hands.update(s, v.hands[s].update(p.t as int, v.hands[s][p.t as int].wrapping_add(1))),
                    ..v
                }
            } else {
                v
            }
        },
        OpUndo::PlacedFromDead { i, prior_moved } => {
            if (i as int) < np && v.pieces[i as int].loc is Board
                && (v.pieces[i as int].loc->Board_0 as int) < nb {
                let p = v.pieces[i as int];
                PosView {
                    board: v.board.update(p.loc->Board_0 as int, -1i32),
                    pieces: v.pieces.update(i as int, Piece { loc: Loc::Dead, moved: prior_moved, ..p }),
                    ..v
                }
            } else {
                v
            }
        },
        OpUndo::Flipped { i, prior_side } => {
            if (i as int) < np {
                PosView { pieces: v.pieces.update(i as int, Piece { side: prior_side, ..v.pieces[i as int] }), ..v }
            } else {
                v
            }
        },
        OpUndo::Swapped { a, asq, am, b, bsq, bm } => {
            if (a as int) < np && (b as int) < np && a != b
                && v.pieces[a as int].loc is Board && v.pieces[b as int].loc is Board
                && (v.pieces[a as int].loc->Board_0 as int) < nb
                && (v.pieces[b as int].loc->Board_0 as int) < nb
                && (asq as int) < nb && (bsq as int) < nb {
                let ca = v.pieces[a as int].loc->Board_0 as int;
                let cb = v.pieces[b as int].loc->Board_0 as int;
                let board = v.board.update(ca, -1i32).update(cb, -1i32).update(asq as int, a as i32).update(bsq as int, b as i32);
                let pa = Piece { loc: Loc::Board(asq), moved: am, ..v.pieces[a as int] };
                let pb = Piece { loc: Loc::Board(bsq), moved: bm, ..v.pieces[b as int] };
                PosView { board, pieces: v.pieces.update(a as int, pa).update(b as int, pb), ..v }
            } else {
                v
            }
        },
        OpUndo::HazardDeath { i, sq } => {
            if (i as int) < np && (sq as int) < nb {
                v_place(v, i as int, sq as int)
            } else {
                v
            }
        },
        OpUndo::Ephemeral { prior } => PosView { ep: prior, ..v },
    }
}

/// Replay a record sequence backwards from `v`.
pub open spec fn revert_all(v: PosView, recs: Seq<OpUndo>) -> PosView
    decreases recs.len(),
{
    if recs.len() == 0 {
        v
    } else {
        revert_all(spec_revert(v, recs.last()), recs.drop_last())
    }
}

/// `new_log` extends `old_log`, and replaying the new records backwards from
/// `after` restores `before` (the key aside, which unmake restores from its
/// snapshot).
pub open spec fn undoes(old_log: Seq<OpUndo>, new_log: Seq<OpUndo>, before: PosView, after: PosView) -> bool {
    &&& old_log.len() <= new_log.len()
    &&& new_log.subrange(0, old_log.len() as int) == old_log
    &&& revert_all(after, new_log.subrange(old_log.len() as int, new_log.len() as int)) == before.with_hash(after.hash)
}

pub proof fn lemma_revert_keeps_hash(v: PosView, r: OpUndo, h: u64)
    ensures
        spec_revert(v.with_hash(h), r) == spec_revert(v, r).with_hash(h),
        spec_revert(v, r).hash == v.hash,
        spec_revert(v, r).stm == v.stm,
        spec_revert(v, r).cust == v.cust,
{
}

pub proof fn lemma_revert_all_hash(v: PosView, recs: Seq<OpUndo>, h: u64)
    ensures
        revert_all(v.with_hash(h), recs) == revert_all(v, recs).with_hash(h),
        revert_all(v, recs).hash == v.hash,
    decreases recs.len(),
{
    if recs.len() > 0 {
        lemma_revert_keeps_hash(v, recs.last(), h);
        lemma_revert_all_hash(spec_revert(v, recs.last()), recs.drop_last(), h);
    }
}

pub proof fn lemma_revert_all_concat(v: PosView, x: Seq<OpUndo>, y: Seq<OpUndo>)
    ensures
        revert_all(v, x + y) == revert_all(revert_all(v, y), x),
    decreases y.len(),
{
    if y.len() == 0 {
        assert(x + y =~= x);
    } else {
        assert((x + y).drop_last() =~= x + y.drop_last());
        assert((x + y).last() == y.last());
        lemma_revert_all_concat(spec_revert(v, y.last()), x, y.drop_last());
    }
}

/// Undo steps compose.
pub proof fn lemma_undoes_trans(l0: Seq<OpUndo>, l1: Seq<OpUndo>, l2: Seq<OpUndo>, a: PosView, b: PosView, c: PosView)
    requires
        undoes(l0, l1, a, b),
        undoes(l1, l2, b, c),
    ensures
        undoes(l0, l2, a, c),
{
    let s1 = l1.subrange(l0.len() as int, l1.len() as int);
    let s2 = l2.subrange(l1.len() as int, l2.len() as int);
    let s12 = l2.subrange(l0.len() as int, l2.len() as int);
    assert(l2.subrange(0, l0.len() as int) =~= l1.subrange(0, l0.len() as int)) by {
        assert(l2.subrange(0, l1.len() as int) == l1);
    }
    assert(l2.subrange(0, l1.len() as int) == l1);
    assert(s12 =~= s1 + s2) by {
        assert forall|k: int| 0 <= k < s1.len() implies s12[k] == s1[k] by {
            assert(l2.subrange(0, l1.len() as int)[l0.len() + k] == l1[l0.len() + k]);
        }
    }
    lemma_revert_all_concat(c, s1, s2);
    lemma_revert_all_hash(b, s1, c.hash);
}

/// Nothing done, nothing to undo.
pub proof fn lemma_undoes_refl(l: Seq<OpUndo>, a: PosView)
    ensures
        undoes(l, l, a, a),
{
    assert(l.subrange(0, l.len() as int) =~= l);
    assert(l.subrange(l.len() as int, l.len() as int) =~= Seq::<OpUndo>::empty());
}

/// One record, pushed onto the log, undoes one step whose revert restores
/// the earlier state.
pub proof fn lemma_undoes_push(l: Seq<OpUndo>, r: OpUndo, a: PosView, b: PosView)
    requires
        spec_revert(b, r) == a.with_hash(b.hash),
    ensures
        undoes(l, l.push(r), a, b),
{
    let l2 = l.push(r);
    assert(l2.subrange(0, l.len() as int) =~= l);
    let s = l2.subrange(l.len() as int, l2.len() as int);
    assert(s =~= seq![r]);
    assert(s.drop_last() =~= Seq::<OpUndo>::empty());
    assert(s.last() == r);
    assert(revert_all(b, s) == revert_all(spec_revert(b, r), s.drop_last()));
    assert(revert_all(spec_revert(b, r), Seq::<OpUndo>::empty()) == spec_revert(b, r));
}

impl Position {
    /// Exactly invert one op record.
    pub fn revert_op(&mut self, u: &OpUndo)
        requires
            old(self).pieces@.len() < 0x7fff_ffff,
        ensures
            final(self)@ == spec_revert(old(self)@, *u),
            final(self).hands@.len() == old(self).hands@.len(),
    {
        let np = self.pieces.len();
        let nb = self.board.len();
        match *u {
            OpUndo::Moved { i: iu, from, prior_moved } => {
                let i = iu as usize;
                if i < np {
                    if let Loc::Board(cur) = self.pieces[i].loc {
                        if (cur as usize) < nb && (from as usize) < nb {
                            self.board.set(cur as usize, -1);
                            self.board.set(from as usize, iu as i32);
                            let mut p = self.pieces[i];
                            p.loc = Loc::Board(from);
                            p.moved = prior_moved;
                            self.pieces.set(i, p);
                            assert(self@.board =~= spec_revert(old(self)@, *u).board);
                            assert(self@.pieces =~= spec_revert(old(self)@, *u).pieces);
                            assert(self@.hands =~= spec_revert(old(self)@, *u).hands);
                        }
                    }
                }
                assert(self@ =~= spec_revert(old(self)@, *u));
            },
            OpUndo::Transformed { i, prior_t } => {
                let i = i as usize;
                if i < np {
                    let mut p = self.pieces[i];
                    p.t = prior_t;
                    self.pieces.set(i, p);
                }
                assert(self@ =~= spec_revert(old(self)@, *u));
            },
            OpUndo::Captured { i: iu, prior } => {
                let i = iu as usize;
                if i < np {
                    if let Loc::Board(sq) = prior.loc {
                        if (sq as usize) < nb {
                            let p = self.pieces[i];
                            if let Loc::Hand(s) = p.loc {
                                if (s as usize) < self.hands.len() && (p.t as usize) < self.hands[s as usize].len() {
                                    let c = self.hands[s as usize][p.t as usize];
                                    self.set_hand(s as usize, p.t as usize, c.wrapping_sub(1));
                                }
                            }
                            self.pieces.set(i, prior);
                            self.board.set(sq as usize, iu as i32);
                        }
                    }
                }
                assert(self@ =~= spec_revert(old(self)@, *u));
            },
            OpUndo::Hp { i, prior } => {
                if (i as usize) < self.hp.len() {
                    self.hp.set(i as usize, prior);
                }
                assert(self@ =~= spec_revert(old(self)@, *u));
            },
            OpUndo::Terrain { sq, prior } => {
                if (sq as usize) < self.terrain.len() {
                    self.terrain.set(sq as usize, prior);
                }
                assert(self@ =~= spec_revert(old(self)@, *u));
            },
            OpUndo::PlacedFromHand { i, prior_moved } => {
                let i = i as usize;
                if i < np {
                    let p = self.pieces[i];
                    if let Loc::Board(sq) = p.loc {
                        if (sq as usize) < nb && (p.side as usize) < self.hands.len()
                            && (p.t as usize) < self.hands[p.side as usize].len() {
                            self.board.set(sq as usize, -1);
                            self.pieces.set(i, Piece { loc: Loc::Hand(p.side), moved: prior_moved, ..p });
                            let c = self.hands[p.side as usize][p.t as usize];
                            self.set_hand(p.side as usize, p.t as usize, c.wrapping_add(1));
                        }
                    }
                }
                assert(self@ =~= spec_revert(old(self)@, *u));
            },
            OpUndo::PlacedFromDead { i, prior_moved } => {
                let i = i as usize;
                if i < np {
                    let p = self.pieces[i];
                    if let Loc::Board(sq) = p.loc {
                        if (sq as usize) < nb {
                            self.board.set(sq as usize, -1);
                            self.pieces.set(i, Piece { loc: Loc::Dead, moved: prior_moved, ..p });
                        }
                    }
                }
                assert(self@ =~= spec_revert(old(self)@, *u));
            },
            OpUndo::Flipped { i, prior_side } => {
                let i = i as usize;
                if i < np {
                    let p = self.pieces[i];
                    self.pieces.set(i, Piece { side: prior_side, ..p });
                }
                assert(self@ =~= spec_revert(old(self)@, *u));
            },
            OpUndo::Swapped { a: au, asq, am, b: bu, bsq, bm } => {
                let (a, b) = (au as usize, bu as usize);
                if a < np && b < np && a != b && (asq as usize) < nb && (bsq as usize) < nb {
                    let pa = self.pieces[a];
                    let pb = self.pieces[b];
                    if let (Loc::Board(ca), Loc::Board(cb)) = (pa.loc, pb.loc) {
                        if (ca as usize) < nb && (cb as usize) < nb {
                            self.board.set(ca as usize, -1);
                            self.board.set(cb as usize, -1);
                            self.board.set(asq as usize, au as i32);
                            self.board.set(bsq as usize, bu as i32);
                            self.pieces.set(a, Piece { loc: Loc::Board(asq), moved: am, ..pa });
                            self.pieces.set(b, Piece { loc: Loc::Board(bsq), moved: bm, ..pb });
                        }
                    }
                }
                assert(self@ =~= spec_revert(old(self)@, *u));
            },
            OpUndo::HazardDeath { i: iu, sq } => {
                let i = iu as usize;
                if i < np && (sq as usize) < nb {
                    self.board.set(sq as usize, iu as i32);
                    let p = self.pieces[i];
                    self.pieces.set(i, Piece { loc: Loc::Board(sq), ..p });
                }
                assert(self@ =~= spec_revert(old(self)@, *u));
            },
            OpUndo::Ephemeral { prior } => self.ep = prior,
        }
        assert(self@.hands =~= spec_revert(old(self)@, *u).hands);
        assert(self@ =~= spec_revert(old(self)@, *u));
    }

    /// Set one hand count.
    pub fn set_hand(&mut self, s: usize, t: usize, c: u8)
        requires
            s < old(self).hands@.len(),
            t < old(self).hands@[s as int]@.len(),
        ensures
            final(self)@ == (PosView {
                hands: old(self)@.hands.update(s as int, old(self)@.hands[s as int].update(t as int, c)),
                ..old(self)@
            }),
            final(self).hands@.len() == old(self).hands@.len(),
    {
        self.hands[s][t] = c;
        assert(self@.hands =~= old(self)@.hands.update(s as int, old(self)@.hands[s as int].update(t as int, c)));
    }
}


/// One op application: the state stays well formed, the log extension
/// undoes the step exactly, the side to move is untouched, and a key that
/// was the ground-truth key stays so.
pub open spec fn op_step(g: GameDef, b: PosView, a: PosView, l0: Seq<OpUndo>, l1: Seq<OpUndo>) -> bool {
    &&& crate::position::view_wf(a, g)
    &&& undoes(l0, l1, b, a)
    &&& a.stm == b.stm
    &&& a.pieces.len() == b.pieces.len()
    &&& (keyed(g.zobrist, b) ==> keyed(g.zobrist, a))
}

pub proof fn lemma_op_step_trans(g: GameDef, a: PosView, b: PosView, c: PosView, l0: Seq<OpUndo>, l1: Seq<OpUndo>, l2: Seq<OpUndo>)
    requires
        op_step(g, a, b, l0, l1),
        op_step(g, b, c, l1, l2),
    ensures
        op_step(g, a, c, l0, l2),
{
    lemma_undoes_trans(l0, l1, l2, a, b, c);
}

pub proof fn lemma_op_step_refl(g: GameDef, a: PosView, l: Seq<OpUndo>)
    requires
        crate::position::view_wf(a, g),
    ensures
        op_step(g, a, a, l, l),
{
    lemma_undoes_refl(l, a);
}


/// A piece bracket keeps the key true: it loses piece `i`'s old
/// contribution and gains the new one.
proof fn lemma_bracket_piece(g: GameDef, v0: PosView, a: PosView, i: int, h1: u64)
    requires
        0 <= i < v0.pieces.len(),
        h1 == v0.hash ^ g.zobrist.piece_contrib(v0, i),
        a.hash == h1 ^ g.zobrist.piece_contrib(a, i),
        a.pieces.len() == v0.pieces.len(),
        a.hp.len() == v0.hp.len(),
        forall|j: int| 0 <= j < v0.pieces.len() && j != i ==> a.pieces[j] == v0.pieces[j] && a.hp[j] == v0.hp[j],
        a.terrain == v0.terrain,
        a.hands == v0.hands,
        a.stm == v0.stm,
        a.ep == v0.ep,
    ensures
        keyed(g.zobrist, v0) ==> keyed(g.zobrist, a),
{
    lemma_full_piece(g.zobrist, v0, a, i);
    lemma_xor(v0.hash, g.zobrist.piece_contrib(v0, i), g.zobrist.piece_contrib(a, i));
}

/// A terrain bracket keeps the key true.
proof fn lemma_bracket_terrain(g: GameDef, v0: PosView, a: PosView, sq: int, h1: u64)
    requires
        g.wf(),
        0 <= sq < g.ncells(),
        h1 == v0.hash ^ g.zobrist.spec_terrain_key(v0.terrain[sq], sq),
        a.hash == h1 ^ g.zobrist.spec_terrain_key(a.terrain[sq], sq),
        a.pieces == v0.pieces,
        a.hp == v0.hp,
        forall|j: int| 0 <= j < g.ncells() && j != sq ==> a.terrain[j] == v0.terrain[j],
        a.hands == v0.hands,
        a.stm == v0.stm,
        a.ep == v0.ep,
    ensures
        keyed(g.zobrist, v0) ==> keyed(g.zobrist, a),
{
    lemma_full_terrain(g.zobrist, v0, a, sq);
    lemma_xor(v0.hash, g.zobrist.spec_terrain_key(v0.terrain[sq], sq), g.zobrist.spec_terrain_key(a.terrain[sq], sq));
}

/// A hand bracket keeps the key true.
proof fn lemma_bracket_hand(g: GameDef, v0: PosView, a: PosView, s: int, t: int, h1: u64)
    requires
        g.wf(),
        0 <= s < g.sides,
        0 <= t < g.ntypes(),
        h1 == v0.hash ^ g.zobrist.spec_hand_key(s, t, v0.hands[s][t] as int),
        a.hash == h1 ^ g.zobrist.spec_hand_key(s, t, a.hands[s][t] as int),
        a.pieces == v0.pieces,
        a.hp == v0.hp,
        a.terrain == v0.terrain,
        forall|q: int| 0 <= q < g.sides && q != s ==> a.hands[q] == v0.hands[q],
        forall|j: int| 0 <= j < g.ntypes() && j != t ==> a.hands[s][j] == v0.hands[s][j],
        a.stm == v0.stm,
        a.ep == v0.ep,
    ensures
        keyed(g.zobrist, v0) ==> keyed(g.zobrist, a),
{
    lemma_full_hand(g.zobrist, v0, a, s, t);
    lemma_xor(v0.hash, g.zobrist.spec_hand_key(s, t, v0.hands[s][t] as int), g.zobrist.spec_hand_key(s, t, a.hands[s][t] as int));
}

/// An en-passant bracket keeps the key true.
proof fn lemma_bracket_ep(g: GameDef, v0: PosView, a: PosView, h1: u64)
    requires
        h1 == v0.hash ^ g.zobrist.spec_ep_key(v0.ep),
        a.hash == h1 ^ g.zobrist.spec_ep_key(a.ep),
        a.pieces == v0.pieces,
        a.hp == v0.hp,
        a.terrain == v0.terrain,
        a.hands == v0.hands,
        a.stm == v0.stm,
    ensures
        keyed(g.zobrist, v0) ==> keyed(g.zobrist, a),
{
    lemma_full_ep(g.zobrist, v0, a);
    lemma_xor(v0.hash, g.zobrist.spec_ep_key(v0.ep), g.zobrist.spec_ep_key(a.ep));
}

impl Position {
    pub fn xor_piece(&mut self, g: &GameDef, i: usize)
        requires
            g.wf(),
            i < old(self).pieces@.len(),
            old(self).hp@.len() == old(self).pieces@.len(),
            crate::position::piece_ok(old(self).pieces@[i as int], *g),
        ensures
            final(self)@ == old(self)@.with_hash(final(self).hash),
            final(self).hash == old(self).hash ^ g.zobrist.piece_contrib(old(self)@, i as int),
    {
        proof { lemma_xor(self.hash, 0, 0); }
        if let Loc::Board(sq) = self.pieces[i].loc {
            let p = self.pieces[i];
            let k = g.zobrist.piece_key(p.t as usize, p.side as usize, p.moved, self.hp[i], sq as usize);
            self.hash = self.hash ^ k;
        }
    }

    pub fn xor_hand(&mut self, g: &GameDef, s: usize, t: usize)
        requires
            g.wf(),
            s < g.sides,
            t < g.ntypes(),
            s < old(self).hands@.len(),
            t < old(self).hands@[s as int]@.len(),
        ensures
            final(self)@ == old(self)@.with_hash(final(self).hash),
            final(self).hash == old(self).hash ^ g.zobrist.spec_hand_key(s as int, t as int, old(self)@.hands[s as int][t as int] as int),
    {
        let c = self.hands[s][t];
        let k = g.zobrist.hand_key(s, t, c as usize);
        self.hash = self.hash ^ k;
    }

    pub fn xor_terrain(&mut self, g: &GameDef, sq: u16)
        requires
            g.wf(),
            (sq as int) < g.ncells(),
            (sq as int) < old(self).terrain@.len(),
        ensures
            final(self)@ == old(self)@.with_hash(final(self).hash),
            final(self).hash == old(self).hash ^ g.zobrist.spec_terrain_key(old(self)@.terrain[sq as int], sq as int),
    {
        let k = g.zobrist.terrain_key(self.terrain[sq as usize], sq as usize);
        self.hash = self.hash ^ k;
    }

    /// Relocate piece `i` from wherever it stands to `to`, marking it moved;
    /// `promo` fuses a type transform into the same hash bracket. A piece
    /// off the board, or a destination held by another piece, leaves the
    /// position as it was.
    pub fn op_relocate_promo(&mut self, g: &GameDef, i: usize, to: u16, promo: Option<TypeId>, log: &mut OpLog)
        requires
            old(self).wf(*g),
            i < old(self).pieces@.len(),
            (to as int) < g.ncells(),
            promo matches Some(t) ==> (t as int) < g.ntypes(),
        ensures
            final(self)@.plain() == spec_relocate(old(self)@.plain(), i as int, to, promo),
            op_step(*g, old(self)@, final(self)@, old(log)@, final(log)@),
            ({
                let p = old(self).pieces@[i as int];
                if p.loc is Board && (old(self).board@[to as int] == -1 || p.loc == Loc::Board(to)) {
                    &&& final(self).pieces@[i as int] == (Piece {
                        loc: Loc::Board(to),
                        moved: true,
                        t: match promo { Some(t) => t, None => p.t },
                        ..p
                    })
                    &&& final(self).board@ == old(self).board@.update(p.loc->Board_0 as int, -1i32).update(to as int, i as i32)
                    &&& final(self).pieces@ == old(self).pieces@.update(i as int, final(self).pieces@[i as int])
                    &&& final(self)@.hp == old(self)@.hp
                    &&& final(self)@.terrain == old(self)@.terrain
                    &&& final(self)@.hands == old(self)@.hands
                    &&& final(self)@.ep == old(self)@.ep
                } else {
                    final(self)@ == old(self)@ && final(log)@ == old(log)@
                }
            }),
    {
        let ghost v0 = self@;
        let ghost l0 = log@;
        let p = self.pieces[i];
        if let Loc::Board(from) = p.loc {
            if self.board[to as usize] == -1 || to == from {
                proof { crate::game::lemma_ncells_bound(g.board); }
                log.push(OpUndo::Moved { i: i as u32, from, prior_moved: p.moved });
                self.xor_piece(g, i);
                let ghost h1 = self.hash;
                let ghost v1 = self@;
                self.board.set(from as usize, -1);
                self.board.set(to as usize, i as i32);
                let mut q = p;
                q.loc = Loc::Board(to);
                q.moved = true;
                if let Some(pt) = promo {
                    log.push(OpUndo::Transformed { i: i as u32, prior_t: p.t });
                    q.t = pt;
                }
                self.pieces.set(i, q);
                proof {
                    crate::position::lemma_move_wf(v1, *g, i as int, from as int, to as int, q);
                    assert(self@ =~= crate::position::v_move(v1, i as int, from as int, to as int, q));
                }
                self.xor_piece(g, i);
                proof {
                    let a = self@;
                    assert(crate::position::view_wf(a, *g));
                    lemma_bracket_piece(*g, v0, a, i as int, h1);
                    assert(v0.board[from as int] == i) by {
                        assert(crate::position::on_board_at(v0.pieces[i as int], v0.board, i as int));
                    }
                    let mid = PosView { pieces: a.pieces.update(i as int, Piece { t: p.t, ..a.pieces[i as int] }), ..a };
                    let r1 = OpUndo::Moved { i: i as u32, from, prior_moved: p.moved };
                    let back = spec_revert(mid, r1);
                    assert(back.board =~= v0.board);
                    assert(back.pieces =~= v0.pieces);
                    assert(back =~= v0.with_hash(a.hash));
                    if let Some(pt) = promo {
                        let r2 = OpUndo::Transformed { i: i as u32, prior_t: p.t };
                        assert(spec_revert(a, r2) =~= mid);
                        lemma_undoes_push(l0, r1, v0, mid);
                        lemma_undoes_push(l0.push(r1), r2, mid, a);
                        lemma_undoes_trans(l0, l0.push(r1), l0.push(r1).push(r2), v0, mid, a);
                    } else {
                        assert(a.pieces[i as int] == q);
                        assert(mid.pieces =~= a.pieces);
                        assert(mid =~= a);
                        lemma_undoes_push(l0, r1, v0, a);
                    }
                }
                return;
            }
        }
        proof { lemma_op_step_refl(*g, v0, l0); }
    }
}


/// HP after adding `n` to `hp` (held to the `i16` range), clamped at `max`
/// when `cap` is set.
pub open spec fn spec_hp_after(hp: i16, n: i16, cap: bool, max: i16) -> i16 {
    let s = hp + n;
    let v: int = if s > 32767 { 32767 } else if s < -32768 { -32768 } else { s };
    (if cap && v > max { max as int } else { v }) as i16
}

pub fn hp_after(hp: i16, n: i16, cap: bool, max: i16) -> (r: i16)
    ensures
        r == spec_hp_after(hp, n, cap, max),
{
    let s: i32 = hp as i32 + n as i32;
    let v: i16 = if s > 32767 { 32767 } else if s < -32768 { -32768 } else { s as i16 };
    if cap && v > max { max } else { v }
}

impl Position {
    /// Add HP to piece `i` (heal `+n` clamped at the type max when `cap`,
    /// or raw damage), inside its hash bracket.
    pub fn op_hp_add(&mut self, g: &GameDef, i: usize, n: i16, cap: bool, log: &mut OpLog)
        requires
            old(self).wf(*g),
            i < old(self).pieces@.len(),
        ensures
            final(self)@.plain() == spec_hp_add(*g, old(self)@.plain(), i as int, n, cap),
            op_step(*g, old(self)@, final(self)@, old(log)@, final(log)@),
            final(self)@ == (PosView {
                hp: old(self)@.hp.update(i as int, spec_hp_after(old(self)@.hp[i as int], n, cap,
                    g.types@[old(self)@.pieces[i as int].t as int].max_hp)),
                hash: final(self).hash,
                ..old(self)@
            }),
    {
        let ghost v0 = self@;
        let ghost l0 = log@;
        let r = OpUndo::Hp { i: i as u32, prior: self.hp[i] };
        log.push(r);
        self.xor_piece(g, i);
        let ghost h1 = self.hash;
        let t = self.pieces[i].t;
        let v = hp_after(self.hp[i], n, cap, g.types[t as usize].max_hp);
        self.hp.set(i, v);
        proof {
            assert(self@ =~= PosView { hp: v0.hp.update(i as int, v), hash: self.hash, ..v0 });
        }
        self.xor_piece(g, i);
        proof {
            let a = self@;
            assert(a =~= PosView { hp: v0.hp.update(i as int, v), hash: a.hash, ..v0 });
            lemma_bracket_piece(*g, v0, a, i as int, h1);
            assert(spec_revert(a, r) =~= v0.with_hash(a.hash));
            lemma_undoes_push(l0, r, v0, a);
        }
    }

    /// Lay or clear terrain at `sq` inside a terrain hash bracket.
    pub fn op_set_terrain(&mut self, g: &GameDef, sq: u16, t: u8, log: &mut OpLog)
        requires
            old(self).wf(*g),
            (sq as int) < g.ncells(),
        ensures
            final(self)@.plain() == spec_set_terrain(old(self)@.plain(), sq, t),
            op_step(*g, old(self)@, final(self)@, old(log)@, final(log)@),
            final(self)@ == (PosView {
                terrain: old(self)@.terrain.update(sq as int, t),
                hash: final(self).hash,
                ..old(self)@
            }),
    {
        let ghost v0 = self@;
        let ghost l0 = log@;
        let r = OpUndo::Terrain { sq, prior: self.terrain[sq as usize] };
        log.push(r);
        self.xor_terrain(g, sq);
        let ghost h1 = self.hash;
        self.terrain.set(sq as usize, t);
        self.xor_terrain(g, sq);
        proof {
            let a = self@;
            assert(a =~= PosView { terrain: v0.terrain.update(sq as int, t), hash: a.hash, ..v0 });
            lemma_bracket_terrain(*g, v0, a, sq as int, h1);
            assert(spec_revert(a, r) =~= v0.with_hash(a.hash));
            lemma_undoes_push(l0, r, v0, a);
        }
    }

    /// Block erosion: an unoccupied destructible block drops one tier (tier
    /// 1 clears to bare floor); anything else is a no-op — a piece standing
    /// inside the block shields it.
    pub fn op_terrain_step(&mut self, g: &GameDef, sq: u16, log: &mut OpLog)
        requires
            old(self).wf(*g),
            (sq as int) < g.ncells(),
        ensures
            final(self)@.plain() == spec_terrain_step(*g, old(self)@.plain(), sq),
            op_step(*g, old(self)@, final(self)@, old(log)@, final(log)@),
            ({
                let t = old(self)@.terrain[sq as int];
                if old(self)@.board[sq as int] < 0 && g.spec_terrain_is_block(t) {
                    final(self)@ == (PosView {
                        terrain: old(self)@.terrain.update(sq as int, g.spec_terrain_erode(t)),
                        hash: final(self).hash,
                        ..old(self)@
                    })
                } else {
                    final(self)@ == old(self)@
                }
            }),
    {
        let t = self.terrain[sq as usize];
        if self.board[sq as usize] >= 0 || !g.terrain_is_block(t) {
            proof { lemma_op_step_refl(*g, self@, log@); }
            return;
        }
        let e = g.terrain_erode(t);
        self.op_set_terrain(g, sq, e, log);
    }

    /// Re-type piece `i` inside its own hash bracket.
    pub fn op_transform_type(&mut self, g: &GameDef, i: usize, t: TypeId, log: &mut OpLog)
        requires
            old(self).wf(*g),
            i < old(self).pieces@.len(),
            (t as int) < g.ntypes(),
        ensures
            final(self)@.plain() == spec_transform(old(self)@.plain(), i as int, t),
            op_step(*g, old(self)@, final(self)@, old(log)@, final(log)@),
            final(self)@ == (PosView {
                pieces: old(self)@.pieces.update(i as int, Piece { t, ..old(self)@.pieces[i as int] }),
                hash: final(self).hash,
                ..old(self)@
            }),
    {
        let ghost v0 = self@;
        let ghost l0 = log@;
        let p = self.pieces[i];
        let r = OpUndo::Transformed { i: i as u32, prior_t: p.t };
        log.push(r);
        self.xor_piece(g, i);
        let ghost h1 = self.hash;
        let q = Piece { t, ..p };
        self.pieces.set(i, q);
        proof {
            crate::position::lemma_retag_wf(v0.with_hash(self.hash), *g, i as int, q);
            assert(self@ =~= PosView { pieces: v0.pieces.update(i as int, q), hash: self.hash, ..v0 });
        }
        self.xor_piece(g, i);
        proof {
            let a = self@;
            assert(a =~= PosView { pieces: v0.pieces.update(i as int, q), hash: a.hash, ..v0 });
            lemma_bracket_piece(*g, v0, a, i as int, h1);
            assert(spec_revert(a, r) =~= v0.with_hash(a.hash));
            lemma_undoes_push(l0, r, v0, a);
        }
    }

    /// Hack: flip the occupant of `sq` to `side`; an empty square is left
    /// alone.
    pub fn op_flip_side(&mut self, g: &GameDef, sq: u16, side: Side, log: &mut OpLog)
        requires
            old(self).wf(*g),
            (sq as int) < g.ncells(),
            side < g.sides,
        ensures
            final(self)@.plain() == spec_flip(old(self)@.plain(), sq, side),
            op_step(*g, old(self)@, final(self)@, old(log)@, final(log)@),
            ({
                let e = old(self)@.board[sq as int];
                if e >= 0 {
                    final(self)@ == (PosView {
                        pieces: old(self)@.pieces.update(e as int, Piece { side, ..old(self)@.pieces[e as int] }),
                        hash: final(self).hash,
                        ..old(self)@
                    })
                } else {
                    final(self)@ == old(self)@
                }
            }),
    {
        let ghost v0 = self@;
        let ghost l0 = log@;
        let e = self.board[sq as usize];
        if e < 0 {
            proof { lemma_op_step_refl(*g, v0, l0); }
            return;
        }
        let ti = e as usize;
        let p = self.pieces[ti];
        let r = OpUndo::Flipped { i: ti as u32, prior_side: p.side };
        log.push(r);
        self.xor_piece(g, ti);
        let ghost h1 = self.hash;
        let q = Piece { side, ..p };
        self.pieces.set(ti, q);
        proof {
            crate::position::lemma_retag_wf(v0.with_hash(self.hash), *g, ti as int, q);
            assert(self@ =~= PosView { pieces: v0.pieces.update(ti as int, q), hash: self.hash, ..v0 });
        }
        self.xor_piece(g, ti);
        proof {
            let a = self@;
            assert(a =~= PosView { pieces: v0.pieces.update(ti as int, q), hash: a.hash, ..v0 });
            lemma_bracket_piece(*g, v0, a, ti as int, h1);
            assert(spec_revert(a, r) =~= v0.with_hash(a.hash));
            lemma_undoes_push(l0, r, v0, a);
        }
    }

    /// Clear an expiring ephemeral marker before a move's script runs; no-op
    /// when no marker is live.
    pub fn op_clear_ephemeral(&mut self, g: &GameDef, log: &mut OpLog)
        requires
            old(self).wf(*g),
        ensures
            final(self)@.plain() == spec_set_ep(old(self)@.plain(), NO_SQ),
            op_step(*g, old(self)@, final(self)@, old(log)@, final(log)@),
            final(self)@ == (PosView { ep: NO_SQ, hash: final(self).hash, ..old(self)@ }),
    {
        let ghost v0 = self@;
        let ghost l0 = log@;
        if self.ep == NO_SQ {
            proof { lemma_op_step_refl(*g, v0, l0); }
            return;
        }
        let r = OpUndo::Ephemeral { prior: self.ep };
        log.push(r);
        let k = g.zobrist.ep_key(self.ep);
        self.hash = self.hash ^ k;
        self.ep = NO_SQ;
        proof {
            let a = self@;
            assert(g.zobrist.spec_ep_key(NO_SQ) == 0) by {
                crate::zobrist::lemma_ep_key_none(g.zobrist);
            }
            lemma_xor(a.hash, 0, 0);
            lemma_bracket_ep(*g, v0, a, a.hash);
            assert(spec_revert(a, r) =~= v0.with_hash(a.hash));
            lemma_undoes_push(l0, r, v0, a);
        }
    }

    /// Lay the one-ply marker at `sq` inside its own hash bracket.
    pub fn op_set_ephemeral(&mut self, g: &GameDef, sq: u16, log: &mut OpLog)
        requires
            old(self).wf(*g),
            sq == NO_SQ || (sq as int) < g.ncells(),
        ensures
            final(self)@.plain() == spec_set_ep(old(self)@.plain(), sq),
            op_step(*g, old(self)@, final(self)@, old(log)@, final(log)@),
            final(self)@ == (PosView { ep: sq, hash: final(self).hash, ..old(self)@ }),
    {
        let ghost v0 = self@;
        let ghost l0 = log@;
        let r = OpUndo::Ephemeral { prior: self.ep };
        log.push(r);
        let k0 = g.zobrist.ep_key(self.ep);
        self.hash = self.hash ^ k0;
        let ghost h1 = self.hash;
        self.ep = sq;
        let k1 = g.zobrist.ep_key(self.ep);
        self.hash = self.hash ^ k1;
        proof {
            let a = self@;
            lemma_bracket_ep(*g, v0, a, h1);
            assert(spec_revert(a, r) =~= v0.with_hash(a.hash));
            lemma_undoes_push(l0, r, v0, a);
        }
    }
}


/// The state after piece `i` on `sq` falls per the game's capture fate:
/// destroyed pieces go dead; a hand fate re-types the piece to its base,
/// hands it to the capturing side and banks the count.
pub open spec fn spec_kill(g: GameDef, v: PosView, i: int, sq: int) -> PosView {
    let p = v.pieces[i];
    match g.policy.capture_fate {
        CaptureFate::Destroy => PosView {
            board: v.board.update(sq, -1i32),
            pieces: v.pieces.update(i, Piece { loc: Loc::Dead, ..p }),
            ..v
        },
        CaptureFate::ToHand => PosView {
            board: v.board.update(sq, -1i32),
            pieces: v.pieces.update(i, Piece { t: p.base, side: v.stm, loc: Loc::Hand(v.stm), ..p }),
            hands: v.hands.update(v.stm as int, v.hands[v.stm as int].update(p.base as int,
                v.hands[v.stm as int][p.base as int].wrapping_add(1))),
            ..v
        },
    }
}

/// A hand count changes; the state stays well formed.
pub proof fn lemma_hand_count_wf(v: PosView, g: GameDef, s: int, t: int, c: u8)
    requires
        view_wf(v, g),
        0 <= s < g.sides,
        0 <= t < g.ntypes(),
    ensures
        view_wf(PosView { hands: v.hands.update(s, v.hands[s].update(t, c)), ..v }, g),
{
    let w = PosView { hands: v.hands.update(s, v.hands[s].update(t, c)), ..v };
    assert forall|q: int| 0 <= q < g.sides implies (#[trigger] w.hands[q]).len() == g.ntypes() by {
        assert(v.hands[q].len() == g.ntypes());
    }
}

impl Position {
    /// Strike-or-kill the occupant of `sq`: HP > 1 loses one HP and stays;
    /// otherwise the piece falls per the capture fate. Returns whether the
    /// square was emptied; a strike or an empty square is `false`.
    pub fn op_capture_at(&mut self, g: &GameDef, sq: u16, log: &mut OpLog) -> (killed: bool)
        requires
            old(self).wf(*g),
            (sq as int) < g.ncells(),
        ensures
            killed == spec_capture_kills(old(self)@, sq as int),
            final(self)@.plain() == spec_capture(*g, old(self)@.plain(), sq as int),
            op_step(*g, old(self)@, final(self)@, old(log)@, final(log)@),
            ({
                let e = old(self)@.board[sq as int];
                &&& killed == (e >= 0 && old(self)@.hp[e as int] <= 1)
                &&& e < 0 ==> final(self)@ == old(self)@
                &&& (e >= 0 && old(self)@.hp[e as int] > 1) ==> final(self)@ == (PosView {
                    hp: old(self)@.hp.update(e as int, (old(self)@.hp[e as int] - 1) as i16),
                    hash: final(self).hash,
                    ..old(self)@
                })
                &&& killed ==> final(self)@ == spec_kill(*g, old(self)@, e as int, sq as int).with_hash(final(self).hash)
            }),
    {
        let ghost v0 = self@;
        let ghost l0 = log@;
        proof { crate::game::lemma_ncells_bound(g.board); }
        let e = self.board[sq as usize];
        if e < 0 {
            proof { lemma_op_step_refl(*g, v0, l0); }
            return false;
        }
        let ci = e as usize;
        if self.hp[ci] > 1 {
            self.op_hp_add(g, ci, -1, false, log);
            return false;
        }
        let prior = self.pieces[ci];
        assert(prior.loc == Loc::Board(sq));
        let r = OpUndo::Captured { i: ci as u32, prior };
        log.push(r);
        self.xor_piece(g, ci);
        let ghost h1 = self.hash;
        let ghost v1 = self@;
        self.board.set(sq as usize, -1);
        match g.policy.capture_fate {
            CaptureFate::Destroy => {
                let q = Piece { loc: Loc::Dead, ..prior };
                self.pieces.set(ci, q);
                proof {
                    crate::position::lemma_remove_wf(v1, *g, ci as int, sq as int, q);
                    assert(self@ =~= crate::position::v_remove(v1, ci as int, sq as int, q));
                    lemma_xor(h1, 0, 0);
                    lemma_bracket_piece(*g, v0, self@, ci as int, h1);
                }
            },
            CaptureFate::ToHand => {
                let stm = self.stm;
                let q = Piece { t: prior.base, side: stm, loc: Loc::Hand(stm), ..prior };
                self.pieces.set(ci, q);
                proof {
                    crate::position::lemma_remove_wf(v1, *g, ci as int, sq as int, q);
                    assert(self@ =~= crate::position::v_remove(v1, ci as int, sq as int, q));
                }
                assert(view_wf(self@, *g));
                assert(crate::position::piece_ok(v0.pieces[ci as int], *g));
                assert(self@.hands[stm as int].len() == g.ntypes());
                assert(self@.hands[stm as int] == self.hands@[stm as int]@);
                assert((prior.base as int) < g.ntypes());
                assert((prior.base as int) < self.hands@[stm as int]@.len());
                let ghost w = self@;
                proof {
                    lemma_xor(h1, 0, 0);
                    lemma_bracket_piece(*g, v0, w, ci as int, h1);
                }
                self.xor_hand(g, stm as usize, prior.base as usize);
                let ghost h2 = self.hash;
                assert(self@.hands[stm as int] == self.hands@[stm as int]@);
                let c = self.hands[stm as usize][prior.base as usize];
                proof { lemma_hand_count_wf(self@, *g, stm as int, prior.base as int, c.wrapping_add(1)); }
                self.set_hand(stm as usize, prior.base as usize, c.wrapping_add(1));
                assert(self@.hands[stm as int] == self.hands@[stm as int]@);
                self.xor_hand(g, stm as usize, prior.base as usize);
                proof {
                    lemma_bracket_hand(*g, w, self@, stm as int, prior.base as int, h2);
                }
            },
        }
        proof {
            let a = self@;
            assert(a =~= spec_kill(*g, v0, ci as int, sq as int).with_hash(a.hash));
            assert(crate::position::on_board_at(v0.pieces[ci as int], v0.board, ci as int));
            let back = spec_revert(a, r);
            assert(back.board =~= v0.board);
            assert(back.pieces =~= v0.pieces);
            if g.policy.capture_fate == CaptureFate::ToHand {
                assert(back.hands[v0.stm as int] =~= v0.hands[v0.stm as int]);
            }
            assert(back.hands =~= v0.hands);
            assert(back =~= v0.with_hash(a.hash));
            lemma_undoes_push(l0, r, v0, a);
        }
        true
    }

    /// Enter piece `i` from its hand onto the empty `to` at full HP for its
    /// type (a shogi drop).
    pub fn op_place_from_hand(&mut self, g: &GameDef, i: usize, to: u16, log: &mut OpLog)
        requires
            old(self).wf(*g),
            i < old(self).pieces@.len(),
            old(self).pieces@[i as int].loc is Hand,
            (to as int) < g.ncells(),
            old(self)@.board[to as int] == -1,
        ensures
            final(self)@.plain() == spec_place_hand(*g, old(self)@.plain(), i as int, to),
            op_step(*g, old(self)@, final(self)@, old(log)@, final(log)@),
            ({
                let v = old(self)@;
                let p = v.pieces[i as int];
                final(self)@ == (PosView {
                    board: v.board.update(to as int, i as i32),
                    pieces: v.pieces.update(i as int, Piece { loc: Loc::Board(to), moved: true, ..p }),
                    hp: v.hp.update(i as int, g.types@[p.t as int].max_hp),
                    hands: v.hands.update(p.side as int, v.hands[p.side as int].update(p.t as int,
                        v.hands[p.side as int][p.t as int].wrapping_sub(1))),
                    hash: final(self).hash,
                    ..v
                })
            }),
    {
        let ghost v0 = self@;
        let ghost l0 = log@;
        let p = self.pieces[i];
        let (t, s) = (p.t, p.side);
        let r1 = OpUndo::PlacedFromHand { i: i as u32, prior_moved: p.moved };
        log.push(r1);
        assert(crate::position::piece_ok(v0.pieces[i as int], *g));
        assert(self@.hands[s as int].len() == g.ntypes());
        assert(self@.hands[s as int] == self.hands@[s as int]@);
        self.xor_hand(g, s as usize, t as usize);
        let ghost hm = self.hash;
        assert(self@.hands[s as int] == self.hands@[s as int]@);
        let c = self.hands[s as usize][t as usize];
        proof { lemma_hand_count_wf(self@, *g, s as int, t as int, c.wrapping_sub(1)); }
        self.set_hand(s as usize, t as usize, c.wrapping_sub(1));
        assert(self@.hands[s as int] == self.hands@[s as int]@);
        self.xor_hand(g, s as usize, t as usize);
        let ghost v1 = self@;
        proof { lemma_bracket_hand(*g, v0, v1, s as int, t as int, hm); }
        let q = Piece { loc: Loc::Board(to), moved: true, ..p };
        self.board.set(to as usize, i as i32);
        self.pieces.set(i, q);
        proof {
            crate::position::lemma_enter_wf(v1, *g, i as int, to as int, q);
            assert(self@ =~= crate::position::v_enter(v1, i as int, to as int, q));
        }
        let ghost v2 = self@;
        let mh = g.types[t as usize].max_hp;
        let prior_hp = self.hp[i];
        let r2 = OpUndo::Hp { i: i as u32, prior: prior_hp };
        if prior_hp != mh {
            log.push(r2);
            self.hp.set(i, mh);
        }
        self.xor_piece(g, i);
        proof {
            let a = self@;
            assert(a =~= PosView { hp: v2.hp.update(i as int, mh), hash: a.hash, ..v2 });
            lemma_xor(v1.hash, 0, 0);
            lemma_bracket_piece(*g, v1, a, i as int, v1.hash);
            let mid = v2.with_hash(a.hash);
            if prior_hp != mh {
                assert(spec_revert(a, r2) =~= mid);
            } else {
                assert(a =~= mid);
            }
            let back = spec_revert(mid, r1);
            assert(back.board =~= v0.board);
            assert(back.pieces =~= v0.pieces);
            assert(back.hands[s as int] =~= v0.hands[s as int]);
            assert(back.hands =~= v0.hands);
            assert(back =~= v0.with_hash(a.hash));
            lemma_undoes_push(l0, r1, v0, mid);
            if prior_hp != mh {
                lemma_undoes_push(l0.push(r1), r2, mid, a);
                lemma_undoes_trans(l0, l0.push(r1), l0.push(r1).push(r2), v0, mid, a);
            }
        }
    }

    /// Revive dead piece `i` onto the empty `to` at 1 HP.
    pub fn op_place_from_dead(&mut self, g: &GameDef, i: usize, to: u16, log: &mut OpLog)
        requires
            old(self).wf(*g),
            i < old(self).pieces@.len(),
            old(self).pieces@[i as int].loc == Loc::Dead,
            (to as int) < g.ncells(),
            old(self)@.board[to as int] == -1,
        ensures
            final(self)@.plain() == spec_place_dead(old(self)@.plain(), i as int, to),
            op_step(*g, old(self)@, final(self)@, old(log)@, final(log)@),
            ({
                let v = old(self)@;
                final(self)@ == (PosView {
                    board: v.board.update(to as int, i as i32),
                    pieces: v.pieces.update(i as int, Piece { loc: Loc::Board(to), moved: true, ..v.pieces[i as int] }),
                    hp: v.hp.update(i as int, 1i16),
                    hash: final(self).hash,
                    ..v
                })
            }),
    {
        let ghost v0 = self@;
        let ghost l0 = log@;
        let p = self.pieces[i];
        let r1 = OpUndo::PlacedFromDead { i: i as u32, prior_moved: p.moved };
        let r2 = OpUndo::Hp { i: i as u32, prior: self.hp[i] };
        log.push(r1);
        log.push(r2);
        self.hp.set(i, 1);
        let ghost v1 = self@;
        let q = Piece { loc: Loc::Board(to), moved: true, ..p };
        self.board.set(to as usize, i as i32);
        self.pieces.set(i, q);
        proof {
            assert(crate::position::view_wf(v1, *g));
            crate::position::lemma_enter_wf(v1, *g, i as int, to as int, q);
            assert(self@ =~= crate::position::v_enter(v1, i as int, to as int, q));
        }
        self.xor_piece(g, i);
        proof {
            let a = self@;
            lemma_xor(v0.hash, 0, 0);
            lemma_bracket_piece(*g, v0, a, i as int, v0.hash);
            let mid = PosView { hp: a.hp.update(i as int, v0.hp[i as int]), ..a };
            assert(spec_revert(a, r2) =~= mid);
            let back = spec_revert(mid, r1);
            assert(back.board =~= v0.board);
            assert(back.pieces =~= v0.pieces);
            assert(back.hp =~= v0.hp);
            assert(back =~= v0.with_hash(a.hash));
            assert(crate::position::view_wf(mid, *g));
            lemma_undoes_push(l0, r1, v0, mid);
            lemma_undoes_push(l0.push(r1), r2, mid, a);
            lemma_undoes_trans(l0, l0.push(r1), l0.push(r1).push(r2), v0, mid, a);
        }
    }
}


impl Position {
    /// Atomic two-piece exchange: `a` and `b` trade squares, both marked
    /// moved, under one undo record.
    pub fn op_swap(&mut self, g: &GameDef, a: usize, b: usize, log: &mut OpLog)
        requires
            old(self).wf(*g),
            a < old(self).pieces@.len(),
            b < old(self).pieces@.len(),
            a != b,
            old(self).pieces@[a as int].loc is Board,
            old(self).pieces@[b as int].loc is Board,
        ensures
            final(self)@.plain() == spec_swap(old(self)@.plain(), a as int, b as int),
            op_step(*g, old(self)@, final(self)@, old(log)@, final(log)@),
            ({
                let v = old(self)@;
                let asq = v.pieces[a as int].loc->Board_0;
                let bsq = v.pieces[b as int].loc->Board_0;
                final(self)@ == crate::position::v_swap(v, a as int, b as int, asq as int, bsq as int,
                    Piece { loc: Loc::Board(bsq), moved: true, ..v.pieces[a as int] },
                    Piece { loc: Loc::Board(asq), moved: true, ..v.pieces[b as int] }).with_hash(final(self).hash)
            }),
    {
        let ghost v0 = self@;
        let ghost l0 = log@;
        let pa = self.pieces[a];
        let pb = self.pieces[b];
        let (asq, bsq) = match (pa.loc, pb.loc) {
            (Loc::Board(x), Loc::Board(y)) => (x, y),
            _ => { return; },
        };
        let r = OpUndo::Swapped { a: a as u32, asq, am: pa.moved, b: b as u32, bsq, bm: pb.moved };
        log.push(r);
        self.xor_piece(g, a);
        let ghost h1 = self.hash;
        self.xor_piece(g, b);
        let ghost h2 = self.hash;
        let ghost v1 = self@;
        let qa = Piece { loc: Loc::Board(bsq), moved: true, ..pa };
        let qb = Piece { loc: Loc::Board(asq), moved: true, ..pb };
        self.board.set(asq as usize, b as i32);
        self.board.set(bsq as usize, a as i32);
        self.pieces.set(a, qa);
        self.pieces.set(b, qb);
        proof {
            crate::position::lemma_swap_wf(v1, *g, a as int, b as int, asq as int, bsq as int, qa, qb);
            assert(self@ =~= crate::position::v_swap(v1, a as int, b as int, asq as int, bsq as int, qa, qb));
        }
        let ghost v2 = self@;
        self.xor_piece(g, a);
        let ghost h3 = self.hash;
        self.xor_piece(g, b);
        proof {
            let w = self@;
            let z = g.zobrist;
            let u = PosView {
                pieces: v0.pieces.update(a as int, qa),
                hash: h1 ^ z.piece_contrib(v2, a as int),
                ..v0
            };
            assert(z.piece_contrib(u, a as int) == z.piece_contrib(v2, a as int));
            lemma_bracket_piece(*g, v0, u, a as int, h1);
            assert(z.piece_contrib(u, b as int) == z.piece_contrib(v0, b as int));
            lemma_xor_swap_middle(v0.hash, z.piece_contrib(v0, a as int), z.piece_contrib(v0, b as int),
                z.piece_contrib(v2, a as int), z.piece_contrib(v2, b as int));
            assert(z.piece_contrib(w, b as int) == z.piece_contrib(v2, b as int));
            lemma_bracket_piece(*g, u, w, b as int, u.hash ^ z.piece_contrib(u, b as int));
            assert(crate::position::on_board_at(v0.pieces[a as int], v0.board, a as int));
            assert(crate::position::on_board_at(v0.pieces[b as int], v0.board, b as int));
            let back = spec_revert(w, r);
            assert(back.board =~= v0.board);
            assert(back.pieces =~= v0.pieces);
            assert(back =~= v0.with_hash(w.hash));
            lemma_undoes_push(l0, r, v0, w);
        }
    }

    /// One on-land HP tick against the lander on `sq`: a non-negative
    /// amount heals (capped at the type max); damage is lethal at 0 — the
    /// lander leaves the board dead.
    pub fn on_land_hp(&mut self, g: &GameDef, mi: usize, sq: u16, v: i16, log: &mut OpLog)
        requires
            old(self).wf(*g),
            mi < old(self).pieces@.len(),
            old(self).pieces@[mi as int].loc == Loc::Board(sq),
        ensures
            final(self)@.plain() == spec_on_land_hp(*g, old(self)@.plain(), mi as int, sq, v),
            op_step(*g, old(self)@, final(self)@, old(log)@, final(log)@),
            ({
                let w = old(self)@;
                let t = w.pieces[mi as int].t;
                if v >= 0 {
                    final(self)@ == (PosView { hp: w.hp.update(mi as int, spec_hp_after(w.hp[mi as int], v, true, g.types@[t as int].max_hp)), hash: final(self).hash, ..w })
                } else if w.hp[mi as int] + v >= 1 {
                    final(self)@ == (PosView { hp: w.hp.update(mi as int, (w.hp[mi as int] + v) as i16), hash: final(self).hash, ..w })
                } else {
                    final(self)@ == crate::position::v_remove(w, mi as int, sq as int, Piece { loc: Loc::Dead, ..w.pieces[mi as int] }).with_hash(final(self).hash)
                }
            }),
    {
        let ghost v0 = self@;
        let ghost l0 = log@;
        if v >= 0 {
            self.op_hp_add(g, mi, v, true, log);
        } else if self.hp[mi] as i32 + v as i32 >= 1 {
            self.op_hp_add(g, mi, v, false, log);
        } else {
            proof { crate::game::lemma_ncells_bound(g.board); }
            let r = OpUndo::HazardDeath { i: mi as u32, sq };
            self.xor_piece(g, mi);
            let ghost h1 = self.hash;
            let ghost v1 = self@;
            let p = self.pieces[mi];
            let q = Piece { loc: Loc::Dead, ..p };
            self.board.set(sq as usize, -1);
            self.pieces.set(mi, q);
            log.push(r);
            proof {
                assert(crate::position::piece_ok(v0.pieces[mi as int], *g));
                crate::position::lemma_remove_wf(v1, *g, mi as int, sq as int, q);
                let w = self@;
                assert(w =~= crate::position::v_remove(v1, mi as int, sq as int, q));
                lemma_xor(h1, 0, 0);
                lemma_bracket_piece(*g, v0, w, mi as int, h1);
                assert(crate::position::on_board_at(v0.pieces[mi as int], v0.board, mi as int));
                let back = spec_revert(w, r);
                assert(back.board =~= v0.board);
                assert(back.pieces =~= v0.pieces);
                assert(back =~= v0.with_hash(w.hash));
                lemma_undoes_push(l0, r, v0, w);
            }
        }
    }

    /// Landing hazards: the post-op hook, an interpreter over the terrain
    /// row's on-land script (gate, then consumption, then the ops against
    /// the lander). Pieces off the board are left alone.
    pub fn hazard_landing(&mut self, g: &GameDef, mi: usize, log: &mut OpLog)
        requires
            old(self).wf(*g),
            mi < old(self).pieces@.len(),
        ensures
            final(self)@.plain() == spec_hazard(*g, old(self)@.plain(), mi as int),
            op_step(*g, old(self)@, final(self)@, old(log)@, final(log)@),
    {
        proof { crate::game::lemma_ncells_bound(g.board); }
        let sq = match self.pieces[mi].loc {
            Loc::Board(sq) => sq,
            _ => {
                proof { lemma_op_step_refl(*g, self@, log@); }
                return;
            },
        };
        let t = self.terrain[sq as usize];
        if crate::terrain_defs::has_on_land(t) {
            self.land_hazard_interpret(g, mi, sq, t, log);
        } else if t as usize >= crate::terrain_defs::NT {
            self.land_hazard_custom(g, mi, sq, t, log);
        } else {
            proof { lemma_op_step_refl(*g, self@, log@); }
        }
    }

    /// Apply one on-land script: its entry test, the consumption, then each HP op
    /// against the lander while it still stands on `sq`.
    fn run_on_land(&mut self, g: &GameDef, mi: usize, sq: u16, ops: &Vec<MicroOp>, passes: bool, consumed: bool, log: &mut OpLog)
        requires
            old(self).wf(*g),
            mi < old(self).pieces@.len(),
            (sq as int) < g.ncells(),
        ensures
            final(self)@.plain() == spec_run_on_land(*g, old(self)@.plain(), mi as int, sq, ops@, passes, consumed),
            op_step(*g, old(self)@, final(self)@, old(log)@, final(log)@),
    {
        let ghost v0 = self@;
        let ghost l0 = log@;
        proof { lemma_op_step_refl(*g, v0, l0); }
        if passes {
            return;
        }
        if consumed {
            self.op_set_terrain(g, sq, T_NONE, log);
        }
        let ghost w1 = self@.plain();
        let mut k: usize = 0;
        while k < ops.len()
            invariant
                self@.plain() == spec_land_ops(*g, w1, mi as int, sq, ops@, k as int),
                op_step(*g, v0, self@, l0, log@),
                keyed(g.zobrist, v0),
                mi < self.pieces@.len(),
                (sq as int) < g.ncells(),
                k <= ops@.len(),
            decreases ops@.len() - k,
        {
            let ghost v1 = self@;
            let ghost l1 = log@;
            match ops[k] {
                MicroOp::HpAdd { n: HpAmt::Lit(v), cap: _ } => {
                    if self.pieces[mi].loc == Loc::Board(sq) {
                        self.on_land_hp(g, mi, sq, v, log);
                        proof { lemma_op_step_trans(*g, v0, v1, self@, l0, l1, log@); }
                    }
                },
                _ => {},
            }
            k += 1;
        }
    }

    /// The stdlib on-land interpreter. The banded owner's own pieces pass
    /// over their mine unharmed (and it is not spent).
    fn land_hazard_interpret(&mut self, g: &GameDef, mi: usize, sq: u16, t: u8, log: &mut OpLog)
        requires
            old(self).wf(*g),
            mi < old(self).pieces@.len(),
            (sq as int) < g.ncells(),
        ensures
            crate::terrain_defs::spec_has_on_land(t) ==> final(self)@.plain() == spec_run_on_land(*g, old(self)@.plain(), mi as int, sq,
                seq![MicroOp::HpAdd { n: HpAmt::Lit(-1i16), cap: false }],
                crate::terrain_defs::spec_is_mine(t) && ((t - T_MINE0) as Side) == old(self)@.pieces[mi as int].side,
                crate::terrain_defs::spec_is_mine(t)),
            op_step(*g, old(self)@, final(self)@, old(log)@, final(log)@),
    {
        let row = crate::terrain_defs::row(t);
        match row.on_land {
            Some(land) => {
                let passes = match land.gate {
                    LandGate::EnemyOfOwner => match crate::terrain_defs::mine_owner(t) {
                        Some(o) => o == self.pieces[mi].side,
                        None => false,
                    },
                    LandGate::Anyone => false,
                };
                self.run_on_land(g, mi, sq, &land.ops, passes, land.consumed, log);
            },
            None => {
                proof { lemma_op_step_refl(*g, self@, log@); }
            },
        }
    }

    /// The custom on-land interpreter: same shape, but the row lives on the
    /// game and `EnemyOfOwner` resolves against the row's authored owner.
    fn land_hazard_custom(&mut self, g: &GameDef, mi: usize, sq: u16, t: u8, log: &mut OpLog)
        requires
            old(self).wf(*g),
            mi < old(self).pieces@.len(),
            (sq as int) < g.ncells(),
        ensures
            final(self)@.plain() == (match g.spec_custom_terrain(t) {
                Some(ct) => match ct.on_land {
                    Some(land) => spec_run_on_land(*g, old(self)@.plain(), mi as int, sq, land.ops@,
                        spec_gate_passes(land.gate, ct.owner, old(self)@.pieces[mi as int].side), land.consumed),
                    None => old(self)@.plain(),
                },
                None => old(self)@.plain(),
            }),
            op_step(*g, old(self)@, final(self)@, old(log)@, final(log)@),
    {
        match g.custom_terrain(t) {
            Some(ct) => match &ct.on_land {
                Some(land) => {
                    let passes = match land.gate {
                        LandGate::EnemyOfOwner => match ct.owner {
                            Some(o) => o == self.pieces[mi].side,
                            None => false,
                        },
                        LandGate::Anyone => false,
                    };
                    self.run_on_land(g, mi, sq, &land.ops, passes, land.consumed, log);
                },
                None => {
                    proof { lemma_op_step_refl(*g, self@, log@); }
                },
            },
            None => {
                proof { lemma_op_step_refl(*g, self@, log@); }
            },
        }
    }
}


/// A square reference resolved against the move context.
pub open spec fn spec_resolve(ctx: OpCtx, r: SqRef) -> u16 {
    match r {
        SqRef::From => ctx.from,
        SqRef::To => ctx.to,
        SqRef::Aux => ctx.aux,
        SqRef::Mid => ((ctx.from as int + ctx.to as int) / 2) as u16,
    }
}

pub fn resolve(ctx: &OpCtx, r: SqRef) -> (sq: u16)
    ensures
        sq == spec_resolve(*ctx, r),
{
    match r {
        SqRef::From => ctx.from,
        SqRef::To => ctx.to,
        SqRef::Aux => ctx.aux,
        SqRef::Mid => ((ctx.from as u32 + ctx.to as u32) / 2) as u16,
    }
}

impl Position {
    /// The lowest-index piece matching a pool: a dead friendly of type `t`
    /// (`Dead`), or a piece of type `t` in `side`'s hand (`Hand`).
    pub fn find_in_pool(&self, pool: Pool, side: Side, t: TypeId) -> (r: Option<usize>)
        ensures
            r is None ==> spec_find_from(self.pieces@, pool, side, t, 0) is None,
            r matches Some(i) ==> spec_find_from(self.pieces@, pool, side, t, 0) == Some(i as int),
            r matches Some(i) ==> i < self.pieces@.len() && ({
                let p = self.pieces@[i as int];
                match pool {
                    Pool::Dead => p.side == side && p.t == t && p.loc == Loc::Dead,
                    Pool::Hand => p.loc == Loc::Hand(side) && p.t == t,
                }
            }),
            r is None ==> forall|j: int| 0 <= j < self.pieces@.len() ==> !({
                let p = #[trigger] self.pieces@[j];
                match pool {
                    Pool::Dead => p.side == side && p.t == t && p.loc == Loc::Dead,
                    Pool::Hand => p.loc == Loc::Hand(side) && p.t == t,
                }
            }),
    {
        let mut k: usize = 0;
        while k < self.pieces.len()
            invariant
                spec_find_from(self.pieces@, pool, side, t, 0) == spec_find_from(self.pieces@, pool, side, t, k as int),
                k <= self.pieces@.len(),
                forall|j: int| 0 <= j < k ==> !({
                    let p = #[trigger] self.pieces@[j];
                    match pool {
                        Pool::Dead => p.side == side && p.t == t && p.loc == Loc::Dead,
                        Pool::Hand => p.loc == Loc::Hand(side) && p.t == t,
                    }
                }),
            decreases self.pieces@.len() - k,
        {
            let p = self.pieces[k];
            let hit = match pool {
                Pool::Dead => p.side == side && p.t == t && p.loc == Loc::Dead,
                Pool::Hand => p.loc == Loc::Hand(side) && p.t == t,
            };
            if hit {
                return Some(k);
            }
            k += 1;
        }
        None
    }

    /// Interpret one registry op against the move context. Ops whose
    /// squares or pieces the position does not hold are skipped.
    pub fn apply_op(&mut self, g: &GameDef, op: &MicroOp, ctx: &OpCtx, log: &mut OpLog)
        requires
            old(self).wf(*g),
            ctx.side < g.sides,
        ensures
            final(self)@.plain() == spec_apply_op(*g, old(self)@.plain(), *op, *ctx),
            op_step(*g, old(self)@, final(self)@, old(log)@, final(log)@),
    {
        let ghost v0 = self@;
        let ghost l0 = log@;
        proof { lemma_op_step_refl(*g, v0, l0); }
        let nc = g.board.ncells();
        match *op {
            MicroOp::Relocate { who, dest, hazard } => {
                let dsq = resolve(ctx, dest);
                let wsq = resolve(ctx, who);
                if dsq == NO_SQ || (dsq as usize) >= nc || (wsq as usize) >= nc {
                    return;
                }
                let e = self.board[wsq as usize];
                if e < 0 {
                    return;
                }
                let i = e as usize;
                self.op_relocate_promo(g, i, dsq, None, log);
                if hazard {
                    let ghost v1 = self@;
                    let ghost l1 = log@;
                    self.hazard_landing(g, i, log);
                    proof { lemma_op_step_trans(*g, v0, v1, self@, l0, l1, log@); }
                }
            },
            MicroOp::CaptureAt { at } => {
                let sq = resolve(ctx, at);
                if (sq as usize) < nc {
                    self.op_capture_at(g, sq, log);
                }
            },
            MicroOp::PlaceFrom { pool, hazard } => {
                if (ctx.to as usize) >= nc || self.board[ctx.to as usize] != -1 {
                    return;
                }
                let found = self.find_in_pool(pool, ctx.side, ctx.drop_type);
                let i = match found {
                    Some(i) => i,
                    None => { return; },
                };
                match pool {
                    Pool::Dead => self.op_place_from_dead(g, i, ctx.to, log),
                    Pool::Hand => self.op_place_from_hand(g, i, ctx.to, log),
                }
                if hazard {
                    let ghost v1 = self@;
                    let ghost l1 = log@;
                    self.hazard_landing(g, i, log);
                    proof { lemma_op_step_trans(*g, v0, v1, self@, l0, l1, log@); }
                }
            },
            MicroOp::HpAdd { n, cap } => {
                if (ctx.to as usize) >= nc {
                    return;
                }
                let e = self.board[ctx.to as usize];
                if e < 0 {
                    return;
                }
                let amt = match n {
                    HpAmt::Lit(v) => v,
                    HpAmt::FromMove => ctx.amount,
                };
                self.op_hp_add(g, e as usize, amt, cap, log);
            },
            MicroOp::SetTerrain { kind } => {
                if (ctx.to as usize) >= nc {
                    return;
                }
                let t = match kind {
                    TerrainKind::Wall => T_WALL,
                    TerrainKind::Pit => T_PIT,
                    TerrainKind::OwnerMine => T_MINE0.wrapping_add(ctx.side),
                    TerrainKind::Code(c) => c,
                };
                self.op_set_terrain(g, ctx.to, t, log);
            },
            MicroOp::TerrainStep => {
                if (ctx.to as usize) < nc {
                    self.op_terrain_step(g, ctx.to, log);
                }
            },
            MicroOp::FlipSide => {
                if (ctx.to as usize) < nc {
                    self.op_flip_side(g, ctx.to, ctx.side, log);
                }
            },
            MicroOp::SwapWithCaster => {
                if (ctx.to as usize) >= nc || (ctx.from as usize) >= nc {
                    return;
                }
                let ea = self.board[ctx.from as usize];
                let eb = self.board[ctx.to as usize];
                if ea < 0 || eb < 0 || ea == eb {
                    return;
                }
                let (a, b) = (ea as usize, eb as usize);
                self.op_swap(g, a, b, log);
                let ghost v1 = self@;
                let ghost l1 = log@;
                self.hazard_landing(g, a, log);
                proof { lemma_op_step_trans(*g, v0, v1, self@, l0, l1, log@); }
                let ghost v2 = self@;
                let ghost l2 = log@;
                self.hazard_landing(g, b, log);
                proof { lemma_op_step_trans(*g, v0, v2, self@, l0, l2, log@); }
            },
            MicroOp::SetEphemeral { at } => {
                let sq = resolve(ctx, at);
                if sq == NO_SQ || (sq as usize) < nc {
                    self.op_set_ephemeral(g, sq, log);
                }
            },
            MicroOp::TransformType => {
                if (ctx.to as usize) >= nc {
                    return;
                }
                let e = self.board[ctx.to as usize];
                if e < 0 {
                    return;
                }
                match ctx.promo {
                    Some(pt) => {
                        if (pt as usize) < g.types.len() {
                            self.op_transform_type(g, e as usize, pt, log);
                        }
                    },
                    None => {},
                }
            },
        }
    }
}


/// Piece `i` relocated to `to` (its type replaced by `promo`, if any) and
/// marked moved, when it stands on the board and `to` is empty or its own
/// cell; otherwise nothing changes.
pub open spec fn spec_relocate(v: PosView, i: int, to: u16, promo: Option<TypeId>) -> PosView {
    let p = v.pieces[i];
    if p.loc is Board && (v.board[to as int] == -1 || p.loc == Loc::Board(to)) {
        PosView {
            board: v.board.update(p.loc->Board_0 as int, -1i32).update(to as int, i as i32),
            pieces: v.pieces.update(i, Piece {
                loc: Loc::Board(to),
                moved: true,
                t: match promo { Some(t) => t, None => p.t },
                ..p
            }),
            ..v
        }
    } else {
        v
    }
}

/// A strike on `sq` kills its occupant: one is there and it has at most
/// one hit point.
pub open spec fn spec_capture_kills(v: PosView, sq: int) -> bool {
    v.board[sq] >= 0 && v.hp[v.board[sq] as int] <= 1
}

/// Strike-or-kill on `sq`: nothing on an empty cell; an occupant above one
/// hit point loses one and stays; otherwise it falls per the capture fate.
pub open spec fn spec_capture(g: GameDef, v: PosView, sq: int) -> PosView {
    let e = v.board[sq];
    if e < 0 {
        v
    } else if v.hp[e as int] > 1 {
        PosView { hp: v.hp.update(e as int, (v.hp[e as int] - 1) as i16), ..v }
    } else {
        spec_kill(g, v, e as int, sq)
    }
}

/// `n` hit points added to piece `i` (held to `i16`, capped at its type's
/// maximum when `cap`).
pub open spec fn spec_hp_add(g: GameDef, v: PosView, i: int, n: i16, cap: bool) -> PosView {
    PosView { hp: v.hp.update(i, spec_hp_after(v.hp[i], n, cap, g.types@[v.pieces[i].t as int].max_hp)), ..v }
}

pub open spec fn spec_set_terrain(v: PosView, sq: u16, t: u8) -> PosView {
    PosView { terrain: v.terrain.update(sq as int, t), ..v }
}

/// One erosion step of an empty destructible block on `sq`.
pub open spec fn spec_terrain_step(g: GameDef, v: PosView, sq: u16) -> PosView {
    let t = v.terrain[sq as int];
    if v.board[sq as int] < 0 && g.spec_terrain_is_block(t) {
        spec_set_terrain(v, sq, g.spec_terrain_erode(t))
    } else {
        v
    }
}

pub open spec fn spec_transform(v: PosView, i: int, t: TypeId) -> PosView {
    PosView { pieces: v.pieces.update(i, Piece { t, ..v.pieces[i] }), ..v }
}

/// The occupant of `sq`, if any, changes sides.
pub open spec fn spec_flip(v: PosView, sq: u16, side: Side) -> PosView {
    let e = v.board[sq as int];
    if e >= 0 {
        PosView { pieces: v.pieces.update(e as int, Piece { side, ..v.pieces[e as int] }), ..v }
    } else {
        v
    }
}

pub open spec fn spec_set_ep(v: PosView, sq: u16) -> PosView {
    PosView { ep: sq, ..v }
}

/// Piece `i` enters from its hand on the empty `to` at full health.
pub open spec fn spec_place_hand(g: GameDef, v: PosView, i: int, to: u16) -> PosView {
    let p = v.pieces[i];
    PosView {
        board: v.board.update(to as int, i as i32),
        pieces: v.pieces.update(i, Piece { loc: Loc::Board(to), moved: true, ..p }),
        hp: v.hp.update(i, g.types@[p.t as int].max_hp),
        hands: v.hands.update(p.side as int, v.hands[p.side as int].update(p.t as int,
            v.hands[p.side as int][p.t as int].wrapping_sub(1))),
        ..v
    }
}

/// Dead piece `i` re-enters on the empty `to` at one hit point.
pub open spec fn spec_place_dead(v: PosView, i: int, to: u16) -> PosView {
    PosView {
        board: v.board.update(to as int, i as i32),
        pieces: v.pieces.update(i, Piece { loc: Loc::Board(to), moved: true, ..v.pieces[i] }),
        hp: v.hp.update(i, 1i16),
        ..v
    }
}

/// Pieces `a` and `b` trade cells, both marked moved.
pub open spec fn spec_swap(v: PosView, a: int, b: int) -> PosView {
    let asq = v.pieces[a].loc->Board_0;
    let bsq = v.pieces[b].loc->Board_0;
    crate::position::v_swap(v, a, b, asq as int, bsq as int,
        Piece { loc: Loc::Board(bsq), moved: true, ..v.pieces[a] },
        Piece { loc: Loc::Board(asq), moved: true, ..v.pieces[b] })
}

/// Piece `p` matches a pool lookup.
pub open spec fn pool_hit(p: Piece, pool: Pool, side: Side, t: TypeId) -> bool {
    match pool {
        Pool::Dead => p.side == side && p.t == t && p.loc == Loc::Dead,
        Pool::Hand => p.loc == Loc::Hand(side) && p.t == t,
    }
}

/// The lowest index from `k` on whose piece matches a pool lookup.
pub open spec fn spec_find_from(ps: Seq<Piece>, pool: Pool, side: Side, t: TypeId, k: int) -> Option<int>
    decreases ps.len() - k,
{
    if k < 0 || k >= ps.len() {
        None
    } else if pool_hit(ps[k], pool, side, t) {
        Some(k)
    } else {
        spec_find_from(ps, pool, side, t, k + 1)
    }
}

/// One on-land hit-point op against the lander `mi` on `sq`: healing is
/// capped at its maximum; damage to zero or below kills it.
pub open spec fn spec_on_land_hp(g: GameDef, w: PosView, mi: int, sq: u16, v: i16) -> PosView {
    if v >= 0 {
        spec_hp_add(g, w, mi, v, true)
    } else if w.hp[mi] + v >= 1 {
        spec_hp_add(g, w, mi, v, false)
    } else {
        crate::position::v_remove(w, mi, sq as int, Piece { loc: Loc::Dead, ..w.pieces[mi] })
    }
}

/// One op of an on-land script, against the lander while it still stands
/// on `sq`; only literal hit-point ops act.
pub open spec fn spec_land_step(g: GameDef, w: PosView, mi: int, sq: u16, op: MicroOp) -> PosView {
    match op {
        MicroOp::HpAdd { n: HpAmt::Lit(v), cap: _ } => if w.pieces[mi].loc == Loc::Board(sq) {
            spec_on_land_hp(g, w, mi, sq, v)
        } else {
            w
        },
        _ => w,
    }
}

pub open spec fn spec_land_ops(g: GameDef, w: PosView, mi: int, sq: u16, ops: Seq<MicroOp>, n: int) -> PosView
    decreases n,
{
    if n <= 0 {
        w
    } else {
        spec_land_step(g, spec_land_ops(g, w, mi, sq, ops, n - 1), mi, sq, ops[n - 1])
    }
}

/// An on-land script: nothing when the lander passes its gate; else the
/// hazard is spent (when consumed) and its ops run in order.
pub open spec fn spec_run_on_land(g: GameDef, w: PosView, mi: int, sq: u16, ops: Seq<MicroOp>, passes: bool,
    consumed: bool) -> PosView {
    if passes {
        w
    } else {
        let w1 = if consumed { spec_set_terrain(w, sq, T_NONE) } else { w };
        spec_land_ops(g, w1, mi, sq, ops, ops.len() as int)
    }
}

/// A lander of `side` passes a gate: an owner's own pieces pass its
/// hazard.
pub open spec fn spec_gate_passes(gate: LandGate, owner: Option<Side>, side: Side) -> bool {
    match gate {
        LandGate::EnemyOfOwner => owner == Some(side),
        LandGate::Anyone => false,
    }
}

/// The landing hazard of the cell piece `mi` stands on: the built-in rows
/// (mines spare their owner and are spent; acid burns anyone) and the
/// game's custom rows; nothing for a piece off the board.
pub open spec fn spec_hazard(g: GameDef, w: PosView, mi: int) -> PosView {
    match w.pieces[mi].loc {
        Loc::Board(sq) => {
            let t = w.terrain[sq as int];
            let side = w.pieces[mi].side;
            if crate::terrain_defs::spec_has_on_land(t) {
                let mine = crate::terrain_defs::spec_is_mine(t);
                spec_run_on_land(g, w, mi, sq, seq![MicroOp::HpAdd { n: HpAmt::Lit(-1i16), cap: false }],
                    mine && ((t - T_MINE0) as Side) == side, mine)
            } else if (t as int) >= crate::terrain_defs::NT {
                match g.spec_custom_terrain(t) {
                    Some(ct) => match ct.on_land {
                        Some(land) => spec_run_on_land(g, w, mi, sq, land.ops@,
                            spec_gate_passes(land.gate, ct.owner, side), land.consumed),
                        None => w,
                    },
                    None => w,
                }
            } else {
                w
            }
        },
        _ => w,
    }
}

/// What one registry op does against the move context; ops whose squares
/// or pieces the position does not hold change nothing.
pub open spec fn spec_apply_op(g: GameDef, w: PosView, op: MicroOp, ctx: OpCtx) -> PosView {
    let nc = g.ncells() as int;
    match op {
        MicroOp::Relocate { who, dest, hazard } => {
            let dsq = spec_resolve(ctx, dest);
            let wsq = spec_resolve(ctx, who);
            if dsq == NO_SQ || dsq as int >= nc || wsq as int >= nc || w.board[wsq as int] < 0 {
                w
            } else {
                let i = w.board[wsq as int] as int;
                let w1 = spec_relocate(w, i, dsq, None);
                if hazard { spec_hazard(g, w1, i) } else { w1 }
            }
        },
        MicroOp::CaptureAt { at } => {
            let sq = spec_resolve(ctx, at);
            if (sq as int) < nc { spec_capture(g, w, sq as int) } else { w }
        },
        MicroOp::PlaceFrom { pool, hazard } => {
            if ctx.to as int >= nc || w.board[ctx.to as int] != -1 {
                w
            } else {
                match spec_find_from(w.pieces, pool, ctx.side, ctx.drop_type, 0) {
                    Some(i) => {
                        let w1 = match pool {
                            Pool::Dead => spec_place_dead(w, i, ctx.to),
                            Pool::Hand => spec_place_hand(g, w, i, ctx.to),
                        };
                        if hazard { spec_hazard(g, w1, i) } else { w1 }
                    },
                    None => w,
                }
            }
        },
        MicroOp::HpAdd { n, cap } => {
            if ctx.to as int >= nc || w.board[ctx.to as int] < 0 {
                w
            } else {
                spec_hp_add(g, w, w.board[ctx.to as int] as int, match n {
                    HpAmt::Lit(v) => v,
                    HpAmt::FromMove => ctx.amount,
                }, cap)
            }
        },
        MicroOp::SetTerrain { kind } => {
            if ctx.to as int >= nc {
                w
            } else {
                spec_set_terrain(w, ctx.to, match kind {
                    TerrainKind::Wall => T_WALL,
                    TerrainKind::Pit => T_PIT,
                    TerrainKind::OwnerMine => T_MINE0.wrapping_add(ctx.side),
                    TerrainKind::Code(c) => c,
                })
            }
        },
        MicroOp::TerrainStep => if (ctx.to as int) < nc { spec_terrain_step(g, w, ctx.to) } else { w },
        MicroOp::FlipSide => if (ctx.to as int) < nc { spec_flip(w, ctx.to, ctx.side) } else { w },
        MicroOp::SwapWithCaster => {
            if ctx.to as int >= nc || ctx.from as int >= nc {
                w
            } else {
                let ea = w.board[ctx.from as int];
                let eb = w.board[ctx.to as int];
                if ea < 0 || eb < 0 || ea == eb {
                    w
                } else {
                    spec_hazard(g, spec_hazard(g, spec_swap(w, ea as int, eb as int), ea as int), eb as int)
                }
            }
        },
        MicroOp::SetEphemeral { at } => {
            let sq = spec_resolve(ctx, at);
            if sq == NO_SQ || (sq as int) < nc { spec_set_ep(w, sq) } else { w }
        },
        MicroOp::TransformType => {
            if ctx.to as int >= nc || w.board[ctx.to as int] < 0 {
                w
            } else {
                match ctx.promo {
                    Some(pt) => if (pt as int) < g.types@.len() {
                        spec_transform(w, w.board[ctx.to as int] as int, pt)
                    } else {
                        w
                    },
                    None => w,
                }
            }
        },
    }
}

} // verus!
