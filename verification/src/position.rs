//! Position state and make/unmake.
//!
//! Mailbox array + piece list. Pieces never leave the list: capture sends
//! them to `Dead` or to a hand; shogi drops re-activate hand pieces, so
//! unmake is a pure reversal. Per-instance state (HP) lives in a parallel
//! array, and mutable terrain in a per-cell array — both keyed into the
//! Zobrist hash. Hit-count armor: a capture against a piece with HP > 1 is
//! a *strike* — the victim loses 1 HP and the attacker does not move.
//!
//! `hash` is the Zobrist key, maintained incrementally: every mutation
//! cluster XORs the affected entity out and back in; unmake restores the
//! recorded prior key.

use vstd::prelude::*;
use crate::game::{GameDef, Side, TypeId};
use crate::moves::{Move, NO_SQ, push_decimal, spec_decimal};
use vstd::string::*;
use crate::moves::Effect;
use crate::ops::{HpAmt, MicroOp, OpCtx, SqRef, op_step, lemma_op_step_refl};
use crate::ops::{OpLog, OpUndo, spec_revert, revert_all, lemma_revert_all_hash, lemma_op_step_trans};
use crate::terrain_defs::{Blocks, NT, spec_blocks, spec_stops};
use crate::zobrist::{keyed, lemma_full_stm, lemma_full_ep, lemma_xor};

pub use crate::terrain_defs::{
    conv_dir, is_block, mine_owner, terrain_blocks, terrain_stops, T_ACID, T_BLOCK1, T_BLOCK2,
    T_BLOCK3, T_CONV_E, T_CONV_N, T_CONV_S, T_CONV_W, T_GRASS, T_ICE, T_MINE0, T_NONE, T_PIT,
    T_WALL,
};

verus! {

#[derive(Clone, Copy, PartialEq, Eq, Debug, Structural)]
pub enum Loc {
    Board(u16),
    Hand(Side),
    Dead,
}

#[derive(Clone, Copy, PartialEq, Eq, Debug, Structural)]
pub struct Piece {
    pub t: TypeId,
    /// De-promotion target: the type this piece reverts to in hand.
    pub base: TypeId,
    pub side: Side,
    pub loc: Loc,
    pub moved: bool,
}

#[derive(Clone, Debug)]
pub struct Position {
    /// Mailbox: piece index or -1.
    pub board: Vec<i32>,
    pub pieces: Vec<Piece>,
    /// Per-instance hit points, parallel to `pieces`.
    pub hp: Vec<i16>,
    /// Per-cell terrain code.
    pub terrain: Vec<u8>,
    pub stm: Side,
    /// En-passant target square, or NO_SQ.
    pub ep: u16,
    /// hands[side][type] = count of that type held.
    pub hands: Vec<Vec<u8>>,
    /// Incrementally-maintained Zobrist key.
    pub hash: u64,
    /// Blocking rows of the game's custom terrain band (code `NT + i`),
    /// copied at construction so the terrain predicates need no game.
    pub cust: Vec<Blocks>,
}

/// The mathematical state of a position.
#[verifier::ext_equal]
pub struct PosView {
    pub board: Seq<i32>,
    pub pieces: Seq<Piece>,
    pub hp: Seq<i16>,
    pub terrain: Seq<u8>,
    pub stm: Side,
    pub ep: u16,
    pub hands: Seq<Seq<u8>>,
    pub hash: u64,
    pub cust: Seq<Blocks>,
}

impl PosView {
    pub open spec fn with_hash(self, h: u64) -> PosView {
        PosView { hash: h, ..self }
    }

    /// The position with its key left out: what the rules decide, as
    /// opposed to the incremental key that tracks it.
    pub open spec fn plain(self) -> PosView {
        PosView { hash: 0, ..self }
    }

    pub open spec fn with_stm(self, s: Side) -> PosView {
        PosView { stm: s, ..self }
    }
}

impl View for Position {
    type V = PosView;

    open spec fn view(&self) -> PosView {
        PosView {
            board: self.board@,
            pieces: self.pieces@,
            hp: self.hp@,
            terrain: self.terrain@,
            stm: self.stm,
            ep: self.ep,
            hands: Seq::new(self.hands@.len(), |s: int| self.hands@[s]@),
            hash: self.hash,
            cust: self.cust@,
        }
    }
}

/// The custom-band blocking rows of a game.
pub open spec fn cust_blocks_of(g: GameDef) -> Seq<Blocks> {
    Seq::new(g.custom_terrains@.len(), |i: int| g.custom_terrains@[i].blocks)
}

/// A piece on the board is where the mailbox says.
pub open spec fn on_board_at(p: Piece, board: Seq<i32>, i: int) -> bool {
    match p.loc {
        Loc::Board(sq) => board[sq as int] == i,
        _ => true,
    }
}

pub open spec fn piece_ok(p: Piece, g: GameDef) -> bool {
    &&& (p.t as int) < g.ntypes()
    &&& (p.base as int) < g.ntypes()
    &&& p.side < g.sides
    &&& match p.loc {
        Loc::Board(sq) => (sq as int) < g.ncells(),
        Loc::Hand(s) => s == p.side,
        Loc::Dead => true,
    }
}

/// Well-formedness of a position's state, on its own (the game enters
/// through its sizes).
pub open spec fn view_wf(v: PosView, g: GameDef) -> bool {
    &&& g.wf()
    &&& v.board.len() == g.ncells()
    &&& v.terrain.len() == g.ncells()
    &&& v.hp.len() == v.pieces.len()
    &&& v.pieces.len() < 0x7fff_ffff
    &&& v.hands.len() == g.sides
    &&& (forall|s: int| 0 <= s < g.sides ==> (#[trigger] v.hands[s]).len() == g.ntypes())
    &&& v.stm < g.sides
    &&& (v.ep == NO_SQ || (v.ep as int) < g.ncells())
    &&& v.cust == cust_blocks_of(g)
    &&& (forall|i: int| 0 <= i < v.pieces.len() ==> piece_ok(#[trigger] v.pieces[i], g))
    // Mailbox and piece list agree.
    &&& (forall|sq: int| 0 <= sq < v.board.len() ==> {
        let e = #[trigger] v.board[sq];
        e == -1 || (0 <= e < v.pieces.len() && v.pieces[e as int].loc == Loc::Board(sq as u16))
    })
    &&& (forall|i: int| 0 <= i < v.pieces.len() ==> on_board_at(#[trigger] v.pieces[i], v.board, i))
}

/// Piece `i` leaves `from` for `to`, becoming `newp`.
pub open spec fn v_move(v: PosView, i: int, from: int, to: int, newp: Piece) -> PosView {
    PosView { board: v.board.update(from, -1i32).update(to, i as i32), pieces: v.pieces.update(i, newp), ..v }
}

pub proof fn lemma_move_wf(v: PosView, g: GameDef, i: int, from: int, to: int, newp: Piece)
    requires
        view_wf(v, g),
        0 <= i < v.pieces.len(),
        v.pieces[i].loc == Loc::Board(from as u16),
        0 <= from < v.board.len(),
        0 <= to < v.board.len(),
        v.board[to] == -1 || to == from,
        piece_ok(newp, g),
        newp.loc == Loc::Board(to as u16),
    ensures
        view_wf(v_move(v, i, from, to, newp), g),
{
    let w = v_move(v, i, from, to, newp);
    crate::game::lemma_ncells_bound(g.board);
    assert(on_board_at(v.pieces[i], v.board, i));
    assert(v.board[from] == i);
    assert forall|sq: int| 0 <= sq < w.board.len() implies {
        let e = #[trigger] w.board[sq];
        e == -1 || (0 <= e < w.pieces.len() && w.pieces[e as int].loc == Loc::Board(sq as u16))
    } by {
        if sq != to && sq != from {
            let e = v.board[sq];
            if e != -1 {
                assert(v.pieces[e as int].loc == Loc::Board(sq as u16));
                if e == i {
                    assert(from == sq);
                }
            }
        }
    }
    assert forall|j: int| 0 <= j < w.pieces.len() implies on_board_at(#[trigger] w.pieces[j], w.board, j) by {
        if j != i {
            assert(on_board_at(v.pieces[j], v.board, j));
            if let Loc::Board(q) = v.pieces[j].loc {
                if q as int == from {
                    assert(v.board[from] == j);
                }
                if q as int == to {
                    assert(v.board[to] == j);
                }
            }
        }
    }
    assert forall|j: int| 0 <= j < w.pieces.len() implies piece_ok(#[trigger] w.pieces[j], g) by {
        if j != i {
            assert(piece_ok(v.pieces[j], g));
        }
    }
}

/// Piece `i` leaves the board from `sq`, becoming `newp` (off the board).
pub open spec fn v_remove(v: PosView, i: int, sq: int, newp: Piece) -> PosView {
    PosView { board: v.board.update(sq, -1i32), pieces: v.pieces.update(i, newp), ..v }
}

pub proof fn lemma_remove_wf(v: PosView, g: GameDef, i: int, sq: int, newp: Piece)
    requires
        view_wf(v, g),
        0 <= i < v.pieces.len(),
        v.pieces[i].loc == Loc::Board(sq as u16),
        0 <= sq < v.board.len(),
        piece_ok(newp, g),
        !(newp.loc is Board),
    ensures
        view_wf(v_remove(v, i, sq, newp), g),
{
    let w = v_remove(v, i, sq, newp);
    crate::game::lemma_ncells_bound(g.board);
    assert(on_board_at(v.pieces[i], v.board, i));
    assert(v.board[sq] == i);
    assert forall|q: int| 0 <= q < w.board.len() implies {
        let e = #[trigger] w.board[q];
        e == -1 || (0 <= e < w.pieces.len() && w.pieces[e as int].loc == Loc::Board(q as u16))
    } by {
        if q != sq {
            let e = v.board[q];
            if e != -1 {
                assert(v.pieces[e as int].loc == Loc::Board(q as u16));
            }
        }
    }
    assert forall|j: int| 0 <= j < w.pieces.len() implies on_board_at(#[trigger] w.pieces[j], w.board, j) by {
        if j != i {
            assert(on_board_at(v.pieces[j], v.board, j));
            if let Loc::Board(q) = v.pieces[j].loc {
                if q as int == sq {
                    assert(v.board[sq] == j);
                }
            }
        }
    }
    assert forall|j: int| 0 <= j < w.pieces.len() implies piece_ok(#[trigger] w.pieces[j], g) by {
        if j != i {
            assert(piece_ok(v.pieces[j], g));
        }
    }
}

/// Off-board piece `i` enters the board at `to`, becoming `newp`.
pub open spec fn v_enter(v: PosView, i: int, to: int, newp: Piece) -> PosView {
    PosView { board: v.board.update(to, i as i32), pieces: v.pieces.update(i, newp), ..v }
}

pub proof fn lemma_enter_wf(v: PosView, g: GameDef, i: int, to: int, newp: Piece)
    requires
        view_wf(v, g),
        0 <= i < v.pieces.len(),
        !(v.pieces[i].loc is Board),
        0 <= to < v.board.len(),
        v.board[to] == -1,
        piece_ok(newp, g),
        newp.loc == Loc::Board(to as u16),
    ensures
        view_wf(v_enter(v, i, to, newp), g),
{
    let w = v_enter(v, i, to, newp);
    crate::game::lemma_ncells_bound(g.board);
    assert forall|q: int| 0 <= q < w.board.len() implies {
        let e = #[trigger] w.board[q];
        e == -1 || (0 <= e < w.pieces.len() && w.pieces[e as int].loc == Loc::Board(q as u16))
    } by {
        if q != to {
            let e = v.board[q];
            if e != -1 {
                assert(v.pieces[e as int].loc == Loc::Board(q as u16));
            }
        }
    }
    assert forall|j: int| 0 <= j < w.pieces.len() implies on_board_at(#[trigger] w.pieces[j], w.board, j) by {
        if j != i {
            assert(on_board_at(v.pieces[j], v.board, j));
            if let Loc::Board(q) = v.pieces[j].loc {
                if q as int == to {
                    assert(v.board[to] == j);
                }
            }
        }
    }
    assert forall|j: int| 0 <= j < w.pieces.len() implies piece_ok(#[trigger] w.pieces[j], g) by {
        if j != i {
            assert(piece_ok(v.pieces[j], g));
        }
    }
}

/// Piece `i` changes in place (same location).
pub proof fn lemma_retag_wf(v: PosView, g: GameDef, i: int, newp: Piece)
    requires
        view_wf(v, g),
        0 <= i < v.pieces.len(),
        newp.loc == v.pieces[i].loc,
        piece_ok(newp, g),
    ensures
        view_wf(PosView { pieces: v.pieces.update(i, newp), ..v }, g),
{
    let w = PosView { pieces: v.pieces.update(i, newp), ..v };
    crate::game::lemma_ncells_bound(g.board);
    assert forall|q: int| 0 <= q < w.board.len() implies {
        let e = #[trigger] w.board[q];
        e == -1 || (0 <= e < w.pieces.len() && w.pieces[e as int].loc == Loc::Board(q as u16))
    } by {
        let e = v.board[q];
    }
    assert forall|j: int| 0 <= j < w.pieces.len() implies on_board_at(#[trigger] w.pieces[j], w.board, j) by {
        assert(on_board_at(v.pieces[j], v.board, j));
    }
    assert forall|j: int| 0 <= j < w.pieces.len() implies piece_ok(#[trigger] w.pieces[j], g) by {
        if j != i {
            assert(piece_ok(v.pieces[j], g));
        }
    }
}

/// Pieces `a` and `b` trade squares, becoming `pa` and `pb`.
pub open spec fn v_swap(v: PosView, a: int, b: int, asq: int, bsq: int, pa: Piece, pb: Piece) -> PosView {
    PosView {
        board: v.board.update(asq, b as i32).update(bsq, a as i32),
        pieces: v.pieces.update(a, pa).update(b, pb),
        ..v
    }
}

pub proof fn lemma_swap_wf(v: PosView, g: GameDef, a: int, b: int, asq: int, bsq: int, pa: Piece, pb: Piece)
    requires
        view_wf(v, g),
        0 <= a < v.pieces.len(),
        0 <= b < v.pieces.len(),
        a != b,
        v.pieces[a].loc == Loc::Board(asq as u16),
        v.pieces[b].loc == Loc::Board(bsq as u16),
        0 <= asq < v.board.len(),
        0 <= bsq < v.board.len(),
        piece_ok(pa, g),
        piece_ok(pb, g),
        pa.loc == Loc::Board(bsq as u16),
        pb.loc == Loc::Board(asq as u16),
    ensures
        view_wf(v_swap(v, a, b, asq, bsq, pa, pb), g),
{
    let w = v_swap(v, a, b, asq, bsq, pa, pb);
    crate::game::lemma_ncells_bound(g.board);
    assert(on_board_at(v.pieces[a], v.board, a));
    assert(on_board_at(v.pieces[b], v.board, b));
    assert(asq != bsq);
    assert forall|q: int| 0 <= q < w.board.len() implies {
        let e = #[trigger] w.board[q];
        e == -1 || (0 <= e < w.pieces.len() && w.pieces[e as int].loc == Loc::Board(q as u16))
    } by {
        if q != asq && q != bsq {
            let e = v.board[q];
            if e != -1 {
                assert(v.pieces[e as int].loc == Loc::Board(q as u16));
            }
        }
    }
    assert forall|j: int| 0 <= j < w.pieces.len() implies on_board_at(#[trigger] w.pieces[j], w.board, j) by {
        if j != a && j != b {
            assert(on_board_at(v.pieces[j], v.board, j));
            if let Loc::Board(q) = v.pieces[j].loc {
                if q as int == asq {
                    assert(v.board[asq] == j);
                }
                if q as int == bsq {
                    assert(v.board[bsq] == j);
                }
            }
        }
    }
    assert forall|j: int| 0 <= j < w.pieces.len() implies piece_ok(#[trigger] w.pieces[j], g) by {
        if j != a && j != b {
            assert(piece_ok(v.pieces[j], g));
        }
    }
}

/// Piece `i`'s board square, if it has one, names `i` in the mailbox.
pub open spec fn piece_agrees(v: PosView, i: int) -> bool {
    match v.pieces[i].loc {
        Loc::Board(sq) => v.board[sq as int] == i,
        _ => true,
    }
}

/// The mailbox entry at `sq` is empty or names a piece standing on `sq`.
pub open spec fn cell_agrees(v: PosView, sq: int) -> bool {
    v.board[sq] < 0 || v.pieces[v.board[sq] as int].loc == Loc::Board(sq as u16)
}

/// Some entry of the start list before entry `k` names the same square.
pub open spec fn start_claimed_before(g: GameDef, k: int) -> bool {
    exists|j: int| 0 <= j < k && #[trigger] g.board.spec_sq(g.start@[j].2 as int, g.start@[j].3 as int)
        == g.board.spec_sq(g.start@[k].2 as int, g.start@[k].3 as int)
}

/// Some entry before `k` of a placement list names square `sq`.
pub open spec fn claimed_before(list: Seq<(TypeId, Side, u16, bool)>, k: int, sq: u16) -> bool {
    exists|j: int| 0 <= j < k && #[trigger] list[j].2 == sq
}

/// Every well-formed position passes the consistency check: the mailbox
/// and the piece list agree (so every position `make` and `unmake` leave
/// behind does too).
pub proof fn lemma_wf_consistent(v: PosView, g: GameDef)
    requires
        view_wf(v, g),
    ensures
        forall|i: int| 0 <= i < v.pieces.len() ==> #[trigger] piece_agrees(v, i),
        forall|sq: int| 0 <= sq < v.board.len() ==> #[trigger] cell_agrees(v, sq),
{
    assert forall|i: int| 0 <= i < v.pieces.len() implies #[trigger] piece_agrees(v, i) by {
        assert(on_board_at(v.pieces[i], v.board, i));
    }
    assert forall|sq: int| 0 <= sq < v.board.len() implies #[trigger] cell_agrees(v, sq) by {
        let e = v.board[sq];
    }
}

impl Position {
    /// A well-formed position: its parts agree with each other and with the
    /// game, and its key is the ground-truth key of what it holds.
    pub open spec fn wf(self, g: GameDef) -> bool {
        &&& view_wf(self@, g)
        &&& keyed(g.zobrist, self@)
    }

    /// The piece standing on `sq`, if any.
    pub open spec fn spec_piece_at(self, sq: int) -> Option<Piece> {
        if 0 <= sq < self.board@.len() && self.board@[sq] >= 0 && self.board@[sq] < self.pieces@.len() {
            Some(self.pieces@[self.board@[sq] as int])
        } else {
            None
        }
    }

    /// Check that the mailbox and the piece list agree: the first piece
    /// whose square does not name it, else the first cell naming a piece
    /// that stands elsewhere, is reported with the caller's context.
    pub fn assert_consistent(&self, ctx: &str) -> (r: Result<(), String>)
        requires
            self.pieces@.len() < 0x7fff_ffff,
            self.board@.len() <= 65536,
            forall|i: int| 0 <= i < self.pieces@.len() ==> ((#[trigger] self.pieces@[i]).loc matches Loc::Board(sq)
                ==> (sq as int) < self.board@.len()),
            forall|sq: int| 0 <= sq < self.board@.len() ==> (#[trigger] self.board@[sq]) < self.pieces@.len(),
        ensures
            match r {
                Ok(()) => (forall|i: int| 0 <= i < self.pieces@.len() ==> #[trigger] piece_agrees(self@, i))
                    && (forall|sq: int| 0 <= sq < self.board@.len() ==> #[trigger] cell_agrees(self@, sq)),
                Err(e) => (exists|i: int| 0 <= i < self.pieces@.len() && !#[trigger] piece_agrees(self@, i)
                    && (forall|j: int| 0 <= j < i ==> piece_agrees(self@, j))
                    && e@ == ctx@ + ": piece "@ + spec_decimal(i as nat) + " thinks it is on "@
                        + spec_decimal(self.pieces@[i].loc->Board_0 as nat) + " but the mailbox disagrees"@)
                    || ((forall|i: int| 0 <= i < self.pieces@.len() ==> #[trigger] piece_agrees(self@, i))
                    && exists|sq: int| 0 <= sq < self.board@.len() && !#[trigger] cell_agrees(self@, sq)
                    && (forall|q: int| 0 <= q < sq ==> cell_agrees(self@, q))
                    && e@ == ctx@ + ": mailbox "@ + spec_decimal(sq as nat) + " points at piece "@
                        + spec_decimal(self.board@[sq] as nat) + " which is elsewhere"@),
            },
    {
        let mut i: usize = 0;
        while i < self.pieces.len()
            invariant
                i <= self.pieces@.len(),
                self.pieces@.len() < 0x7fff_ffff,
                forall|i: int| 0 <= i < self.pieces@.len() ==> ((#[trigger] self.pieces@[i]).loc matches Loc::Board(sq)
                    ==> (sq as int) < self.board@.len()),
                forall|j: int| 0 <= j < i ==> #[trigger] piece_agrees(self@, j),
            decreases self.pieces@.len() - i,
        {
            match self.pieces[i].loc {
                Loc::Board(sq) => {
                    if self.board[sq as usize] != i as i32 {
                        let mut e = String::from_str(ctx);
                        e.append(": piece ");
                        push_decimal(&mut e, i as u64);
                        e.append(" thinks it is on ");
                        push_decimal(&mut e, sq as u64);
                        e.append(" but the mailbox disagrees");
                        assert(!piece_agrees(self@, i as int));
                        return Err(e);
                    }
                },
                _ => {},
            }
            i += 1;
        }
        let mut sq: usize = 0;
        while sq < self.board.len()
            invariant
                sq <= self.board@.len(),
                self.board@.len() <= 65536,
                forall|sq: int| 0 <= sq < self.board@.len() ==> (#[trigger] self.board@[sq]) < self.pieces@.len(),
                forall|i: int| 0 <= i < self.pieces@.len() ==> #[trigger] piece_agrees(self@, i),
                forall|q: int| 0 <= q < sq ==> #[trigger] cell_agrees(self@, q),
            decreases self.board@.len() - sq,
        {
            let pi = self.board[sq];
            if pi >= 0 && self.pieces[pi as usize].loc != Loc::Board(sq as u16) {
                let mut e = String::from_str(ctx);
                e.append(": mailbox ");
                push_decimal(&mut e, sq as u64);
                e.append(" points at piece ");
                push_decimal(&mut e, pi as u64);
                e.append(" which is elsewhere");
                assert(!cell_agrees(self@, sq as int));
                return Err(e);
            }
            sq += 1;
        }
        Ok(())
    }

    pub fn piece_at(&self, sq: u16) -> (r: Option<&Piece>)
        ensures
            r.is_some() == self.spec_piece_at(sq as int).is_some(),
            r matches Some(p) ==> self.spec_piece_at(sq as int) == Some(*p),
    {
        if (sq as usize) < self.board.len() {
            let i = self.board[sq as usize];
            if i >= 0 && (i as usize) < self.pieces.len() {
                return Some(&self.pieces[i as usize]);
            }
        }
        None
    }

    /// Is there a piece on `sq`?
    pub fn occupied(&self, sq: u16) -> (r: bool)
        ensures
            r == self.spec_piece_at(sq as int).is_some(),
    {
        if (sq as usize) < self.board.len() {
            let i = self.board[sq as usize];
            i >= 0 && (i as usize) < self.pieces.len()
        } else {
            false
        }
    }

    // -- custom-band blocking ------------------------------------------

    /// The blocking row of code `t`: the stdlib table, or the copied custom
    /// row for codes in the custom band (codes past both are open floor).
    pub open spec fn spec_blocks_of(self, t: u8) -> Blocks {
        if (t as int) < NT {
            spec_blocks(t)
        } else if (t as int) - NT < self.cust@.len() {
            self.cust@[(t as int) - NT]
        } else {
            Blocks { ground: false, flight: false, drill: false }
        }
    }

    pub open spec fn spec_stops_for(self, t: u8, flies: bool, drills: bool) -> bool {
        let b = self.spec_blocks_of(t);
        b.ground && (!flies || b.flight) && (!drills || b.drill)
    }

    pub fn blocks_of(&self, t: u8) -> (b: Blocks)
        ensures
            b == self.spec_blocks_of(t),
    {
        if (t as usize) < NT {
            crate::terrain_defs::row_blocks(t)
        } else if (t as usize) - NT < self.cust.len() {
            self.cust[(t as usize) - NT]
        } else {
            Blocks { ground: false, flight: false, drill: false }
        }
    }

    /// Does code `t` stop a mover with these permissions?
    pub fn stops(&self, t: u8, flies: bool, drills: bool) -> (r: bool)
        ensures
            r == self.spec_stops_for(t, flies, drills),
    {
        if (t as usize) < NT {
            terrain_stops(t, flies, drills)
        } else {
            let b = self.blocks_of(t);
            b.ground && (!flies || b.flight) && (!drills || b.drill)
        }
    }

    pub open spec fn spec_terrain_at(self, sq: int) -> u8 {
        if 0 <= sq < self.terrain@.len() { self.terrain@[sq] } else { T_NONE }
    }

    /// A cell a ray/screen/leg cannot pass and a piece cannot enter.
    pub fn cell_obstructed(&self, sq: u16) -> (r: bool)
        requires
            (sq as int) < self.board@.len(),
            (sq as int) < self.terrain@.len(),
        ensures
            r == (self.board@[sq as int] >= 0 || self.spec_blocks_of(self.terrain@[sq as int]).ground),
    {
        let t = self.terrain[sq as usize];
        self.board[sq as usize] >= 0 || self.blocks_of(t).ground
    }

    /// `cell_obstructed` with terrain permissions: flyers pass over pits;
    /// drillers pass through walls and destructible blocks.
    pub fn cell_obstructed_for(&self, sq: u16, flies: bool, drills: bool) -> (r: bool)
        requires
            (sq as int) < self.board@.len(),
            (sq as int) < self.terrain@.len(),
        ensures
            r == (self.board@[sq as int] >= 0 || self.spec_stops_for(self.terrain@[sq as int], flies, drills)),
    {
        let t = self.terrain[sq as usize];
        self.board[sq as usize] >= 0 || self.stops(t, flies, drills)
    }

    /// May a piece land here (ignoring occupancy)? Mines are open.
    pub fn terrain_open(&self, sq: u16) -> (r: bool)
        requires
            (sq as int) < self.terrain@.len(),
        ensures
            r == !self.spec_blocks_of(self.terrain@[sq as int]).ground,
    {
        !self.blocks_of(self.terrain[sq as usize]).ground
    }

    /// `terrain_open` with terrain permissions: a flyer may hover on a pit
    /// square; a driller may stand inside a wall or block.
    pub fn terrain_open_for(&self, sq: u16, flies: bool, drills: bool) -> (r: bool)
        requires
            (sq as int) < self.terrain@.len(),
        ensures
            r == !self.spec_stops_for(self.terrain@[sq as int], flies, drills),
    {
        !self.stops(self.terrain[sq as usize], flies, drills)
    }

    /// Does the terrain AT `sq` stop a mover with these permissions?
    pub fn terrain_stops_at(&self, sq: u16, flies: bool, drills: bool) -> (r: bool)
        requires
            (sq as int) < self.terrain@.len(),
        ensures
            r == self.spec_stops_for(self.terrain@[sq as int], flies, drills),
    {
        self.stops(self.terrain[sq as usize], flies, drills)
    }

    /// Any flight-exempt blocking terrain (stdlib: pits) on the board?
    pub fn has_pit(&self) -> (r: bool)
        ensures
            r == exists|sq: int| 0 <= sq < self.terrain@.len() && #[trigger] self.spec_blocks_of(self.terrain@[sq]).ground
                && !self.spec_blocks_of(self.terrain@[sq]).flight,
    {
        let mut k: usize = 0;
        while k < self.terrain.len()
            invariant
                k <= self.terrain@.len(),
                forall|j: int| 0 <= j < k ==> !(#[trigger] self.spec_blocks_of(self.terrain@[j]).ground
                    && !self.spec_blocks_of(self.terrain@[j]).flight),
            decreases self.terrain.len() - k,
        {
            let b = self.blocks_of(self.terrain[k]);
            if b.ground && !b.flight {
                return true;
            }
            k += 1;
        }
        false
    }

    /// Any drill-exempt blocking terrain (stdlib: walls + blocks) on the board?
    pub fn has_wall(&self) -> (r: bool)
        ensures
            r == exists|sq: int| 0 <= sq < self.terrain@.len() && #[trigger] self.spec_blocks_of(self.terrain@[sq]).ground
                && !self.spec_blocks_of(self.terrain@[sq]).drill,
    {
        let mut k: usize = 0;
        while k < self.terrain.len()
            invariant
                k <= self.terrain@.len(),
                forall|j: int| 0 <= j < k ==> !(#[trigger] self.spec_blocks_of(self.terrain@[j]).ground
                    && !self.spec_blocks_of(self.terrain@[j]).drill),
            decreases self.terrain.len() - k,
        {
            let b = self.blocks_of(self.terrain[k]);
            if b.ground && !b.drill {
                return true;
            }
            k += 1;
        }
        false
    }

    pub open spec fn spec_forward(side: Side) -> i8 {
        if side == 0 { 1 } else { -1i8 }
    }

    /// The forward rank direction of a side.
    pub fn forward(side: Side) -> (r: i8)
        ensures
            r == Self::spec_forward(side),
    {
        if side == 0 { 1 } else { -1 }
    }
}

/// Is the kernel's HP gate satisfied at `hp`? 0 means unbounded on that end.
pub open spec fn spec_hp_gate_ok(min_hp: i16, max_hp: i16, hp: i16) -> bool {
    (min_hp == 0 || hp >= min_hp) && (max_hp == 0 || hp <= max_hp)
}

pub fn hp_gate_ok(min_hp: i16, max_hp: i16, hp: i16) -> (r: bool)
    ensures
        r == spec_hp_gate_ok(min_hp, max_hp, hp),
{
    (min_hp == 0 || hp >= min_hp) && (max_hp == 0 || hp <= max_hp)
}

/// `(dx,dy)` is `k` whole steps of `(sx,sy)`, `k ≥ 1`.
pub open spec fn steps_of(k: int, dx: int, dy: int, sx: int, sy: int) -> bool {
    k >= 1 && dx == k * sx && dy == k * sy
}

/// If (dx,dy) = k·(sx,sy) for integer k ≥ 1, return k.
pub(crate) fn ray_steps(dx: i32, dy: i32, sx: i32, sy: i32) -> (r: Option<i32>)
    requires
        -1000 <= dx <= 1000,
        -1000 <= dy <= 1000,
        -1000 <= sx <= 1000,
        -1000 <= sy <= 1000,
    ensures
        r matches Some(k) ==> steps_of(k as int, dx as int, dy as int, sx as int, sy as int),
        r is Some ==> !(sx == 0 && sy == 0),
        r is None ==> (sx == 0 && sy == 0) || !(exists|k: int| #[trigger] steps_of(k, dx as int, dy as int, sx as int, sy as int)),
{
    // Work on the axis with a nonzero step component.
    let (d, s) = if sx != 0 { (dx, sx) } else { (dy, sy) };
    if s == 0 || (sx == 0 && dx != 0) {
        proof {
            if exists|k: int| #[trigger] steps_of(k, dx as int, dy as int, sx as int, sy as int) {
                let k = choose|k: int| #[trigger] steps_of(k, dx as int, dy as int, sx as int, sy as int);
                assert(sx == 0 && dx != 0 ==> k * sx == 0);
            }
        }
        return None;
    }
    // k ≥ 1 needs d and s of one sign.
    if (d > 0) != (s > 0) || d == 0 {
        proof {
            if exists|k: int| #[trigger] steps_of(k, dx as int, dy as int, sx as int, sy as int) {
                let k = choose|k: int| #[trigger] steps_of(k, dx as int, dy as int, sx as int, sy as int);
                assert(d == k * s);
                assert(s > 0 ==> k * s > 0) by (nonlinear_arith) requires k >= 1;
                assert(s < 0 ==> k * s < 0) by (nonlinear_arith) requires k >= 1;
            }
        }
        return None;
    }
    let ad: u32 = if d < 0 { (-d) as u32 } else { d as u32 };
    let as_: u32 = if s < 0 { (-s) as u32 } else { s as u32 };
    assert(ad / as_ <= ad) by (nonlinear_arith) requires as_ >= 1;
    let k = (ad / as_) as i32;
    assert(ad <= 1000);
    assert(-1000000 <= k * sx <= 1000000 && -1000000 <= k * sy <= 1000000) by (nonlinear_arith)
        requires 0 <= k <= 1000, -1000 <= sx <= 1000, -1000 <= sy <= 1000;
    if ad % as_ == 0 && (dx as i64) == (k as i64) * (sx as i64) && (dy as i64) == (k as i64) * (sy as i64) && k >= 1 {
        Some(k)
    } else {
        proof {
            if exists|k2: int| #[trigger] steps_of(k2, dx as int, dy as int, sx as int, sy as int) {
                let k2 = choose|k2: int| #[trigger] steps_of(k2, dx as int, dy as int, sx as int, sy as int);
                assert(d == k2 * s);
                assert(ad == k2 * as_) by (nonlinear_arith)
                    requires d == k2 * s, ad as int == if d < 0 { -d } else { d as int },
                        as_ as int == if s < 0 { -s } else { s as int }, k2 >= 1, (d > 0) == (s > 0);
                assert((k2 * as_) % (as_ as int) == 0 && (k2 * as_) / (as_ as int) == k2) by (nonlinear_arith)
                    requires as_ > 0;
            }
        }
        None
    }
}


/// Per-move undo: the micro-op log (every mutation a move makes, in
/// application order; unmake replays it backwards) plus the hash snapshot.
pub struct Undo {
    ops: OpLog,
    prior_hash: u64,
}

impl Undo {
    pub closed spec fn log(self) -> Seq<OpUndo> {
        self.ops@
    }

    pub closed spec fn prior(self) -> u64 {
        self.prior_hash
    }
}

/// The side after `s` in turn order, and the one before it.
pub open spec fn next_side(s: Side, n: u8) -> Side {
    ((s as int + 1) % (n as int)) as Side
}

pub open spec fn prev_side(s: Side, n: u8) -> Side {
    ((s as int + n as int - 1) % (n as int)) as Side
}

pub proof fn lemma_prev_next(s: Side, n: u8)
    requires
        s < n,
    ensures
        prev_side(next_side(s, n), n) == s,
        next_side(s, n) < n,
        prev_side(s, n) < n,
{
    let ni = n as int;
    if s + 1 < n {
        vstd::arithmetic::div_mod::lemma_small_mod((s + 1) as nat, ni as nat);
        vstd::arithmetic::div_mod::lemma_fundamental_div_mod_converse(s + 1 + ni - 1, ni, 1, s as int);
    } else {
        vstd::arithmetic::div_mod::lemma_fundamental_div_mod_converse(s + 1, ni, 1, 0);
        vstd::arithmetic::div_mod::lemma_small_mod((ni - 1) as nat, ni as nat);
    }
    vstd::arithmetic::div_mod::lemma_mod_bound(s + ni - 1, ni);
}

pub proof fn lemma_revert_keeps_stm(v: PosView, r: OpUndo, st: Side)
    ensures
        spec_revert(v.with_stm(st), r) == spec_revert(v, r).with_stm(st),
{
}

pub proof fn lemma_revert_all_stm(v: PosView, recs: Seq<OpUndo>, st: Side)
    ensures
        revert_all(v.with_stm(st), recs) == revert_all(v, recs).with_stm(st),
    decreases recs.len(),
{
    if recs.len() > 0 {
        lemma_revert_keeps_stm(v, recs.last(), st);
        lemma_revert_all_stm(spec_revert(v, recs.last()), recs.drop_last(), st);
    }
}

/// `after` is `before` with one move made: the turn passed on, and the
/// undo's log, replayed backwards from `after` at the mover's turn,
/// restores `before` (the key aside), whose key the undo recorded.
pub open spec fn made(g: GameDef, before: PosView, after: PosView, u: Undo) -> bool {
    &&& after.stm == next_side(before.stm, g.sides)
    &&& revert_all(after.with_stm(before.stm), u.log()) == before.with_hash(after.hash)
    &&& u.prior() == before.hash
}

/// What unmake produces from `v`: the turn handed back, the log replayed
/// backwards, the recorded key restored.
pub open spec fn unmade(g: GameDef, v: PosView, u: Undo) -> PosView {
    revert_all(v.with_stm(prev_side(v.stm, g.sides)), u.log()).with_hash(u.prior())
}

/// Make then unmake is the identity: unmake restores exactly the state
/// (mailbox, pieces, HP, terrain, hands, turn, en-passant marker and key)
/// that the move was made from.
pub proof fn lemma_make_unmake(g: GameDef, before: PosView, after: PosView, u: Undo)
    requires
        view_wf(before, g),
        made(g, before, after, u),
    ensures
        unmade(g, after, u) == before,
{
    lemma_prev_next(before.stm, g.sides);
    let a2 = after.with_stm(before.stm);
    assert(after.with_stm(prev_side(after.stm, g.sides)) == a2);
    lemma_revert_all_hash(a2, u.log(), u.prior());
    assert(revert_all(a2, u.log()).with_hash(u.prior()) =~= before);
}

impl Position {
    /// A position from an explicit piece list `(type, side, square,
    /// moved)`, all on the board at full HP, on bare floor, with empty
    /// hands. A piece listed onto an occupied square is kept off the board
    /// (dead).
    pub fn from_pieces(g: &GameDef, list: &Vec<(TypeId, Side, u16, bool)>, stm: Side) -> (pos: Self)
        requires
            g.wf(),
            stm < g.sides,
            list@.len() < 0x7fff_ffff,
            forall|k: int| 0 <= k < list@.len() ==> {
                let e = #[trigger] list@[k];
                &&& (e.0 as int) < g.ntypes()
                &&& e.1 < g.sides
                &&& (e.2 as int) < g.ncells()
            },
        ensures
            pos.wf(*g),
            pos.stm == stm,
            pos.ep == NO_SQ,
            pos.pieces@.len() == list@.len(),
            pos.hash == g.zobrist.spec_full_hash(pos@),
            forall|sq: int| 0 <= sq < pos.terrain@.len() ==> pos.terrain@[sq] == T_NONE,
            forall|k: int| 0 <= k < list@.len() ==> {
                let e = #[trigger] list@[k];
                let p = pos.pieces@[k];
                &&& p.t == e.0 && p.base == e.0 && p.side == e.1 && p.moved == e.3
                &&& pos.hp@[k] == g.types@[e.0 as int].max_hp
                &&& (p.loc == Loc::Board(e.2) || p.loc == Loc::Dead)
                &&& p.loc == (if claimed_before(list@, k, e.2) { Loc::Dead } else { Loc::Board(e.2) })
            },
            forall|s: int, t: int| 0 <= s < g.sides && 0 <= t < g.ntypes() ==> #[trigger] pos@.hands[s][t] == 0,
    {
        let nc = g.board.ncells();
        let mut cust: Vec<Blocks> = Vec::new();
        let mut ci: usize = 0;
        while ci < g.custom_terrains.len()
            invariant
                ci <= g.custom_terrains@.len(),
                cust@ == cust_blocks_of(*g).subrange(0, ci as int),
            decreases g.custom_terrains@.len() - ci,
        {
            cust.push(g.custom_terrains[ci].blocks);
            ci += 1;
            assert(cust@ =~= cust_blocks_of(*g).subrange(0, ci as int));
        }
        assert(cust@ =~= cust_blocks_of(*g));
        let mut board: Vec<i32> = Vec::new();
        let mut terrain: Vec<u8> = Vec::new();
        let mut k: usize = 0;
        while k < nc
            invariant
                k <= nc,
                board@.len() == k,
                terrain@.len() == k,
                forall|j: int| 0 <= j < k ==> board@[j] == -1 && terrain@[j] == T_NONE,
            decreases nc - k,
        {
            board.push(-1);
            terrain.push(T_NONE);
            k += 1;
        }
        let mut hands: Vec<Vec<u8>> = Vec::new();
        let nt = g.types.len();
        let mut s: u8 = 0;
        while s < g.sides
            invariant
                s <= g.sides,
                hands@.len() == s,
                nt == g.ntypes(),
                forall|j: int| 0 <= j < s ==> (#[trigger] hands@[j])@.len() == nt,
                forall|j: int, t: int| 0 <= j < s && 0 <= t < nt ==> #[trigger] hands@[j]@[t] == 0,
            decreases g.sides - s,
        {
            let mut row: Vec<u8> = Vec::new();
            let mut t: usize = 0;
            while t < nt
                invariant
                    t <= nt,
                    row@.len() == t,
                    forall|j: int| 0 <= j < t ==> row@[j] == 0,
                decreases nt - t,
            {
                row.push(0);
                t += 1;
            }
            hands.push(row);
            s += 1;
        }
        let mut pos = Position {
            board,
            pieces: Vec::new(),
            hp: Vec::new(),
            terrain,
            stm,
            ep: NO_SQ,
            hands,
            hash: 0,
            cust,
        };
        assert forall|q: int| 0 <= q < g.sides implies (#[trigger] pos@.hands[q]).len() == g.ntypes() by {
            assert(pos@.hands[q] == pos.hands@[q]@);
        }
        assert forall|q: int, t: int| 0 <= q < g.sides && 0 <= t < g.ntypes() implies #[trigger] pos@.hands[q][t] == 0 by {
            assert(pos@.hands[q] == pos.hands@[q]@);
        }
        assert(view_wf(pos@, *g));
        let mut k: usize = 0;
        while k < list.len()
            invariant
                k <= list@.len(),
                list@.len() < 0x7fff_ffff,
                g.wf(),
                view_wf(pos@, *g),
                pos.stm == stm,
                pos.ep == NO_SQ,
                pos.pieces@.len() == k,
                forall|sq: int| 0 <= sq < pos.terrain@.len() ==> pos.terrain@[sq] == T_NONE,
                forall|j: int| 0 <= j < list@.len() ==> {
                    let e = #[trigger] list@[j];
                    &&& (e.0 as int) < g.ntypes()
                    &&& e.1 < g.sides
                    &&& (e.2 as int) < g.ncells()
                },
                forall|j: int| 0 <= j < k ==> {
                    let e = #[trigger] list@[j];
                    let p = pos.pieces@[j];
                    &&& p.t == e.0 && p.base == e.0 && p.side == e.1 && p.moved == e.3
                    &&& pos.hp@[j] == g.types@[e.0 as int].max_hp
                    &&& (p.loc == Loc::Board(e.2) || p.loc == Loc::Dead)
                    &&& p.loc == (if claimed_before(list@, j, e.2) { Loc::Dead } else { Loc::Board(e.2) })
                },
                forall|q: int| 0 <= q < pos.board@.len() ==> (pos.board@[q] == -1 <==> !claimed_before(list@, k as int, q as u16)),
                forall|s: int, t: int| 0 <= s < g.sides && 0 <= t < g.ntypes() ==> #[trigger] pos@.hands[s][t] == 0,
            decreases list@.len() - k,
        {
            let (t, side, sq, moved) = list[k];
            let ghost v0 = pos@;
            proof { crate::game::lemma_ncells_bound(g.board); }
            let free = pos.board[sq as usize] == -1;
            let loc = if free { Loc::Board(sq) } else { Loc::Dead };
            let p = Piece { t, base: t, side, loc, moved };
            pos.pieces.push(p);
            pos.hp.push(g.types[t as usize].max_hp);
            if free {
                pos.board.set(sq as usize, k as i32);
            }
            proof {
                let v = pos@;
                assert(piece_ok(p, *g));
                assert forall|q: int| 0 <= q < v.board.len() implies {
                    let e = #[trigger] v.board[q];
                    e == -1 || (0 <= e < v.pieces.len() && v.pieces[e as int].loc == Loc::Board(q as u16))
                } by {
                    if !(free && q == sq as int) {
                        let e = v0.board[q];
                        if e != -1 {
                            assert(v0.pieces[e as int].loc == Loc::Board(q as u16));
                        }
                    }
                }
                assert forall|j: int| 0 <= j < v.pieces.len() implies on_board_at(#[trigger] v.pieces[j], v.board, j) by {
                    if j < k {
                        assert(on_board_at(v0.pieces[j], v0.board, j));
                        if let Loc::Board(q) = v0.pieces[j].loc {
                            if free && q == sq {
                                assert(v0.board[sq as int] == j);
                            }
                        }
                    }
                }
                assert forall|j: int| 0 <= j < v.pieces.len() implies piece_ok(#[trigger] v.pieces[j], *g) by {
                    if j < k {
                        assert(piece_ok(v0.pieces[j], *g));
                    }
                }
                assert(view_wf(v, *g));
                assert(free == !claimed_before(list@, k as int, sq));
                assert forall|q: int| 0 <= q < pos.board@.len() implies (pos.board@[q] == -1 <==> !claimed_before(list@, k + 1, q as u16)) by {
                    if q == sq as int {
                        assert(list@[k as int].2 == sq);
                    } else {
                        assert(q as u16 != sq) by {
                            crate::game::lemma_ncells_bound(g.board);
                        }
                        if claimed_before(list@, k + 1, q as u16) {
                            let j = choose|j: int| 0 <= j < k + 1 && #[trigger] list@[j].2 == q as u16;
                            assert(j < k);
                        }
                    }
                }
            }
            k += 1;
        }
        proof { crate::zobrist::lemma_wf_fits(pos@, *g); }
        pos.hash = g.zobrist.full_hash(&pos);
        proof { crate::zobrist::lemma_wf_fits(pos@, *g); }
        pos
    }

    /// The game's start position: the start list on the board, side 0 to
    /// move.
    pub fn startpos(g: &GameDef) -> (pos: Self)
        requires
            g.wf(),
            g.start_ok(),
        ensures
            pos.wf(*g),
            pos.stm == 0,
            pos.ep == NO_SQ,
            pos.hash == g.zobrist.spec_full_hash(pos@),
            pos.pieces@.len() == g.start@.len(),
            forall|k: int| 0 <= k < g.start@.len() ==> {
                let e = #[trigger] g.start@[k];
                let p = pos.pieces@[k];
                &&& p.t == e.0 && p.base == e.0 && p.side == e.1 && !p.moved
                &&& pos.hp@[k] == g.types@[e.0 as int].max_hp
                &&& p.loc == (if start_claimed_before(*g, k) { Loc::Dead } else {
                    Loc::Board(g.board.spec_sq(e.2 as int, e.3 as int) as u16) })
            },
            forall|sq: int| 0 <= sq < pos.terrain@.len() ==> pos.terrain@[sq] == T_NONE,
            forall|s: int, t: int| 0 <= s < g.sides && 0 <= t < g.ntypes() ==> #[trigger] pos@.hands[s][t] == 0,
    {
        let mut list: Vec<(TypeId, Side, u16, bool)> = Vec::new();
        let mut k: usize = 0;
        while k < g.start.len()
            invariant
                g.wf(),
                g.start_ok(),
                k <= g.start@.len(),
                list@.len() == k,
                forall|j: int| 0 <= j < k ==> {
                    let e = #[trigger] list@[j];
                    let s = g.start@[j];
                    &&& e.0 == s.0 && e.1 == s.1 && !e.3
                    &&& e.2 as int == g.board.spec_sq(s.2 as int, s.3 as int)
                    &&& (e.0 as int) < g.ntypes()
                    &&& e.1 < g.sides
                    &&& (e.2 as int) < g.ncells()
                },
            decreases g.start@.len() - k,
        {
            let (t, side, x, y) = g.start[k];
            proof { crate::game::lemma_sq_in_board(g.board, x as int, y as int); }
            let sq = g.board.sq(x, y);
            list.push((t, side, sq, false));
            k += 1;
        }
        let pos = Self::from_pieces(g, &list, 0);
        assert forall|k: int| 0 <= k < g.start@.len() implies {
            let e = #[trigger] g.start@[k];
            let p = pos.pieces@[k];
            &&& p.t == e.0 && p.base == e.0 && p.side == e.1 && !p.moved
            &&& pos.hp@[k] == g.types@[e.0 as int].max_hp
            &&& p.loc == (if start_claimed_before(*g, k) { Loc::Dead } else {
                Loc::Board(g.board.spec_sq(e.2 as int, e.3 as int) as u16) })
        } by {
            let e = list@[k];
            if claimed_before(list@, k, e.2) {
                let j = choose|j: int| 0 <= j < k && #[trigger] list@[j].2 == e.2;
                assert(list@[j].2 == e.2);
                assert(start_claimed_before(*g, k));
            }
            if start_claimed_before(*g, k) {
                let j = choose|j: int| 0 <= j < k && #[trigger] g.board.spec_sq(g.start@[j].2 as int, g.start@[j].3 as int)
                    == g.board.spec_sq(g.start@[k].2 as int, g.start@[k].3 as int);
                assert(list@[j].2 == e.2);
                assert(claimed_before(list@, k, e.2));
            }
        }
        pos
    }

    /// Re-derive the incremental key after out-of-band edits.
    pub fn rehash(&mut self, g: &GameDef)
        requires
            g.zobrist.fits(old(self)@),
        ensures
            final(self)@ == old(self)@.with_hash(g.zobrist.spec_full_hash(old(self)@)),
    {
        self.hash = g.zobrist.full_hash(self);
    }

    /// Pass the turn on, keeping the key.
    pub fn advance_stm(&mut self, g: &GameDef)
        requires
            old(self).wf(*g),
        ensures
            final(self).wf(*g),
            final(self)@ == old(self)@.with_stm(next_side(old(self).stm, g.sides)).with_hash(final(self).hash),
    {
        let k0 = g.zobrist.stm_key(self.stm as usize);
        self.hash = self.hash ^ k0;
        self.stm = ((self.stm as u16 + 1) % (g.sides as u16)) as u8;
        proof { lemma_prev_next(old(self).stm, g.sides); }
        let k1 = g.zobrist.stm_key(self.stm as usize);
        self.hash = self.hash ^ k1;
        proof {
            lemma_full_stm(g.zobrist, old(self)@, self@);
            lemma_xor(old(self).hash, k0, k1);
        }
    }

    /// Set the side to move out of band, keeping the key valid.
    pub fn set_stm(&mut self, g: &GameDef, s: Side)
        requires
            g.wf(),
            old(self).stm < g.sides,
            s < g.sides,
        ensures
            old(self).wf(*g) ==> final(self).wf(*g),
            final(self)@ == old(self)@.with_stm(s).with_hash(final(self).hash),
            final(self).hash == old(self).hash ^ g.zobrist.spec_stm_key(old(self).stm as int)
                ^ g.zobrist.spec_stm_key(s as int),
    {
        let k0 = g.zobrist.stm_key(self.stm as usize);
        self.hash = self.hash ^ k0;
        self.stm = s;
        let k1 = g.zobrist.stm_key(self.stm as usize);
        self.hash = self.hash ^ k1;
        proof {
            lemma_full_stm(g.zobrist, old(self)@, self@);
            lemma_xor(old(self).hash, k0, k1);
        }
    }

    /// Make a move: expire the ephemeral marker, apply the move's script
    /// row, pass the turn. Every mutation lands in the returned undo log.
    pub fn make(&mut self, g: &GameDef, mv: &Move) -> (u: Undo)
        requires
            old(self).wf(*g),
        ensures
            final(self)@ == spec_made(*g, old(self)@, *mv),
            final(self)@.plain() == spec_make(*g, old(self)@, *mv),
            final(self).wf(*g),
            made(*g, old(self)@, final(self)@, u),
            final(self).pieces@.len() == old(self).pieces@.len(),
    {
        let ghost v0 = self@;
        let mut log = OpLog::new();
        let prior_hash = self.hash;
        self.op_clear_ephemeral(g, &mut log);
        let ghost v1 = self@;
        let ghost l1 = log@;
        crate::move_defs::apply_script(self, g, mv, &mut log);
        proof { lemma_op_step_trans(*g, v0, v1, self@, Seq::empty(), l1, log@); }
        let ghost mid = self@;
        self.advance_stm(g);
        proof {
            let a = self@;
            assert(a.with_stm(v0.stm) =~= mid.with_hash(a.hash));
            lemma_revert_all_hash(mid, log@, a.hash);
            assert(log@.subrange(0, 0) =~= Seq::<OpUndo>::empty());
            assert(log@.subrange(0, log@.len() as int) =~= log@);
        }
        proof { lemma_keyed_view(*g, self@); }
        Undo { ops: log, prior_hash }
    }

    /// Replay the move's op log backwards — each record exactly inverts its
    /// op — then restore the recorded key.
    pub fn unmake(&mut self, g: &GameDef, u: &Undo)
        requires
            g.wf(),
            old(self).pieces@.len() < 0x7fff_ffff,
        ensures
            final(self)@ == unmade(*g, old(self)@, *u),
    {
        self.stm = ((self.stm as u16 + g.sides as u16 - 1) % (g.sides as u16)) as u8;
        let ghost start = self@;
        assert(start == old(self)@.with_stm(prev_side(old(self).stm, g.sides)));
        let recs = u.ops.rev_iter();
        let ghost l = u.ops@;
        let n = recs.len();
        let mut k: usize = 0;
        while k < n
            invariant
                n == recs@.len(),
                recs@ == l.reverse(),
                k <= n,
                self.pieces@.len() == start.pieces.len(),
                start.pieces.len() < 0x7fff_ffff,
                self@ == revert_all(start, l.subrange(n - k, n as int)),
            decreases n - k,
        {
            let ghost before = self@;
            let r = recs[k];
            assert(r == l[n - 1 - k]);
            self.revert_op(&r);
            proof {
                let y = l.subrange(n - k, n as int);
                let x = seq![r];
                assert(l.subrange(n - k - 1, n as int) =~= x + y);
                crate::ops::lemma_revert_all_concat(start, x, y);
                assert(x.drop_last() =~= Seq::<OpUndo>::empty());
                assert(revert_all(before, x) == revert_all(spec_revert(before, r), x.drop_last()));
            }
            k += 1;
        }
        assert(l.subrange(0, n as int) =~= l);
        self.hash = u.prior_hash;
        assert(self@ =~= unmade(*g, old(self)@, *u));
    }

    /// Null move: pass the turn, clearing the en-passant marker. Returns
    /// the prior marker and key for `unmake_null`.
    pub fn make_null(&mut self, g: &GameDef) -> (prior: (u16, u64))
        requires
            old(self).wf(*g),
        ensures
            final(self).wf(*g),
            prior == (old(self).ep, old(self).hash),
            final(self)@ == (PosView { ep: NO_SQ, stm: next_side(old(self).stm, g.sides), hash: final(self).hash, ..old(self)@ }),
    {
        let prior = (self.ep, self.hash);
        let k = g.zobrist.ep_key(self.ep);
        self.hash = self.hash ^ k;
        self.ep = NO_SQ;
        proof {
            crate::zobrist::lemma_ep_key_none(g.zobrist);
            lemma_full_ep(g.zobrist, old(self)@, self@);
            lemma_xor(old(self).hash, k, 0);
            lemma_xor(k, 0, 0);
        }
        self.advance_stm(g);
        prior
    }

    pub fn unmake_null(&mut self, g: &GameDef, prior: (u16, u64))
        requires
            g.wf(),
        ensures
            final(self)@ == (PosView { ep: prior.0, stm: prev_side(old(self).stm, g.sides), hash: prior.1, ..old(self)@ }),
    {
        self.stm = ((self.stm as u16 + g.sides as u16 - 1) % (g.sides as u16)) as u8;
        self.ep = prior.0;
        self.hash = prior.1;
    }
}


impl Position {
    /// The dominant Mover shape: optional `CaptureAt(victim)` with the
    /// row's strike rule — a strike on an armored victim leaves the mover
    /// in place when the row says so — then the relocation from→to with
    /// any promotion fused in, the landing-hazard hook, and the row's
    /// trailing op. A move whose origin holds no piece changes nothing.
    pub fn mover_apply(&mut self, g: &GameDef, mv: &Move, victim: Option<SqRef>, strike_stops_mover: bool,
        trailing: Option<MicroOp>, log: &mut OpLog)
        requires
            old(self).wf(*g),
        ensures
            final(self)@.plain() == spec_mover(*g, old(self)@.plain(), *mv, victim, strike_stops_mover, trailing),
            op_step(*g, old(self)@, final(self)@, old(log)@, final(log)@),
    {
        let ghost v0 = self@;
        let ghost l0 = log@;
        proof { lemma_op_step_refl(*g, v0, l0); }
        let nc = g.board.ncells();
        if (mv.from as usize) >= nc {
            return;
        }
        let e = self.board[mv.from as usize];
        if e < 0 {
            return;
        }
        let mi = e as usize;
        let mut moved_to_dest = true;
        match victim {
            Some(v) => {
                let victim_sq = match v {
                    SqRef::Aux => mv.aux,
                    _ => mv.to,
                };
                if (victim_sq as usize) < nc && self.board[victim_sq as usize] >= 0 {
                    let ghost v1 = self@;
                    let ghost l1 = log@;
                    let killed = self.op_capture_at(g, victim_sq, log);
                    proof { lemma_op_step_trans(*g, v0, v1, self@, l0, l1, log@); }
                    if !killed && strike_stops_mover {
                        moved_to_dest = false;
                    }
                }
            },
            None => {},
        }
        if moved_to_dest && (mv.to as usize) < nc {
            let promo = match mv.promo {
                Some(t) => if (t as usize) < g.types.len() { Some(t) } else { None },
                None => None,
            };
            let ghost v1 = self@;
            let ghost l1 = log@;
            self.op_relocate_promo(g, mi, mv.to, promo, log);
            proof { lemma_op_step_trans(*g, v0, v1, self@, l0, l1, log@); }
        }
        let ghost v2 = self@;
        let ghost l2 = log@;
        self.hazard_landing(g, mi, log);
        proof { lemma_op_step_trans(*g, v0, v2, self@, l0, l2, log@); }
        match trailing {
            Some(op) => {
                let ghost v3 = self@;
                let ghost l3 = log@;
                let ctx = self.ctx_of(mv);
                self.apply_op(g, &op, &ctx, log);
                proof { lemma_op_step_trans(*g, v0, v3, self@, l0, l3, log@); }
            },
            None => {},
        }
    }

    /// The op context of a move at the current turn.
    pub fn ctx_of(&self, mv: &Move) -> (ctx: OpCtx)
        ensures
            ctx == spec_ctx(self@, *mv),
            ctx.from == mv.from,
            ctx.to == mv.to,
            ctx.aux == mv.aux,
            ctx.side == self.stm,
            ctx.drop_type == mv.drop_type,
            ctx.promo == mv.promo,
            ctx.amount == (match mv.effect { Effect::Heal(n) => n as i16, _ => 0i16 }),
    {
        OpCtx {
            from: mv.from,
            to: mv.to,
            aux: mv.aux,
            amount: match mv.effect {
                Effect::Heal(n) => n as i16,
                _ => 0,
            },
            side: self.stm,
            drop_type: mv.drop_type,
            promo: mv.promo,
        }
    }

    /// Interpret an op list against the move, in order.
    pub fn apply_move_ops(&mut self, g: &GameDef, mv: &Move, ops: &Vec<MicroOp>, log: &mut OpLog)
        requires
            old(self).wf(*g),
        ensures
            final(self)@.plain() == spec_move_ops(*g, old(self)@.plain(), *mv, ops@),
            op_step(*g, old(self)@, final(self)@, old(log)@, final(log)@),
    {
        let ghost v0 = self@;
        let ghost l0 = log@;
        proof { lemma_op_step_refl(*g, v0, l0); }
        let ctx = self.ctx_of(mv);
        let mut k: usize = 0;
        while k < ops.len()
            invariant
                op_step(*g, v0, self@, l0, log@),
                keyed(g.zobrist, v0),
                ctx.side == v0.stm,
                ctx == spec_ctx(v0.plain(), *mv),
                self@.plain() == spec_ops(*g, v0.plain(), ops@, ctx, k as int),
                g.wf(),
                k <= ops@.len(),
            decreases ops@.len() - k,
        {
            let ghost v1 = self@;
            let ghost l1 = log@;
            self.apply_op(g, &ops[k], &ctx, log);
            proof { lemma_op_step_trans(*g, v0, v1, self@, l0, l1, log@); }
            k += 1;
        }
    }

    /// The ability interpreter: the move's effect names its registry row;
    /// target ops then self ops apply. Custom effects branch to the
    /// game-owned row's interpreter.
    pub fn apply_effect_row(&mut self, g: &GameDef, mv: &Move, log: &mut OpLog)
        requires
            old(self).wf(*g),
        ensures
            final(self)@.plain() == spec_effect_row(*g, old(self)@.plain(), *mv),
            op_step(*g, old(self)@, final(self)@, old(log)@, final(log)@),
    {
        match mv.effect {
            Effect::Custom(ci) => {
                self.apply_custom_effect(g, ci, mv, log);
            },
            _ => {
                let ghost v0 = self@;
                let ghost l0 = log@;
                let row = crate::effects::row(mv.effect);
                self.apply_move_ops(g, mv, &row.ops, log);
                let ghost v1 = self@;
                let ghost l1 = log@;
                self.apply_move_ops(g, mv, &row.self_ops, log);
                proof { lemma_op_step_trans(*g, v0, v1, self@, l0, l1, log@); }
            },
        }
    }

    /// Lethal-capable damage: `d` points of damage on piece `i`; the piece
    /// falls at 0 through the capture fate. Composed from existing ops (an
    /// HP drop to 1, then a capture).
    pub fn op_damage_lethal(&mut self, g: &GameDef, i: usize, d: i16, log: &mut OpLog)
        requires
            old(self).wf(*g),
            i < old(self).pieces@.len(),
            d > 0,
        ensures
            final(self)@.plain() == spec_damage(*g, old(self)@.plain(), i as int, d),
            op_step(*g, old(self)@, final(self)@, old(log)@, final(log)@),
    {
        let ghost v0 = self@;
        let ghost l0 = log@;
        if self.hp[i] > d {
            self.op_hp_add(g, i, -d, false, log);
            return;
        }
        proof { lemma_op_step_refl(*g, v0, l0); }
        if self.hp[i] > 1 {
            let drop = 1 - self.hp[i];
            self.op_hp_add(g, i, drop, false, log);
        }
        let ghost v1 = self@;
        let ghost l1 = log@;
        match self.pieces[i].loc {
            Loc::Board(sq) => {
                self.op_capture_at(g, sq, log);
                proof { lemma_op_step_trans(*g, v0, v1, self@, l0, l1, log@); }
            },
            _ => {},
        }
    }

    /// The custom-effect interpreter: the row's ops apply against the
    /// target square, then its self ops against the caster. Negative HP
    /// amounts are lethal at 0; positive self amounts respect the row's cap.
    pub fn apply_custom_effect(&mut self, g: &GameDef, ci: u16, mv: &Move, log: &mut OpLog)
        requires
            old(self).wf(*g),
        ensures
            final(self)@.plain() == spec_custom_effect(*g, old(self)@.plain(), ci, *mv),
            op_step(*g, old(self)@, final(self)@, old(log)@, final(log)@),
    {
        let ghost v0 = self@;
        let ghost l0 = log@;
        proof { lemma_op_step_refl(*g, v0, l0); }
        if (ci as usize) >= g.custom_effects.len() {
            return;
        }
        let nc = g.board.ncells();
        let row = &g.custom_effects[ci as usize];
        let ctx = self.ctx_of(mv);
        let mut k: usize = 0;
        while k < row.ops.len()
            invariant
                op_step(*g, v0, self@, l0, log@),
                keyed(g.zobrist, v0),
                ctx.side == v0.stm,
                ctx == spec_ctx(v0.plain(), *mv),
                g.wf(),
                nc == g.ncells(),
                k <= row.ops@.len(),
                (ci as int) < g.custom_effects@.len(),
                *row == g.custom_effects@[ci as int],
                self@.plain() == spec_custom_ops(*g, v0.plain(), *mv, ctx, row.ops@, k as int),
            decreases row.ops@.len() - k,
        {
            let ghost v1 = self@;
            let ghost l1 = log@;
            proof { lemma_op_step_refl(*g, v1, l1); }
            let op = row.ops[k];
            match op {
                MicroOp::HpAdd { n: HpAmt::Lit(v), cap: _ } => {
                    if v < 0 {
                        if (mv.to as usize) < nc {
                            let ti = self.board[mv.to as usize];
                            if ti >= 0 && v > -32768 {
                                self.op_damage_lethal(g, ti as usize, -v, log);
                            }
                        }
                    } else {
                        self.apply_op(g, &op, &ctx, log);
                    }
                },
                _ => self.apply_op(g, &op, &ctx, log),
            }
            proof { lemma_op_step_trans(*g, v0, v1, self@, l0, l1, log@); }
            k += 1;
        }
        let ghost w1 = self@.plain();
        let mut k: usize = 0;
        while k < row.self_ops.len()
            invariant
                op_step(*g, v0, self@, l0, log@),
                keyed(g.zobrist, v0),
                g.wf(),
                nc == g.ncells(),
                k <= row.self_ops@.len(),
                self@.plain() == spec_custom_self_ops(*g, w1, *mv, row.self_ops@, k as int),
            decreases row.self_ops@.len() - k,
        {
            let ghost v1 = self@;
            let ghost l1 = log@;
            proof { lemma_op_step_refl(*g, v1, l1); }
            match row.self_ops[k] {
                MicroOp::HpAdd { n: HpAmt::Lit(v), cap } => {
                    if (mv.from as usize) < nc {
                        let si = self.board[mv.from as usize];
                        if si >= 0 {
                            if v < 0 {
                                if v > -32768 {
                                    self.op_damage_lethal(g, si as usize, -v, log);
                                }
                            } else {
                                self.op_hp_add(g, si as usize, v, cap, log);
                            }
                        }
                    }
                },
                _ => {},
            }
            proof { lemma_op_step_trans(*g, v0, v1, self@, l0, l1, log@); }
            k += 1;
        }
    }

    /// Overclock ⟨move, move, self −1 HP⟩: step 1 is a quiet move from→to;
    /// step 2 to→aux may capture or strike (a strike leaves the mover on
    /// `to`).
    pub fn apply_sequenced(&mut self, g: &GameDef, mv: &Move, log: &mut OpLog)
        requires
            old(self).wf(*g),
        ensures
            final(self)@.plain() == spec_sequenced(*g, old(self)@.plain(), *mv),
            op_step(*g, old(self)@, final(self)@, old(log)@, final(log)@),
    {
        let ghost v0 = self@;
        let ghost l0 = log@;
        proof { lemma_op_step_refl(*g, v0, l0); }
        let nc = g.board.ncells();
        if (mv.from as usize) >= nc || (mv.to as usize) >= nc || (mv.aux as usize) >= nc {
            return;
        }
        let e = self.board[mv.from as usize];
        if e < 0 {
            return;
        }
        let mi = e as usize;
        self.op_relocate_promo(g, mi, mv.to, None, log);
        let ghost v1 = self@;
        let ghost l1 = log@;
        let killed2 = self.op_capture_at(g, mv.aux, log);
        proof { lemma_op_step_trans(*g, v0, v1, self@, l0, l1, log@); }
        if killed2 || self.board[mv.aux as usize] < 0 {
            let ghost v2 = self@;
            let ghost l2 = log@;
            self.op_relocate_promo(g, mi, mv.aux, None, log);
            proof { lemma_op_step_trans(*g, v0, v2, self@, l0, l2, log@); }
        }
        let ghost v3 = self@;
        let ghost l3 = log@;
        self.op_hp_add(g, mi, -1, false, log);
        proof { lemma_op_step_trans(*g, v0, v3, self@, l0, l3, log@); }
        let ghost v4 = self@;
        let ghost l4 = log@;
        self.hazard_landing(g, mi, log);
        proof { lemma_op_step_trans(*g, v0, v4, self@, l0, l4, log@); }
    }
}




/// The op context of move `mv` played in `v`.
pub open spec fn spec_ctx(v: PosView, mv: Move) -> OpCtx {
    OpCtx {
        from: mv.from,
        to: mv.to,
        aux: mv.aux,
        amount: match mv.effect { Effect::Heal(n) => n as i16, _ => 0i16 },
        side: v.stm,
        drop_type: mv.drop_type,
        promo: mv.promo,
    }
}

/// The first `n` ops of `ops` applied in order, all against context `ctx`.
pub open spec fn spec_ops(g: GameDef, w: PosView, ops: Seq<MicroOp>, ctx: OpCtx, n: int) -> PosView
    decreases n,
{
    if n <= 0 {
        w
    } else {
        crate::ops::spec_apply_op(g, spec_ops(g, w, ops, ctx, n - 1), ops[n - 1], ctx)
    }
}

/// An op list applied against the move's context in `w`.
pub open spec fn spec_move_ops(g: GameDef, w: PosView, mv: Move, ops: Seq<MicroOp>) -> PosView {
    spec_ops(g, w, ops, spec_ctx(w, mv), ops.len() as int)
}

/// A promotion the game knows, else none.
pub open spec fn spec_known_promo(g: GameDef, promo: Option<TypeId>) -> Option<TypeId> {
    match promo {
        Some(t) => if (t as int) < g.types@.len() { Some(t) } else { None },
        None => None,
    }
}

/// The victim cell a mover script strikes, if it names one.
pub open spec fn spec_victim_sq(mv: Move, victim: Option<SqRef>) -> Option<u16> {
    match victim {
        Some(SqRef::Aux) => Some(mv.aux),
        Some(_) => Some(mv.to),
        None => None,
    }
}

/// The mover script strikes a piece: its victim cell is on the board and
/// occupied.
pub open spec fn spec_strikes(g: GameDef, w: PosView, mv: Move, victim: Option<SqRef>) -> bool {
    match spec_victim_sq(mv, victim) {
        Some(s) => (s as int) < g.ncells() && w.board[s as int] >= 0,
        None => false,
    }
}

/// The mover script: strike-or-kill the victim; the mover then relocates
/// to `to` (with its promotion) unless a strike left an armored victim
/// standing and the row says a strike stops the mover; then the landing
/// hazard and the row's trailing op. Nothing when `from` holds no piece.
pub open spec fn spec_mover(g: GameDef, w: PosView, mv: Move, victim: Option<SqRef>, strike_stops_mover: bool,
    trailing: Option<MicroOp>) -> PosView {
    let nc = g.ncells() as int;
    if mv.from as int >= nc || w.board[mv.from as int] < 0 {
        w
    } else {
        let mi = w.board[mv.from as int] as int;
        let vsq = spec_victim_sq(mv, victim)->0 as int;
        let struck = spec_strikes(g, w, mv, victim);
        let w1 = if struck { crate::ops::spec_capture(g, w, vsq) } else { w };
        let stays = struck && !crate::ops::spec_capture_kills(w, vsq) && strike_stops_mover;
        let w2 = if !stays && (mv.to as int) < nc {
            crate::ops::spec_relocate(w1, mi, mv.to, spec_known_promo(g, mv.promo))
        } else {
            w1
        };
        let w3 = crate::ops::spec_hazard(g, w2, mi);
        match trailing {
            Some(op) => crate::ops::spec_apply_op(g, w3, op, spec_ctx(w3, mv)),
            None => w3,
        }
    }
}

/// Lethal-capable damage `d` to piece `i`: above `d` hit points it loses
/// `d`; otherwise it drops to one and takes a killing strike where it
/// stands.
pub open spec fn spec_damage(g: GameDef, w: PosView, i: int, d: i16) -> PosView {
    if w.hp[i] > d {
        crate::ops::spec_hp_add(g, w, i, (-d) as i16, false)
    } else {
        let w1 = if w.hp[i] > 1 { crate::ops::spec_hp_add(g, w, i, (1 - w.hp[i]) as i16, false) } else { w };
        match w1.pieces[i].loc {
            Loc::Board(sq) => crate::ops::spec_capture(g, w1, sq as int),
            _ => w1,
        }
    }
}

/// One target op of a custom effect row: negative literal hit points are
/// lethal-capable damage to the occupant of `to`; other ops apply as
/// registry ops.
pub open spec fn spec_custom_step(g: GameDef, w: PosView, mv: Move, ctx: OpCtx, op: MicroOp) -> PosView {
    match op {
        MicroOp::HpAdd { n: HpAmt::Lit(v), cap: _ } => if v < 0 {
            if (mv.to as int) < g.ncells() && w.board[mv.to as int] >= 0 && v > -32768 {
                spec_damage(g, w, w.board[mv.to as int] as int, (-v) as i16)
            } else {
                w
            }
        } else {
            crate::ops::spec_apply_op(g, w, op, ctx)
        },
        _ => crate::ops::spec_apply_op(g, w, op, ctx),
    }
}

pub open spec fn spec_custom_ops(g: GameDef, w: PosView, mv: Move, ctx: OpCtx, ops: Seq<MicroOp>, n: int) -> PosView
    decreases n,
{
    if n <= 0 {
        w
    } else {
        spec_custom_step(g, spec_custom_ops(g, w, mv, ctx, ops, n - 1), mv, ctx, ops[n - 1])
    }
}

/// One self op of a custom effect row: literal hit points on the caster on
/// `from` (damage lethal-capable, healing capped as the row says).
pub open spec fn spec_custom_self_step(g: GameDef, w: PosView, mv: Move, op: MicroOp) -> PosView {
    match op {
        MicroOp::HpAdd { n: HpAmt::Lit(v), cap } => if (mv.from as int) < g.ncells() && w.board[mv.from as int] >= 0 {
            let si = w.board[mv.from as int] as int;
            if v < 0 {
                if v > -32768 { spec_damage(g, w, si, (-v) as i16) } else { w }
            } else {
                crate::ops::spec_hp_add(g, w, si, v, cap)
            }
        } else {
            w
        },
        _ => w,
    }
}

pub open spec fn spec_custom_self_ops(g: GameDef, w: PosView, mv: Move, ops: Seq<MicroOp>, n: int) -> PosView
    decreases n,
{
    if n <= 0 {
        w
    } else {
        spec_custom_self_step(g, spec_custom_self_ops(g, w, mv, ops, n - 1), mv, ops[n - 1])
    }
}

/// A custom effect: the row's target ops, then its self ops; nothing for a
/// row the game does not have.
pub open spec fn spec_custom_effect(g: GameDef, w: PosView, ci: u16, mv: Move) -> PosView {
    if (ci as int) >= g.custom_effects@.len() {
        w
    } else {
        let row = g.custom_effects@[ci as int];
        let w1 = spec_custom_ops(g, w, mv, spec_ctx(w, mv), row.ops@, row.ops@.len() as int);
        spec_custom_self_ops(g, w1, mv, row.self_ops@, row.self_ops@.len() as int)
    }
}

/// An ability: its registry row's target ops then self ops, or the game's
/// custom row.
pub open spec fn spec_effect_row(g: GameDef, w: PosView, mv: Move) -> PosView {
    match mv.effect {
        Effect::Custom(ci) => spec_custom_effect(g, w, ci, mv),
        _ => {
            let w1 = spec_move_ops(g, w, mv, crate::effects::spec_effect_ops(mv.effect));
            spec_move_ops(g, w1, mv, crate::effects::spec_effect_self_ops(mv.effect))
        },
    }
}

/// The two-step compound: a quiet step from→to, then a strike-or-kill on
/// `aux`, a step onto `aux` when it is free afterwards, one hit point of
/// self damage, and the landing hazard.
pub open spec fn spec_sequenced(g: GameDef, w: PosView, mv: Move) -> PosView {
    let nc = g.ncells() as int;
    if mv.from as int >= nc || mv.to as int >= nc || mv.aux as int >= nc || w.board[mv.from as int] < 0 {
        w
    } else {
        let mi = w.board[mv.from as int] as int;
        let w1 = crate::ops::spec_relocate(w, mi, mv.to, None);
        let w2 = crate::ops::spec_capture(g, w1, mv.aux as int);
        let w3 = if crate::ops::spec_capture_kills(w1, mv.aux as int) || w2.board[mv.aux as int] < 0 {
            crate::ops::spec_relocate(w2, mi, mv.aux, None)
        } else {
            w2
        };
        crate::ops::spec_hazard(g, crate::ops::spec_hp_add(g, w3, mi, -1i16, false), mi)
    }
}


/// The position a move leaves, its key aside: the marker of the last
/// double step is cleared, the move's script runs, and the turn passes.
pub open spec fn spec_make(g: GameDef, v: PosView, mv: Move) -> PosView {
    crate::move_defs::spec_apply_script(g, crate::ops::spec_set_ep(v.plain(), NO_SQ), mv)
        .with_stm(next_side(v.stm, g.sides))
}


/// The strike rule: a normal move onto a piece with more than one hit
/// point costs that piece one hit point and leaves the attacker where it
/// stood (no landing hazard acts on its own cell); nothing else but the
/// turn and the cleared double-step marker changes.
pub proof fn lemma_strike(g: GameDef, v: PosView, mv: Move)
    requires
        view_wf(v, g),
        mv.kind == crate::moves::MoveKind::Normal,
        (mv.from as int) < g.ncells(),
        (mv.to as int) < g.ncells(),
        v.board[mv.from as int] >= 0,
        v.board[mv.to as int] >= 0,
        v.hp[v.board[mv.to as int] as int] > 1,
        !crate::terrain_defs::spec_has_on_land(v.terrain[mv.from as int]),
        (v.terrain[mv.from as int] as int) < NT,
    ensures
        spec_make(g, v, mv) == (PosView {
            hp: v.hp.update(v.board[mv.to as int] as int, (v.hp[v.board[mv.to as int] as int] - 1) as i16),
            ep: NO_SQ,
            stm: next_side(v.stm, g.sides),
            hash: 0,
            ..v
        }),
{
    let mi = v.board[mv.from as int];
    assert(v.pieces[mi as int].loc == Loc::Board(mv.from));
}


/// A made position with its side to move reset: its key aside, the
/// position the move leaves with that side to move.
pub proof fn lemma_make_plain_stm(w: PosView, after: PosView, s: Side)
    requires
        w == after.with_stm(s).with_hash(w.hash),
    ensures
        w.plain() == after.plain().with_stm(s),
{
    assert(w.plain() =~= after.plain().with_stm(s));
}


/// A view carrying its ground-truth key.
pub open spec fn keyed_view(g: GameDef, v: PosView) -> PosView {
    v.with_hash(g.zobrist.spec_full_hash(v))
}

/// The position a move leaves, key included, from a position whose key is
/// the ground truth.
pub open spec fn spec_made(g: GameDef, v: PosView, mv: Move) -> PosView {
    keyed_view(g, spec_make(g, v, mv))
}

/// A view whose key is the ground truth is its keyless self with that key.
pub proof fn lemma_keyed_view(g: GameDef, w: PosView)
    requires
        keyed(g.zobrist, w),
    ensures
        w == keyed_view(g, w.plain()),
{
    assert(w.plain().with_hash(0) =~= w.with_hash(0));
    assert(w =~= keyed_view(g, w.plain()));
}


} // verus!
