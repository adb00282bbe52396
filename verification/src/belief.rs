//! The belief substrate and the belief-sharpness dial.
//!
//! Ground truth is strictly separated from each agent's observed view. In
//! the hidden-identity regime piece *locations* are public and piece
//! *rules* are hidden until observed in play. Each hidden enemy piece
//! carries a knowledge mask: the set of still-consistent type hypotheses,
//! filtered by every observed action. Determinization samples full worlds
//! consistent with belief and army-pool counts.

use vstd::prelude::*;
use vstd::multiset::Multiset;
use crate::game::{GameDef, Side, TypeId};
use crate::move_defs::{script, Source};
use crate::movegen::{pseudo_moves, spec_pseudo_moves};
use crate::cost::spec_from_pieces;
use crate::moves::{Move, MoveKind};
use crate::position::{Loc, Piece, PosView, Position, piece_ok, view_wf};
use crate::rng::{Rng, GOLDEN, spec_mix, spec_shuffle, spec_state_after};

verus! {

#[derive(Clone, Debug)]
pub struct Belief {
    /// The observing side.
    pub observer: Side,
    /// `candidates[piece_index]` = still-consistent types for that enemy
    /// piece; an empty list means not tracked (own piece or revealed).
    pub candidates: Vec<Vec<TypeId>>,
}

/// The hypothesis lists of a belief, as sequences.
pub open spec fn cands_of(b: Belief) -> Seq<Seq<TypeId>> {
    Seq::new(b.candidates@.len(), |i: int| b.candidates@[i]@)
}

/// An enemy non-royal piece: its type is hidden at the cold open (royals
/// are public, the check rule needs them).
pub open spec fn hidden_from(g: GameDef, p: Piece, observer: Side) -> bool {
    p.side != observer && !g.types@[p.t as int].royal
}

/// Some hidden piece of the position has type `t`.
pub open spec fn enemy_type(g: GameDef, pieces: Seq<Piece>, observer: Side, t: int) -> bool {
    exists|j: int| 0 <= j < pieces.len() && #[trigger] hidden_from(g, pieces[j], observer) && pieces[j].t == t
}

/// The enemy army's hidden types below `n`, each once, ascending.
pub open spec fn enemy_types_below(g: GameDef, pieces: Seq<Piece>, observer: Side, n: nat) -> Seq<TypeId>
    decreases n,
{
    if n == 0 {
        Seq::empty()
    } else {
        let rest = enemy_types_below(g, pieces, observer, (n - 1) as nat);
        if enemy_type(g, pieces, observer, n - 1) { rest.push((n - 1) as TypeId) } else { rest }
    }
}

/// The cold-open hypothesis list shared by every hidden piece.
pub open spec fn enemy_types(g: GameDef, pieces: Seq<Piece>, observer: Side) -> Seq<TypeId> {
    enemy_types_below(g, pieces, observer, g.types@.len())
}

/// The cold-open belief of `observer` over the given pieces.
pub open spec fn cold_open_cands(g: GameDef, pieces: Seq<Piece>, observer: Side) -> Seq<Seq<TypeId>> {
    Seq::new(pieces.len(), |i: int|
        if hidden_from(g, pieces[i], observer) { enemy_types(g, pieces, observer) } else { Seq::empty() })
}

/// The spread of one hypothesis list is pivotal: at least two hypotheses,
/// and the most valuable is worth more than twice the least valuable
/// (counted as at least 1).
pub open spec fn pivotal_list(c: Seq<TypeId>, material: Seq<i32>) -> bool {
    &&& c.len() >= 2
    &&& exists|lo: int, hi: int| #![trigger c[lo], c[hi]]
        0 <= lo < c.len() && 0 <= hi < c.len()
        && (forall|m: int| 0 <= m < c.len() ==> material[c[m] as int] >= material[c[lo] as int])
        && material[c[hi] as int] > 2 * (if material[c[lo] as int] >= 1 { material[c[lo] as int] as int } else { 1 })
}

/// `b` keeps some of the entries of `a`, in their order, as picked by the
/// strictly increasing positions `ix`.
pub open spec fn sublist_by(b: Seq<TypeId>, a: Seq<TypeId>, ix: Seq<int>) -> bool {
    &&& ix.len() == b.len()
    &&& forall|k: int| 0 <= k < ix.len() ==> 0 <= #[trigger] ix[k] < a.len() && b[k] == a[ix[k]]
    &&& forall|k: int, l: int| 0 <= k < l < ix.len() ==> #[trigger] ix[k] < #[trigger] ix[l]
}

/// `b` is an order-preserving selection of the entries of `a`.
pub open spec fn is_sublist(b: Seq<TypeId>, a: Seq<TypeId>) -> bool {
    exists|ix: Seq<int>| #[trigger] sublist_by(b, a, ix)
}

/// The piece index an observed move reveals information about: the mover
/// of a board-sourced move standing on its origin, or -1.
pub open spec fn observed_index(board: Seq<i32>, mv: Move) -> int {
    if mv.kind == MoveKind::Drop || (mv.from as int) >= board.len() {
        -1
    } else {
        board[mv.from as int] as int
    }
}

/// The pieces on the board among the first `k`, as placement entries, the
/// one on `from` taking type `t`.
pub open spec fn probe_list(pieces: Seq<Piece>, from: u16, t: TypeId, k: int) -> Seq<(TypeId, Side, u16, bool)>
    decreases k,
{
    if k <= 0 {
        Seq::empty()
    } else {
        let rest = probe_list(pieces, from, t, k - 1);
        let p = pieces[k - 1];
        match p.loc {
            Loc::Board(sq) => rest.push((if sq == from { t } else { p.t }, p.side, sq, p.moved)),
            _ => rest,
        }
    }
}

/// The move matches `mv` in origin, destination and kind.
pub open spec fn same_motion(m: Move, mv: Move) -> bool {
    m.from == mv.from && m.to == mv.to && m.kind == mv.kind
}

/// A piece of type `t` on `mv.from` could make `mv`: in the position of
/// the board's pieces with that one retyped, `side` to move, some
/// pseudo-move has `mv`'s origin, destination and kind.
pub open spec fn spec_could_generate(g: GameDef, v: PosView, side: Side, t: TypeId, mv: Move) -> bool {
    let w = crate::cost::spec_from_pieces(g, probe_list(v.pieces, mv.from, t, v.pieces.len() as int), side);
    let ms = crate::movegen::spec_pseudo_moves(g, w);
    exists|j: int| 0 <= j < ms.len() && #[trigger] same_motion(ms[j], mv)
}

/// The hypotheses among the first `k` of `c` that could make `mv`, in order.
pub open spec fn consistent_types(g: GameDef, v: PosView, side: Side, c: Seq<TypeId>, mv: Move, k: int) -> Seq<TypeId>
    decreases k,
{
    if k <= 0 {
        Seq::empty()
    } else {
        consistent_types(g, v, side, c, mv, k - 1)
            + if spec_could_generate(g, v, side, c[k - 1], mv) { seq![c[k - 1]] } else { Seq::empty() }
    }
}

/// Would a piece of type `t` at `mv.from` generate a pseudo-move matching
/// `mv` (origin, destination, kind) in this position?
fn could_generate(g: &GameDef, pos: &Position, side: Side, t: TypeId, mv: &Move) -> (r: bool)
    requires
        pos.wf(*g),
        (t as int) < g.ntypes(),
        side < g.sides,
    ensures
        r == spec_could_generate(*g, pos@, side, t, *mv),
{
    let mut list: Vec<(TypeId, Side, u16, bool)> = Vec::new();
    let mut i: usize = 0;
    while i < pos.pieces.len()
        invariant
            pos.wf(*g),
            (t as int) < g.ntypes(),
            i <= pos.pieces@.len(),
            list@.len() <= i,
            list@ == probe_list(pos@.pieces, mv.from, t, i as int),
            forall|k: int| 0 <= k < list@.len() ==> {
                let e = #[trigger] list@[k];
                &&& (e.0 as int) < g.ntypes()
                &&& e.1 < g.sides
                &&& (e.2 as int) < g.ncells()
            },
        decreases pos.pieces@.len() - i,
    {
        let p = pos.pieces[i];
        assert(crate::position::piece_ok(p, *g));
        match p.loc {
            Loc::Board(sq) => {
                let ty = if sq == mv.from { t } else { p.t };
                list.push((ty, p.side, sq, p.moved));
            },
            _ => {},
        }
        i += 1;
    }
    let probe = Position::from_pieces(g, &list, side);
    proof { crate::cost::lemma_built_from(*g, list@, side, probe@); }
    let ms = pseudo_moves(g, &probe);
    let ghost want = crate::movegen::spec_pseudo_moves(*g,
        crate::cost::spec_from_pieces(*g, probe_list(pos@.pieces, mv.from, t, pos@.pieces.len() as int), side));
    assert(ms@ == want);
    let mut k: usize = 0;
    while k < ms.len()
        invariant
            ms@ == want,
            want == crate::movegen::spec_pseudo_moves(*g,
                crate::cost::spec_from_pieces(*g, probe_list(pos@.pieces, mv.from, t, pos@.pieces.len() as int), side)),
            k <= ms@.len(),
            forall|j: int| 0 <= j < k ==> !#[trigger] same_motion(ms@[j], *mv),
        decreases ms@.len() - k,
    {
        if ms[k].from == mv.from && ms[k].to == mv.to && ms[k].kind == mv.kind {
            assert(same_motion(want[k as int], *mv));
            assert(spec_could_generate(*g, pos@, side, t, *mv));
            return true;
        }
        k += 1;
    }
    false
}

/// The indices of the pieces carrying more than one hypothesis, among the
/// first `n`, ascending.
pub open spec fn hidden_indices(cands: Seq<Seq<TypeId>>, n: nat) -> Seq<usize>
    decreases n,
{
    if n == 0 {
        Seq::empty()
    } else {
        let rest = hidden_indices(cands, (n - 1) as nat);
        if cands[n - 1].len() > 1 { rest.push((n - 1) as usize) } else { rest }
    }
}

/// The types of the pieces at the given indices.
pub open spec fn types_at(pieces: Seq<Piece>, idx: Seq<usize>) -> Seq<TypeId> {
    idx.map_values(|h: usize| pieces[h as int].t)
}

/// The multiset of types that the pieces at the hidden indices carry.
pub open spec fn hidden_pool(cands: Seq<Seq<TypeId>>, pieces: Seq<Piece>) -> Multiset<TypeId> {
    types_at(pieces, hidden_indices(cands, pieces.len())).to_multiset()
}

/// `w` is a full world consistent with the belief: every hidden piece took
/// one of its hypotheses (as type and base), every other piece is as in
/// `truth`, the hidden pieces' types are the army's hidden types over again
/// (as a multiset), and the key is recomputed.
pub open spec fn sampled_world(g: GameDef, cands: Seq<Seq<TypeId>>, truth: PosView, w: PosView) -> bool {
    let base = PosView { pieces: w.pieces, ..truth };
    &&& w == base.with_hash(g.zobrist.spec_full_hash(base))
    &&& w.pieces.len() == truth.pieces.len()
    &&& forall|i: int| 0 <= i < truth.pieces.len() ==> {
        let x = (#[trigger] w.pieces[i]).t;
        if cands[i].len() > 1 {
            &&& w.pieces[i] == (Piece { t: x, base: x, ..truth.pieces[i] })
            &&& cands[i].contains(x)
        } else {
            w.pieces[i] == truth.pieces[i]
        }
    }
    &&& hidden_pool(cands, w.pieces) == hidden_pool(cands, truth.pieces)
}

proof fn lemma_hidden_indices(cands: Seq<Seq<TypeId>>, n: nat)
    requires
        n <= usize::MAX,
    ensures
        ({
            let h = hidden_indices(cands, n);
            &&& forall|k: int| 0 <= k < h.len() ==> (#[trigger] h[k] as int) < n && cands[h[k] as int].len() > 1
            &&& forall|k: int, l: int| 0 <= k < l < h.len() ==> #[trigger] h[k] < #[trigger] h[l]
            &&& forall|i: int| 0 <= i < n && #[trigger] cands[i].len() > 1 ==> h.contains(i as usize)
        }),
    decreases n,
{
    if n > 0 {
        lemma_hidden_indices(cands, (n - 1) as nat);
        let r = hidden_indices(cands, (n - 1) as nat);
        let h = hidden_indices(cands, n);
        assert forall|i: int| 0 <= i < n && #[trigger] cands[i].len() > 1 implies h.contains(i as usize) by {
            if i < n - 1 {
                let k = choose|k: int| 0 <= k < r.len() && r[k] == i as usize;
                assert(h[k] == i as usize);
            } else {
                assert(h[h.len() - 1] == i as usize);
            }
        }
    }
}

/// Reordering the indices keeps the multiset of the types found there.
proof fn lemma_types_at_multiset(pieces: Seq<Piece>, a: Seq<usize>, b: Seq<usize>)
    requires
        a.to_multiset() == b.to_multiset(),
    ensures
        types_at(pieces, a).to_multiset() == types_at(pieces, b).to_multiset(),
    decreases a.len(),
{
    broadcast use vstd::seq_lib::group_to_multiset_ensures;
    broadcast use vstd::multiset::group_multiset_axioms;
    if a.len() == 0 {
        assert(b.to_multiset().len() == 0);
        assert(b.len() == 0);
        assert(types_at(pieces, a) =~= types_at(pieces, b));
    } else {
        let x = a.last();
        let a1 = a.drop_last();
        assert(a1.push(x) =~= a);
        assert(a.to_multiset() == a1.to_multiset().insert(x));
        assert(b.to_multiset().count(x) > 0);
        assert(b.contains(x));
        let j = choose|j: int| 0 <= j < b.len() && b[j] == x;
        let b1 = b.remove(j);
        assert(b1.to_multiset() == b.to_multiset().remove(x));
        assert(a1.to_multiset() =~= b1.to_multiset());
        lemma_types_at_multiset(pieces, a1, b1);
        let tx = pieces[x as int].t;
        assert(types_at(pieces, a) =~= types_at(pieces, a1).push(tx));
        assert(types_at(pieces, b).remove(j) =~= types_at(pieces, b1));
        assert(types_at(pieces, b)[j] == tx);
        assert(types_at(pieces, b1).to_multiset() == types_at(pieces, b).to_multiset().remove(tx));
        assert(types_at(pieces, b).to_multiset().count(tx) > 0);
        assert(types_at(pieces, a).to_multiset() =~= types_at(pieces, b).to_multiset());
    }
}

/// Changing the types of pieces (to real types) keeps a position well formed.
proof fn lemma_retype_wf(g: GameDef, v: PosView, ps: Seq<Piece>)
    requires
        view_wf(v, g),
        ps.len() == v.pieces.len(),
        forall|i: int| 0 <= i < ps.len() ==> {
            &&& (#[trigger] ps[i]).loc == v.pieces[i].loc
            &&& ps[i].side == v.pieces[i].side
            &&& (ps[i].t as int) < g.ntypes()
            &&& (ps[i].base as int) < g.ntypes()
        },
    ensures
        view_wf(PosView { pieces: ps, ..v }, g),
{
    let w = PosView { pieces: ps, ..v };
    assert forall|i: int| 0 <= i < ps.len() implies piece_ok(#[trigger] w.pieces[i], g) by {
        assert(piece_ok(v.pieces[i], g));
    }
    assert forall|sq: int| 0 <= sq < w.board.len() implies {
        let e = #[trigger] w.board[sq];
        e == -1 || (0 <= e < w.pieces.len() && w.pieces[e as int].loc == crate::position::Loc::Board(sq as u16))
    } by {
        let e = v.board[sq];
        if e != -1 {
            assert(ps[e as int].loc == v.pieces[e as int].loc);
        }
    }
    assert forall|i: int| 0 <= i < w.pieces.len() implies crate::position::on_board_at(#[trigger] w.pieces[i], w.board, i) by {
        assert(crate::position::on_board_at(v.pieces[i], v.board, i));
    }
}

fn copy_indices(v: &Vec<usize>) -> (r: Vec<usize>)
    ensures
        r@ == v@,
{
    let mut r: Vec<usize> = Vec::new();
    let mut k: usize = 0;
    while k < v.len()
        invariant
            k <= v@.len(),
            r@ == v@.subrange(0, k as int),
        decreases v@.len() - k,
    {
        r.push(v[k]);
        k += 1;
        assert(r@ =~= v@.subrange(0, k as int));
    }
    r
}

pub(crate) fn contains_type(v: &Vec<TypeId>, t: TypeId) -> (r: bool)
    ensures
        r == v@.contains(t),
{
    let mut k: usize = 0;
    while k < v.len()
        invariant
            k <= v@.len(),
            forall|m: int| 0 <= m < k ==> v@[m] != t,
        decreases v@.len() - k,
    {
        if v[k] == t {
            return true;
        }
        k += 1;
    }
    false
}

/// The first index from `k` on where `v` holds `t` (the length when none).
pub open spec fn first_index(v: Seq<TypeId>, t: TypeId, k: int) -> int
    decreases v.len() - k,
{
    if k < 0 || k >= v.len() {
        v.len() as int
    } else if v[k] == t {
        k
    } else {
        first_index(v, t, k + 1)
    }
}

fn position_of(v: &Vec<TypeId>, t: TypeId) -> (r: usize)
    requires
        v@.contains(t),
    ensures
        r < v@.len(),
        v@[r as int] == t,
        r == first_index(v@, t, 0),
{
    let mut k: usize = 0;
    while k < v.len()
        invariant
            k <= v@.len(),
            v@.contains(t),
            forall|m: int| 0 <= m < k ==> v@[m] != t,
            first_index(v@, t, 0) == first_index(v@, t, k as int),
        decreases v@.len() - k,
    {
        if v[k] == t {
            return k;
        }
        k += 1;
    }
    k
}

fn copy_types(v: &Vec<TypeId>) -> (r: Vec<TypeId>)
    ensures
        r@ == v@,
{
    let mut r: Vec<TypeId> = Vec::new();
    let mut k: usize = 0;
    while k < v.len()
        invariant
            k <= v@.len(),
            r@ == v@.subrange(0, k as int),
        decreases v@.len() - k,
    {
        r.push(v[k]);
        k += 1;
        assert(r@ =~= v@.subrange(0, k as int));
    }
    r
}

impl Belief {
    /// Cold open: every enemy non-royal piece could be any type of the
    /// enemy army's (hidden) types.
    pub fn cold_open(g: &GameDef, pos: &Position, observer: Side) -> (b: Self)
        requires
            pos.wf(*g),
        ensures
            b.observer == observer,
            cands_of(b) == cold_open_cands(*g, pos.pieces@, observer),
    {
        let ntypes = g.types.len();
        let ghost pieces = pos.pieces@;
        let mut enemy: Vec<TypeId> = Vec::new();
        let mut t: usize = 0;
        while t < ntypes
            invariant
                pos.wf(*g),
                pieces == pos.pieces@,
                ntypes == g.types@.len(),
                ntypes < 256,
                t <= ntypes,
                enemy@ == enemy_types_below(*g, pieces, observer, t as nat),
            decreases ntypes - t,
        {
            let mut found = false;
            let mut i: usize = 0;
            while i < pos.pieces.len()
                invariant
                    pos.wf(*g),
                    pieces == pos.pieces@,
                    t < ntypes,
                    ntypes == g.types@.len(),
                    i <= pieces.len(),
                    found <==> exists|j: int| 0 <= j < i && #[trigger] hidden_from(*g, pieces[j], observer) && pieces[j].t == t,
                decreases pieces.len() - i,
            {
                let p = pos.pieces[i];
                assert((p.t as int) < ntypes);
                let hid = p.side != observer && !g.types[p.t as usize].royal;
                assert(hid == hidden_from(*g, pieces[i as int], observer));
                if hid && p.t as usize == t {
                    found = true;
                }
                i += 1;
            }
            if found {
                enemy.push(t as TypeId);
            }
            t += 1;
        }
        let mut candidates: Vec<Vec<TypeId>> = Vec::new();
        let mut i: usize = 0;
        while i < pos.pieces.len()
            invariant
                pos.wf(*g),
                pieces == pos.pieces@,
                ntypes == g.types@.len(),
                enemy@ == enemy_types(*g, pieces, observer),
                i <= pieces.len(),
                candidates@.len() == i,
                forall|k: int| 0 <= k < i ==> (#[trigger] candidates@[k])@ == cold_open_cands(*g, pieces, observer)[k],
            decreases pieces.len() - i,
        {
            let p = pos.pieces[i];
            assert((p.t as int) < ntypes);
            if p.side != observer && !g.types[p.t as usize].royal {
                candidates.push(copy_types(&enemy));
            } else {
                candidates.push(Vec::new());
            }
            i += 1;
        }
        let b = Belief { observer, candidates };
        assert(cands_of(b) =~= cold_open_cands(*g, pieces, observer));
        b
    }

    /// Fully revealed (point mass): the perfect-information limit.
    pub fn revealed(pos: &Position, observer: Side) -> (b: Self)
        ensures
            b.observer == observer,
            cands_of(b) == Seq::new(pos.pieces@.len(), |i: int| Seq::<TypeId>::empty()),
    {
        let mut candidates: Vec<Vec<TypeId>> = Vec::new();
        let mut i: usize = 0;
        while i < pos.pieces.len()
            invariant
                i <= pos.pieces@.len(),
                candidates@.len() == i,
                forall|k: int| 0 <= k < i ==> (#[trigger] candidates@[k])@ == Seq::<TypeId>::empty(),
            decreases pos.pieces@.len() - i,
        {
            candidates.push(Vec::new());
            i += 1;
        }
        let b = Belief { observer, candidates };
        assert(cands_of(b) =~= Seq::new(pos.pieces@.len(), |i: int| Seq::<TypeId>::empty()));
        b
    }

    /// Is any pivotal uncertainty left? A hidden piece whose hypotheses
    /// disagree by more than a factor-2 value spread could swing the game.
    pub fn pivotal(&self, material: &[i32]) -> (r: bool)
        requires
            forall|i: int, k: int| 0 <= i < self.candidates@.len() && 0 <= k < self.candidates@[i]@.len()
                ==> (#[trigger] self.candidates@[i]@[k] as int) < material@.len(),
        ensures
            r == exists|i: int| 0 <= i < self.candidates@.len() && #[trigger] pivotal_list(self.candidates@[i]@, material@),
    {
        let mut i: usize = 0;
        while i < self.candidates.len()
            invariant
                i <= self.candidates@.len(),
                forall|i: int, k: int| 0 <= i < self.candidates@.len() && 0 <= k < self.candidates@[i]@.len()
                    ==> (#[trigger] self.candidates@[i]@[k] as int) < material@.len(),
                forall|j: int| 0 <= j < i ==> !#[trigger] pivotal_list(self.candidates@[j]@, material@),
            decreases self.candidates@.len() - i,
        {
            let c = &self.candidates[i];
            if c.len() >= 2 {
                let ghost cs = c@;
                assert(forall|k: int| 0 <= k < cs.len() ==> (cs[k] as int) < material@.len()) by {
                    assert forall|k: int| 0 <= k < cs.len() implies (cs[k] as int) < material@.len() by {
                        assert(self.candidates@[i as int]@[k] == cs[k]);
                    }
                }
                let mut lo: i32 = material[c[0] as usize];
                let mut hi: i32 = lo;
                let ghost mut lo_at: int = 0;
                let ghost mut hi_at: int = 0;
                let mut k: usize = 1;
                while k < c.len()
                    invariant
                        cs == c@,
                        cs.len() >= 2,
                        1 <= k <= cs.len(),
                        forall|k: int| 0 <= k < cs.len() ==> (cs[k] as int) < material@.len(),
                        0 <= lo_at < k,
                        0 <= hi_at < k,
                        lo == material@[cs[lo_at] as int],
                        hi == material@[cs[hi_at] as int],
                        forall|m: int| 0 <= m < k ==> material@[cs[m] as int] >= lo,
                        forall|m: int| 0 <= m < k ==> material@[cs[m] as int] <= hi,
                    decreases cs.len() - k,
                {
                    let v = material[c[k] as usize];
                    if v < lo {
                        lo = v;
                        proof { lo_at = k as int; }
                    }
                    if v > hi {
                        hi = v;
                        proof { hi_at = k as int; }
                    }
                    k += 1;
                }
                let floor: i64 = if lo >= 1 { lo as i64 } else { 1 };
                if hi as i64 > 2 * floor {
                    assert(pivotal_list(cs, material@)) by {
                        assert(cs[lo_at] == cs[lo_at] && cs[hi_at] == cs[hi_at]);
                    }
                    return true;
                }
                assert(!pivotal_list(cs, material@)) by {
                    if pivotal_list(cs, material@) {
                        let (a, z) = choose|a: int, z: int| #![trigger cs[a], cs[z]]
                            0 <= a < cs.len() && 0 <= z < cs.len()
                            && (forall|m: int| 0 <= m < cs.len() ==> material@[cs[m] as int] >= material@[cs[a] as int])
                            && material@[cs[z] as int] > 2 * (if material@[cs[a] as int] >= 1 { material@[cs[a] as int] as int } else { 1 });
                        assert(material@[cs[a] as int] <= lo);
                        assert(material@[cs[lo_at] as int] >= material@[cs[a] as int]);
                        assert(material@[cs[z] as int] <= hi);
                    }
                }
            }
            i += 1;
        }
        false
    }

    /// Belief update from one observed enemy action: filter the mover's
    /// hypotheses to types whose kernels could produce the move in the
    /// pre-move position. A drop reveals its type directly; a filter that
    /// would leave nothing keeps the old list.
    pub fn observe(&mut self, g: &GameDef, pre: &Position, mv: &Move)
        requires
            pre.wf(*g),
            old(self).candidates@.len() == pre.pieces@.len(),
            forall|i: int, k: int| 0 <= i < old(self).candidates@.len() && 0 <= k < old(self).candidates@[i]@.len()
                ==> (#[trigger] old(self).candidates@[i]@[k] as int) < g.ntypes(),
        ensures
            final(self).observer == old(self).observer,
            cands_of(*final(self)).len() == cands_of(*old(self)).len(),
            ({
                let ix = observed_index(pre.board@, *mv);
                if ix < 0 || cands_of(*old(self))[ix].len() <= 1 {
                    cands_of(*final(self)) == cands_of(*old(self))
                } else {
                    &&& forall|i: int| 0 <= i < cands_of(*old(self)).len() && i != ix
                        ==> #[trigger] cands_of(*final(self))[i] == cands_of(*old(self))[i]
                    &&& cands_of(*final(self))[ix].len() >= 1
                    &&& is_sublist(cands_of(*final(self))[ix], cands_of(*old(self))[ix])
                    &&& ({
                        let c = cands_of(*old(self))[ix];
                        let f = consistent_types(*g, pre@, pre@.pieces[ix].side, c, *mv, c.len() as int);
                        cands_of(*final(self))[ix] == if f.len() > 0 { f } else { c }
                    })
                }
            }),
    {
        let ghost old_c = cands_of(*self);
        let row = script(mv.kind);
        if matches!(row.source, Source::Hand) {
            return;
        }
        if mv.from as usize >= pre.board.len() {
            return;
        }
        let e = pre.board[mv.from as usize];
        if e < 0 {
            return;
        }
        let idx = e as usize;
        if self.candidates[idx].len() <= 1 {
            return;
        }
        let mover = pre.pieces[idx];
        assert(crate::position::piece_ok(mover, *g));
        let mut consistent: Vec<TypeId> = Vec::new();
        let ghost mut ix: Seq<int> = Seq::empty();
        let ghost cur = self.candidates@[idx as int]@;
        let mut k: usize = 0;
        while k < self.candidates[idx].len()
            invariant
                pre.wf(*g),
                idx < self.candidates@.len(),
                cur == self.candidates@[idx as int]@,
                mover.side < g.sides,
                forall|k: int| 0 <= k < cur.len() ==> (cur[k] as int) < g.ntypes(),
                k <= cur.len(),
                sublist_by(consistent@, cur, ix),
                forall|m: int| 0 <= m < ix.len() ==> #[trigger] ix[m] < k,
                mover == pre@.pieces[idx as int],
                consistent@ == consistent_types(*g, pre@, mover.side, cur, *mv, k as int),
            decreases cur.len() - k,
        {
            let t = self.candidates[idx][k];
            if could_generate(g, pre, mover.side, t, mv) {
                consistent.push(t);
                proof { ix = ix.push(k as int); }
            }
            k += 1;
            assert(consistent@ =~= consistent_types(*g, pre@, mover.side, cur, *mv, k as int));
        }
        if consistent.len() > 0 {
            self.candidates.set(idx, consistent);
            assert(sublist_by(cands_of(*self)[idx as int], old_c[idx as int], ix));
        } else {
            let ghost id = Seq::new(cur.len(), |k: int| k);
            assert(sublist_by(cands_of(*self)[idx as int], old_c[idx as int], id));
        }
        assert(observed_index(pre.board@, *mv) == idx as int);
        assert(cands_of(*self).len() == old_c.len());
        assert forall|i: int| 0 <= i < old_c.len() && i != idx implies #[trigger] cands_of(*self)[i] == old_c[i] by {}
    }

}

/// The hypotheses of `c` among its first `k` that the pool `rem` still
/// holds, in the order `c` lists them.
pub open spec fn open_options(c: Seq<TypeId>, rem: Seq<TypeId>, k: int) -> Seq<TypeId>
    decreases k,
{
    if k <= 0 {
        Seq::empty()
    } else {
        open_options(c, rem, k - 1) + if rem.contains(c[k - 1]) { seq![c[k - 1]] } else { Seq::empty() }
    }
}

/// One sampling pass over `ord` from entry `j` on, with the pool `rem` and
/// the generator at `state`: each hidden piece in turn takes the seeded
/// pick among its hypotheses the pool still holds, which leaves the pool.
/// The picks appended to `acc` (`None` when a piece has no option left)
/// and the generator's state after them.
pub open spec fn spec_picks(cands: Seq<Seq<TypeId>>, ord: Seq<usize>, rem: Seq<TypeId>, state: u64, j: int,
    acc: Seq<TypeId>) -> (Option<Seq<TypeId>>, u64)
    decreases ord.len() - j,
{
    if j < 0 || j >= ord.len() {
        (Some(acc), state)
    } else {
        let c = cands[ord[j] as int];
        let opts = open_options(c, rem, c.len() as int);
        if opts.len() == 0 {
            (None, state)
        } else {
            let st = state.wrapping_add(GOLDEN);
            let t = opts[spec_mix(st) as int % opts.len() as int];
            spec_picks(cands, ord, rem.remove(first_index(rem, t, 0)), st, j + 1, acc.push(t))
        }
    }
}

/// Up to `left` sampling attempts from the generator at `state`: each
/// shuffles the hidden indices `h`, then runs a pass with the full pool.
/// The first successful attempt's order and picks (`None` when all fail)
/// and the generator's state after the attempts made.
pub open spec fn spec_attempts(cands: Seq<Seq<TypeId>>, h: Seq<usize>, pool: Seq<TypeId>, state: u64, left: nat)
    -> (Option<(Seq<usize>, Seq<TypeId>)>, u64)
    decreases left,
{
    if left == 0 {
        (None, state)
    } else {
        let ord = spec_shuffle(h, state, h.len());
        let st1 = spec_state_after(state, if h.len() > 1 { (h.len() - 1) as nat } else { 0 });
        let pass = spec_picks(cands, ord, pool, st1, 0, Seq::empty());
        match pass.0 {
            Some(a) => (Some((ord, a)), pass.1),
            None => spec_attempts(cands, h, pool, pass.1, (left - 1) as nat),
        }
    }
}

/// The pieces with the first `k` picks written in: the piece at `ord[m]`
/// takes type (and base) `a[m]`.
pub open spec fn apply_picks(tp: Seq<Piece>, ord: Seq<usize>, a: Seq<TypeId>, k: int) -> Seq<Piece>
    decreases k,
{
    if k <= 0 {
        tp
    } else {
        apply_picks(tp, ord, a, k - 1).update(ord[k - 1] as int,
            Piece { t: a[k - 1], base: a[k - 1], ..tp[ord[k - 1] as int] })
    }
}

/// The world a determinization gives: the truth when nothing is hidden or
/// every attempt fails, else the truth with the first successful
/// attempt's picks written in, under its ground-truth key.
pub open spec fn spec_world(g: GameDef, cands: Seq<Seq<TypeId>>, truth: PosView, state: u64, tries: nat) -> PosView {
    let h = hidden_indices(cands, truth.pieces.len());
    let out = spec_attempts(cands, h, types_at(truth.pieces, h), state, tries);
    if h.len() == 0 {
        truth
    } else {
        match out.0 {
            Some(pa) => crate::position::keyed_view(g,
                PosView { pieces: apply_picks(truth.pieces, pa.0, pa.1, pa.0.len() as int), ..truth }),
            None => truth,
        }
    }
}

/// Determinization: sample a full world consistent with the belief and
/// with the enemy army's type multiset. Rejection-samples up to `tries`
/// times; falls back to ground truth only if sampling fails.
pub fn determinize(g: &GameDef, truth: &Position, belief: &Belief, rng: &mut Rng, tries: usize) -> (world: Position)
    requires
        truth.wf(*g),
        belief.candidates@.len() >= truth.pieces@.len(),
    ensures
        world.wf(*g),
        world@ == spec_world(*g, cands_of(*belief), truth@, old(rng).state(), tries as nat),
        hidden_indices(cands_of(*belief), truth.pieces@.len()).len() == 0 ==> final(rng).state() == old(rng).state(),
        ({
            let cands = cands_of(*belief);
            let h = hidden_indices(cands, truth.pieces@.len());
            h.len() > 0 ==> final(rng).state()
                == spec_attempts(cands, h, types_at(truth.pieces@, h), old(rng).state(), tries as nat).1
        }),
        hidden_indices(cands_of(*belief), truth.pieces@.len()).len() == 0 || tries == 0 ==> world@ == truth@,
        world@ == truth@ || sampled_world(*g, cands_of(*belief), truth@, world@),
{
    let ghost cands = cands_of(*belief);
    let n = truth.pieces.len();
    let ghost tp = truth.pieces@;
    proof { lemma_hidden_indices(cands, n as nat); }
    let mut hidden: Vec<usize> = Vec::new();
    let mut pool: Vec<TypeId> = Vec::new();
    let mut i: usize = 0;
    while i < n
        invariant
            truth.wf(*g),
            tp == truth.pieces@,
            n == tp.len(),
            cands == cands_of(*belief),
            belief.candidates@.len() >= n,
            i <= n,
            hidden@ == hidden_indices(cands, i as nat),
            pool@ == types_at(tp, hidden@),
        decreases n - i,
    {
        if belief.candidates[i].len() > 1 {
            hidden.push(i);
            pool.push(truth.pieces[i].t);
        }
        i += 1;
        assert(pool@ =~= types_at(tp, hidden@));
    }
    if hidden.len() == 0 {
        return truth.duplicate();
    }
    let ghost h = hidden@;
    proof {
        lemma_hidden_indices(cands, n as nat);
        assert forall|x: TypeId| pool@.contains(x) implies (x as int) < g.ntypes() by {
            let q = choose|q: int| 0 <= q < pool@.len() && pool@[q] == x;
            assert(pool@[q] == tp[h[q] as int].t);
            assert(piece_ok(tp[h[q] as int], *g));
        }
        // Hidden indices are distinct, below n, and each hidden type is real.
        assert(h.no_duplicates()) by {
            assert forall|a: int, b: int| 0 <= a < h.len() && 0 <= b < h.len() && a != b implies h[a] != h[b] by {
                if a < b { assert(h[a] < h[b]); } else { assert(h[b] < h[a]); }
            }
        }
        h.lemma_multiset_has_no_duplicates();
    }
    let ghost st0 = rng.state();
    let mut attempt: usize = 0;
    while attempt < tries
        invariant
            st0 == old(rng).state(),
            attempt <= tries,
            spec_attempts(cands, h, pool@, st0, tries as nat)
                == spec_attempts(cands, h, pool@, rng.state(), (tries - attempt) as nat),
            truth.wf(*g),
            tp == truth.pieces@,
            n == tp.len(),
            cands == cands_of(*belief),
            belief.candidates@.len() >= n,
            h == hidden@,
            h == hidden_indices(cands, n as nat),
            h.len() > 0,
            pool@ == types_at(tp, h),
            forall|x: usize| h.to_multiset().contains(x) ==> h.to_multiset().count(x) == 1,
            forall|x: TypeId| pool@.contains(x) ==> (x as int) < g.ntypes(),
        decreases tries - attempt,
    {
        let ghost sa = rng.state();
        let mut order = copy_indices(&hidden);
        rng.shuffle(&mut order);
        let ghost ord = order@;
        let ghost st1 = rng.state();
        proof {
            broadcast use vstd::seq_lib::group_to_multiset_ensures;
            ord.lemma_multiset_has_no_duplicates_conv();
        }
        let mut remaining = copy_types(&pool);
        let mut assigned: Vec<TypeId> = Vec::new();
        let mut ok = true;
        let mut j: usize = 0;
        while j < order.len()
            invariant_except_break
                ok,
            invariant
                spec_picks(cands, ord, pool@, st1, 0, Seq::empty())
                    == spec_picks(cands, ord, remaining@, rng.state(), j as int, assigned@),
                truth.wf(*g),
                tp == truth.pieces@,
                n == tp.len(),
                cands == cands_of(*belief),
                belief.candidates@.len() >= n,
                h == hidden_indices(cands, n as nat),
                ord == order@,
                ord.to_multiset() == h.to_multiset(),
                pool@ == types_at(tp, h),
                j <= ord.len(),
                assigned@.len() == j,
                assigned@.to_multiset().add(remaining@.to_multiset()) == pool@.to_multiset(),
                forall|k: int| 0 <= k < j ==> cands[ord[k] as int].contains(#[trigger] assigned@[k]),
                forall|x: TypeId| remaining@.contains(x) ==> (x as int) < g.ntypes(),
            ensures
                ok ==> j == ord.len(),
                ok ==> spec_picks(cands, ord, pool@, st1, 0, Seq::empty()) == (Some(assigned@), rng.state()),
                !ok ==> spec_picks(cands, ord, pool@, st1, 0, Seq::empty()) == (None::<Seq<TypeId>>, rng.state()),
            decreases ord.len() - j,
        {
            let i = order[j];
            proof {
                broadcast use vstd::seq_lib::group_to_multiset_ensures;
                assert(ord.to_multiset().count(ord[j as int]) > 0);
                assert(h.contains(i));
                lemma_hidden_indices(cands, n as nat);
            }
            let c = &belief.candidates[i];
            assert(c@ == cands[ord[j as int] as int]);
            let mut opts: Vec<TypeId> = Vec::new();
            let mut k: usize = 0;
            while k < c.len()
                invariant
                    k <= c@.len(),
                    opts@ == open_options(c@, remaining@, k as int),
                    forall|m: int| 0 <= m < opts@.len() ==> remaining@.contains(#[trigger] opts@[m]) && c@.contains(opts@[m]),
                decreases c@.len() - k,
            {
                let x = c[k];
                if contains_type(&remaining, x) {
                    opts.push(x);
                }
                k += 1;
                assert(opts@ =~= open_options(c@, remaining@, k as int));
            }
            if opts.len() == 0 {
                ok = false;
                break;
            }
            let ghost sb = rng.state();
            let r = rng.below(opts.len());
            let t = opts[r];
            let slot = position_of(&remaining, t);
            let ghost before = remaining@;
            let ghost acc0 = assigned@;
            remaining.remove(slot);
            assigned.push(t);
            assert(spec_picks(cands, ord, before, sb, j as int, acc0)
                == spec_picks(cands, ord, remaining@, rng.state(), j + 1, assigned@));
            proof {
                broadcast use vstd::seq_lib::group_to_multiset_ensures;
                broadcast use vstd::multiset::group_multiset_axioms;
                assert(remaining@.to_multiset() == before.to_multiset().remove(t));
                assert(assigned@.to_multiset().add(remaining@.to_multiset()) =~= pool@.to_multiset());
                assert forall|x: TypeId| remaining@.contains(x) implies (x as int) < g.ntypes() by {
                    let m = choose|m: int| 0 <= m < remaining@.len() && remaining@[m] == x;
                    if m < slot {
                        assert(before[m] == x);
                        assert(before.contains(before[m]));
                    } else {
                        assert(before[m + 1] == x);
                        assert(before.contains(before[m + 1]));
                    }
                }
                assert(belief.candidates@[i as int]@ == cands[i as int]);
            }
            j += 1;
        }
        if ok {
            let ghost asg = assigned@;
            proof {
                broadcast use vstd::seq_lib::group_to_multiset_ensures;
                broadcast use vstd::multiset::group_multiset_axioms;
                assert(ord.len() == h.len());
                assert(types_at(tp, h).len() == h.len());
                assert(asg.to_multiset().len() == asg.len());
                assert(remaining@.to_multiset().len() == remaining@.len());
                assert(pool@.to_multiset().len() == pool@.len());
                assert(asg.to_multiset().add(remaining@.to_multiset()).len() == asg.len() + remaining@.len());
                assert(remaining@.len() == 0);
                assert(remaining@.to_multiset() =~= Multiset::empty());
                assert(asg.to_multiset() =~= pool@.to_multiset());
                lemma_hidden_indices(cands, n as nat);
                assert forall|m: int| 0 <= m < ord.len() implies (#[trigger] ord[m] as int) < n by {
                    assert(ord.to_multiset().count(ord[m]) > 0);
                    assert(h.contains(ord[m]));
                }
            }
            let mut world = truth.duplicate();
            let mut k: usize = 0;
            while k < order.len()
                invariant
                    truth.wf(*g),
                    tp == truth.pieces@,
                    n == tp.len(),
                    ord == order@,
                    asg == assigned@,
                    asg.len() == ord.len(),
                    ord.no_duplicates(),
                    forall|m: int| 0 <= m < ord.len() ==> (#[trigger] ord[m] as int) < n,
                    k <= ord.len(),
                    world@ == (PosView { pieces: world.pieces@, ..truth@ }),
                    world.pieces@ == apply_picks(tp, ord, asg, k as int),
                    world.pieces@.len() == n,
                    forall|m: int| 0 <= m < k ==> world.pieces@[#[trigger] ord[m] as int]
                        == (Piece { t: asg[m], base: asg[m], ..tp[ord[m] as int] }),
                    forall|x: int| 0 <= x < n && (forall|m: int| 0 <= m < k ==> #[trigger] ord[m] as int != x)
                        ==> world.pieces@[x] == tp[x],
                decreases ord.len() - k,
            {
                let i = order[k];
                let p = world.pieces[i];
                let t = assigned[k];
                proof {
                    assert forall|m: int| 0 <= m < k implies #[trigger] ord[m] as int != i as int by {
                        assert(ord[m] != ord[k as int]);
                    }
                    assert(p == tp[i as int]);
                }
                world.pieces.set(i, Piece { t: t, base: t, ..p });
                proof {
                    assert forall|m: int| 0 <= m < k + 1 implies world.pieces@[#[trigger] ord[m] as int]
                        == (Piece { t: asg[m], base: asg[m], ..tp[ord[m] as int] }) by {
                        if m < k {
                            assert(ord[m] != ord[k as int]);
                        }
                    }
                }
                k += 1;
            }
            let ghost wp = world.pieces@;
            proof {
                broadcast use vstd::seq_lib::group_to_multiset_ensures;
                lemma_hidden_indices(cands, n as nat);
                // Every hidden index was assigned at its position in `order`.
                assert forall|x: int| 0 <= x < n && cands[x].len() > 1 implies exists|m: int| 0 <= m < ord.len() && #[trigger] ord[m] as int == x by {
                    assert(h.contains(x as usize));
                    assert(h.to_multiset().count(x as usize) > 0);
                    assert(ord.to_multiset().count(x as usize) > 0);
                    assert(ord.contains(x as usize));
                }
                assert forall|x: int| 0 <= x < n && cands[x].len() <= 1 implies forall|m: int| 0 <= m < ord.len() ==> #[trigger] ord[m] as int != x by {
                    assert forall|m: int| 0 <= m < ord.len() implies #[trigger] ord[m] as int != x by {
                        assert(ord.to_multiset().count(ord[m]) > 0);
                        assert(h.contains(ord[m]));
                    }
                }
                // The types written are real types.
                assert forall|m: int| 0 <= m < ord.len() implies (#[trigger] asg[m] as int) < g.ntypes() by {
                    assert(asg.to_multiset().count(asg[m]) > 0);
                    assert(pool@.contains(asg[m]));
                    let q = choose|q: int| 0 <= q < pool@.len() && pool@[q] == asg[m];
                    assert(pool@[q] == tp[h[q] as int].t);
                    assert(piece_ok(tp[h[q] as int], *g));
                }
                lemma_retype_wf(*g, truth@, wp);
                crate::zobrist::lemma_wf_fits(world@, *g);
                // The hidden pool is preserved.
                lemma_types_at_multiset(wp, h, ord);
                assert(types_at(wp, ord) =~= asg);
                assert(types_at(tp, h) == pool@);
            }
            world.rehash(g);
            proof {
                let base = PosView { pieces: wp, ..truth@ };
                assert(spec_shuffle(h, sa, h.len()) == ord);
                assert(spec_attempts(cands, h, pool@, sa, (tries - attempt) as nat) == (Some((ord, asg)), rng.state()));
                assert(world@ == base.with_hash(g.zobrist.spec_full_hash(base)));
                assert forall|x: int| 0 <= x < tp.len() implies {
                    let y = (#[trigger] world@.pieces[x]).t;
                    if cands[x].len() > 1 {
                        &&& world@.pieces[x] == (Piece { t: y, base: y, ..tp[x] })
                        &&& cands[x].contains(y)
                    } else {
                        world@.pieces[x] == tp[x]
                    }
                } by {
                    if cands[x].len() > 1 {
                        let m = choose|m: int| 0 <= m < ord.len() && #[trigger] ord[m] as int == x;
                        assert(wp[x] == (Piece { t: asg[m], base: asg[m], ..tp[x] }));
                    }
                }
                assert(hidden_pool(cands, world@.pieces) == hidden_pool(cands, tp));
                assert(view_wf(world@, *g));
            }
            return world;
        }
        proof {
            assert(spec_attempts(cands, h, pool@, sa, (tries - attempt) as nat)
                == spec_attempts(cands, h, pool@, rng.state(), (tries - attempt - 1) as nat));
        }
        attempt += 1;
    }
    truth.duplicate()
}

proof fn lemma_consistent_member(g: GameDef, v: PosView, side: Side, c: Seq<TypeId>, mv: Move, k: int, t: TypeId)
    requires
        0 <= k <= c.len(),
    ensures
        consistent_types(g, v, side, c, mv, k).contains(t)
            <==> (exists|i: int| 0 <= i < k && c[i] == t && #[trigger] spec_could_generate(g, v, side, c[i], mv)),
    decreases k,
{
    if k > 0 {
        lemma_consistent_member(g, v, side, c, mv, k - 1, t);
        let a = consistent_types(g, v, side, c, mv, k - 1);
        let b: Seq<TypeId> = if spec_could_generate(g, v, side, c[k - 1], mv) { seq![c[k - 1]] } else { Seq::empty() };
        let s = consistent_types(g, v, side, c, mv, k);
        assert(s == a + b);
        if s.contains(t) {
            let j = choose|j: int| 0 <= j < s.len() && s[j] == t;
            if j < a.len() {
                assert(a[j] == t);
            } else {
                assert(b[j - a.len()] == t);
                assert(spec_could_generate(g, v, side, c[k - 1], mv));
            }
        }
        if exists|i: int| 0 <= i < k && c[i] == t && #[trigger] spec_could_generate(g, v, side, c[i], mv) {
            let i = choose|i: int| 0 <= i < k && c[i] == t && #[trigger] spec_could_generate(g, v, side, c[i], mv);
            if i < k - 1 {
                let j = choose|j: int| 0 <= j < a.len() && a[j] == t;
                assert(s[j] == t);
            } else {
                assert(s[a.len() as int] == t);
            }
        }
    }
}

/// Narrowing on an observed move keeps exactly the hypotheses that could
/// make it: in the position with the mover's piece retyped to `t` and
/// `side` to move, some pseudo-legal move leaves the observed origin for
/// the observed destination with the observed kind. Every such type of
/// the list is kept; when one exists, every kept type is one; when none
/// does, the list stays as it was.
pub proof fn law_observe_narrowing(g: GameDef, v: PosView, side: Side, c: Seq<TypeId>, mv: Move)
    ensures
        ({
            let f = consistent_types(g, v, side, c, mv, c.len() as int);
            let kept = if f.len() > 0 { f } else { c };
            &&& forall|t: TypeId| #[trigger] c.contains(t) && (exists|j: int|
                    0 <= j < spec_pseudo_moves(g, spec_from_pieces(g, probe_list(v.pieces, mv.from, t, v.pieces.len() as int), side)).len()
                    && #[trigger] spec_pseudo_moves(g, spec_from_pieces(g, probe_list(v.pieces, mv.from, t, v.pieces.len() as int), side))[j].from == mv.from
                    && spec_pseudo_moves(g, spec_from_pieces(g, probe_list(v.pieces, mv.from, t, v.pieces.len() as int), side))[j].to == mv.to
                    && spec_pseudo_moves(g, spec_from_pieces(g, probe_list(v.pieces, mv.from, t, v.pieces.len() as int), side))[j].kind == mv.kind)
                ==> kept.contains(t)
            &&& f.len() > 0 ==> forall|t: TypeId| #[trigger] kept.contains(t) ==> c.contains(t) && (exists|j: int|
                    0 <= j < spec_pseudo_moves(g, spec_from_pieces(g, probe_list(v.pieces, mv.from, t, v.pieces.len() as int), side)).len()
                    && #[trigger] spec_pseudo_moves(g, spec_from_pieces(g, probe_list(v.pieces, mv.from, t, v.pieces.len() as int), side))[j].from == mv.from
                    && spec_pseudo_moves(g, spec_from_pieces(g, probe_list(v.pieces, mv.from, t, v.pieces.len() as int), side))[j].to == mv.to
                    && spec_pseudo_moves(g, spec_from_pieces(g, probe_list(v.pieces, mv.from, t, v.pieces.len() as int), side))[j].kind == mv.kind)
            &&& f.len() == 0 ==> kept == c
        }),
{
    let f = consistent_types(g, v, side, c, mv, c.len() as int);
    let kept = if f.len() > 0 { f } else { c };
    assert forall|t: TypeId| #[trigger] c.contains(t) && (exists|j: int|
            0 <= j < spec_pseudo_moves(g, spec_from_pieces(g, probe_list(v.pieces, mv.from, t, v.pieces.len() as int), side)).len()
            && #[trigger] spec_pseudo_moves(g, spec_from_pieces(g, probe_list(v.pieces, mv.from, t, v.pieces.len() as int), side))[j].from == mv.from
            && spec_pseudo_moves(g, spec_from_pieces(g, probe_list(v.pieces, mv.from, t, v.pieces.len() as int), side))[j].to == mv.to
            && spec_pseudo_moves(g, spec_from_pieces(g, probe_list(v.pieces, mv.from, t, v.pieces.len() as int), side))[j].kind == mv.kind)
        implies kept.contains(t) by {
        let ms = spec_pseudo_moves(g, spec_from_pieces(g, probe_list(v.pieces, mv.from, t, v.pieces.len() as int), side));
        let j = choose|j: int| 0 <= j < ms.len() && #[trigger] ms[j].from == mv.from && ms[j].to == mv.to && ms[j].kind == mv.kind;
        assert(same_motion(ms[j], mv));
        assert(spec_could_generate(g, v, side, t, mv));
        let i = choose|i: int| 0 <= i < c.len() && c[i] == t;
        lemma_consistent_member(g, v, side, c, mv, c.len() as int, t);
        assert(spec_could_generate(g, v, side, c[i], mv));
    }
    if f.len() > 0 {
        assert forall|t: TypeId| #[trigger] kept.contains(t) implies c.contains(t) && (exists|j: int|
                0 <= j < spec_pseudo_moves(g, spec_from_pieces(g, probe_list(v.pieces, mv.from, t, v.pieces.len() as int), side)).len()
                && #[trigger] spec_pseudo_moves(g, spec_from_pieces(g, probe_list(v.pieces, mv.from, t, v.pieces.len() as int), side))[j].from == mv.from
                && spec_pseudo_moves(g, spec_from_pieces(g, probe_list(v.pieces, mv.from, t, v.pieces.len() as int), side))[j].to == mv.to
                && spec_pseudo_moves(g, spec_from_pieces(g, probe_list(v.pieces, mv.from, t, v.pieces.len() as int), side))[j].kind == mv.kind) by {
            lemma_consistent_member(g, v, side, c, mv, c.len() as int, t);
            let i = choose|i: int| 0 <= i < c.len() && c[i] == t && #[trigger] spec_could_generate(g, v, side, c[i], mv);
            assert(c[i] == t);
            let ms = spec_pseudo_moves(g, spec_from_pieces(g, probe_list(v.pieces, mv.from, t, v.pieces.len() as int), side));
            let j = choose|j: int| 0 <= j < ms.len() && #[trigger] same_motion(ms[j], mv);
            assert(ms[j].from == mv.from && ms[j].to == mv.to && ms[j].kind == mv.kind);
        }
    }
}

} // verus!
