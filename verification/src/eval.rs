//! Deterministic-grade evaluation: integer-only material plus mobility.
//! Material values come from the cost model, so evaluation generalizes to
//! procedural pieces — any Bit-set gets a value via its cost. Per-player
//! scores are the per-player value head in miniature.

use vstd::prelude::*;
use crate::game::GameDef;
use crate::movegen::pseudo_moves;
use crate::nnue::{QuantNet, net_value};
use crate::position::{Loc, Piece, PosView, Position, piece_ok, keyed_view};
use crate::game::Side;
use crate::game::TypeId;
use crate::zobrist::keyed;

verus! {

pub const MOBILITY_CP: i32 = 4;

/// Every score is held within this magnitude (per-player scores within
/// half of it), so differences and negations never overflow.
pub const SCORE_CAP: i64 = 1_000_000_000i64;

#[derive(Clone, Debug)]
pub struct Eval {
    /// Centipawn value per piece type (royals 0 — losing them ends the
    /// game). Move ordering and pivotality read it too.
    pub material: Vec<i32>,
    pub mobility_cp: i32,
    /// Deterministic-grade network: when present, it replaces the linear
    /// material and mobility form on every side-to-move value query.
    pub net: Option<QuantNet>,
}

/// Hold `v` within `[-cap, cap]`.
pub open spec fn spec_clamp(v: int, cap: int) -> int {
    if v > cap { cap } else if v < -cap { -cap } else { v }
}

pub fn clamp(v: i64, cap: i64) -> (r: i64)
    requires
        cap >= 0,
    ensures
        r == spec_clamp(v as int, cap as int),
{
    if v > cap { cap } else if v < -cap { -cap } else { v }
}

/// A side's material sum with `n` moves of mobility at `cp` each, held
/// within half the score cap.
pub open spec fn with_mobility(base: int, cp: i32, n: int) -> int {
    spec_clamp(base + cp * n, SCORE_CAP / 2)
}

/// `score` is `base` plus some pseudo-legal move count's worth of mobility.
pub open spec fn mobility_reaches(score: int, base: int, cp: i32) -> bool {
    exists|n: int| 0 <= n <= 1_000_000_000 && score == #[trigger] with_mobility(base, cp, n)
}

/// The mobility side `s` counts in `v`: its pseudo-legal move count with
/// `s` to move (held at one billion).
pub open spec fn spec_mobility(g: GameDef, v: PosView, s: int) -> int {
    let n = crate::movegen::spec_pseudo_moves(g, keyed_view(g, v.plain().with_stm(s as crate::game::Side))).len() as int;
    if n > 1_000_000_000 { 1_000_000_000 } else { n }
}

/// Two optional nets hold the same tables.
pub open spec fn same_net(a: Option<QuantNet>, b: Option<QuantNet>) -> bool {
    match (a, b) {
        (None, None) => true,
        (Some(x), Some(y)) => x.desc_q@ == y.desc_q@ && x.nsides == y.nsides && x.w1@ == y.w1@ && x.b1@ == y.b1@
            && x.w2@ == y.w2@ && x.b2 == y.b2,
        _ => false,
    }
}

impl Eval {
    /// Usable for `g`: a value for every type, and a net (if any) shaped
    /// for the game.
    pub open spec fn ok_for(self, g: GameDef) -> bool {
        &&& self.material@.len() >= g.ntypes()
        &&& (self.net matches Some(n) ==> n.fits(g))
    }

    pub fn new(material: Vec<i32>) -> (e: Self)
        ensures
            e.material == material,
            e.mobility_cp == MOBILITY_CP,
            e.net is None,
    {
        Eval { material, mobility_cp: MOBILITY_CP, net: None }
    }

    /// Evaluate with a network; the material table stays for move ordering.
    pub fn with_net(material: Vec<i32>, net: QuantNet) -> (e: Self)
        ensures
            e.material == material,
            e.mobility_cp == 0,
            e.net == Some(net),
    {
        Eval { material, mobility_cp: 0, net: Some(net) }
    }

    /// An independent copy, element by element.
    pub fn duplicate(&self) -> (e: Self)
        ensures
            e.material@ == self.material@,
            e.mobility_cp == self.mobility_cp,
            same_net(e.net, self.net),
    {
        let mut material: Vec<i32> = Vec::new();
        let mut k: usize = 0;
        while k < self.material.len()
            invariant
                k <= self.material@.len(),
                material@ == self.material@.subrange(0, k as int),
            decreases self.material@.len() - k,
        {
            material.push(self.material[k]);
            k += 1;
            assert(material@ =~= self.material@.subrange(0, k as int));
        }
        assert(material@ =~= self.material@);
        let net = match &self.net {
            Some(n) => Some(n.duplicate()),
            None => None,
        };
        Eval { material, mobility_cp: self.mobility_cp, net }
    }

    /// A board piece's material: its type's value scaled by the HP it has
    /// left over its full HP, rounded toward zero.
    pub open spec fn board_term(self, g: GameDef, v: PosView, i: int) -> int {
        let p = v.pieces[i];
        let mh = g.types@[p.t as int].max_hp;
        let full: int = if mh < 1 { 1 } else { mh as int };
        let val = self.material@[p.t as int] as int;
        let hp: int = if v.hp[i] < 0 { 0 } else { v.hp[i] as int };
        let mag = (if val < 0 { -val } else { val }) * hp / full;
        if val < 0 { -mag } else { mag }
    }

    /// The per-side material sums over the first `n` pieces, each running
    /// sum held within half the score cap: board pieces count
    /// HP-proportionally, pieces in hand in full, dead pieces not at all.
    pub open spec fn material_scores(self, g: GameDef, v: PosView, n: nat) -> Seq<int>
        decreases n,
    {
        if n == 0 {
            Seq::new(g.sides as nat, |s: int| 0int)
        } else {
            let acc = self.material_scores(g, v, (n - 1) as nat);
            let i = n - 1;
            let p = v.pieces[i];
            match p.loc {
                Loc::Board(_) => acc.update(p.side as int,
                    spec_clamp(acc[p.side as int] + self.board_term(g, v, i), SCORE_CAP / 2)),
                Loc::Hand(s) => acc.update(s as int,
                    spec_clamp(acc[s as int] + self.material@[p.t as int], SCORE_CAP / 2)),
                Loc::Dead => acc,
            }
        }
    }

    /// Side `s`'s score in `v` (whose key is the ground truth): its material
    /// sum, plus its mobility at `mobility_cp` per move when that is not
    /// zero, held within half the score cap.
    pub open spec fn player_score(self, g: GameDef, v: PosView, s: int) -> int {
        let mat = self.material_scores(g, v, v.pieces.len())[s];
        if self.mobility_cp == 0 { mat } else { with_mobility(mat, self.mobility_cp, spec_mobility(g, v, s)) }
    }

    /// What the side-to-move value of `v` may be: within the score cap; the
    /// network's value, held within the cap, when there is a network; else
    /// the mover's score minus the next side's, each its material sum plus
    /// some mobility (exactly the material sums when mobility counts
    /// nothing).
    pub open spec fn stm_value(self, g: GameDef, v: PosView, x: int) -> bool {
        &&& -SCORE_CAP <= x <= SCORE_CAP
        &&& (self.net matches Some(n) ==> x == spec_clamp(net_value(n, g, v) as int, SCORE_CAP as int))
        &&& (self.net is None ==> {
            let tot = self.material_scores(g, v, v.pieces.len());
            let me = v.stm as int;
            let enemy = crate::position::next_side(v.stm, g.sides) as int;
            &&& self.mobility_cp == 0 ==> x == tot[me] - tot[enemy]
            &&& self.mobility_cp != 0 ==> exists|a: int, b: int| x == a - b
                && #[trigger] mobility_reaches(a, tot[me], self.mobility_cp)
                && #[trigger] mobility_reaches(b, tot[enemy], self.mobility_cp)
            &&& keyed(g.zobrist, v) ==> x == self.player_score(g, v, me) - self.player_score(g, v, enemy)
        })
    }

    /// The side-to-move value exactly: the network's value held within the
    /// cap, else the mover's score minus the next side's.
    pub open spec fn stm_exact(self, g: GameDef, v: PosView) -> int {
        match self.net {
            Some(n) => spec_clamp(net_value(n, g, v) as int, SCORE_CAP as int),
            None => self.player_score(g, v, v.stm as int)
                - self.player_score(g, v, crate::position::next_side(v.stm, g.sides) as int),
        }
    }

    /// Per-player score vector. Armored pieces count HP-proportionally so
    /// strikes register as progress; pieces in hand count in full; each
    /// side adds its mobility (pseudo-legal move count) times
    /// `mobility_cp`. Sums are held within half the score cap.
    pub fn players(&self, g: &GameDef, pos: &mut Position) -> (score: Vec<i32>)
        requires
            old(pos).wf(*g),
            self.material@.len() >= g.ntypes(),
        ensures
            final(pos)@ == old(pos)@,
            score@.len() == g.sides,
            forall|s: int| 0 <= s < score@.len() ==> -SCORE_CAP / 2 <= #[trigger] score@[s] <= SCORE_CAP / 2,
            self.mobility_cp == 0 ==> forall|s: int| 0 <= s < score@.len() ==>
                #[trigger] score@[s] == self.material_scores(*g, old(pos)@, old(pos)@.pieces.len())[s],
            self.mobility_cp != 0 ==> forall|s: int| 0 <= s < score@.len() ==> #[trigger] mobility_reaches(
                score@[s] as int, self.material_scores(*g, old(pos)@, old(pos)@.pieces.len())[s], self.mobility_cp),
            forall|s: int| 0 <= s < score@.len() ==>
                #[trigger] score@[s] == self.player_score(*g, old(pos)@, s),
    {
        let ghost v0 = pos@;
        let half = SCORE_CAP / 2;
        let ns = g.sides as usize;
        let mut acc: Vec<i64> = Vec::new();
        let mut s: usize = 0;
        while s < ns
            invariant
                s <= ns,
                acc@.len() == s,
                half == SCORE_CAP / 2,
                forall|k: int| 0 <= k < acc@.len() ==> -half <= #[trigger] acc@[k] <= half,
                forall|k: int| 0 <= k < acc@.len() ==> #[trigger] acc@[k] == 0,
            decreases ns - s,
        {
            acc.push(0);
            s += 1;
        }
        assert(forall|k: int| 0 <= k < acc@.len() ==> #[trigger] acc@[k] == self.material_scores(*g, v0, 0)[k]);
        let mut i: usize = 0;
        while i < pos.pieces.len()
            invariant
                pos.wf(*g),
                self.material@.len() >= g.ntypes(),
                ns == g.sides,
                acc@.len() == ns,
                half == SCORE_CAP / 2,
                forall|k: int| 0 <= k < acc@.len() ==> -half <= #[trigger] acc@[k] <= half,
                pos@ == v0,
                i <= v0.pieces.len(),
                self.material_scores(*g, v0, i as nat).len() == ns,
                forall|k: int| 0 <= k < acc@.len() ==> #[trigger] acc@[k] == self.material_scores(*g, v0, i as nat)[k],
            decreases pos.pieces@.len() - i,
        {
            let ghost before = acc@;
            let p = pos.pieces[i];
            proof { assert(piece_ok(pos.pieces@[i as int], *g)); }
            match p.loc {
                Loc::Board(_) => {
                    let mh = g.types[p.t as usize].max_hp;
                    let max: i64 = if mh < 1 { 1 } else { mh as i64 };
                    let v = self.material[p.t as usize] as i64;
                    let hp: i64 = if pos.hp[i] < 0 { 0 } else { pos.hp[i] as i64 };
                    // Truncating division, as integer division rounds toward zero.
                    let av: i64 = if v < 0 { -v } else { v };
                    assert(0 <= av * hp <= 2147483648 * 32767) by (nonlinear_arith)
                        requires 0 <= av <= 2147483648, 0 <= hp <= 32767;
                    let prod = av * hp;
                    let mag = prod / max;
                    assert(0 <= mag <= prod) by (nonlinear_arith)
                        requires 0 <= prod, max >= 1, mag as int == prod as int / max as int;
                    let term: i64 = if v < 0 { -mag } else { mag };
                    assert(term == self.board_term(*g, v0, i as int));
                    let cur = acc[p.side as usize];
                    let nv = clamp(cur + term, half);
                    assert(-half <= nv <= half);
                    acc.set(p.side as usize, nv);
                },
                Loc::Hand(s) => {
                    let cur = acc[s as usize];
                    let nv = clamp(cur + self.material[p.t as usize] as i64, half);
                    assert(-half <= nv <= half);
                    acc.set(s as usize, nv);
                },
                Loc::Dead => {},
            }
            i += 1;
            proof {
                assert(self.material_scores(*g, v0, i as nat) == {
                    let acc0 = self.material_scores(*g, v0, (i - 1) as nat);
                    match p.loc {
                        Loc::Board(_) => acc0.update(p.side as int,
                            spec_clamp(acc0[p.side as int] + self.board_term(*g, v0, i - 1), SCORE_CAP / 2)),
                        Loc::Hand(s) => acc0.update(s as int,
                            spec_clamp(acc0[s as int] + self.material@[p.t as int], SCORE_CAP / 2)),
                        Loc::Dead => acc0,
                    }
                });
            }
        }
        let ghost mat = acc@;
        assert(forall|k: int| 0 <= k < acc@.len() ==> #[trigger] acc@[k] == self.material_scores(*g, v0, v0.pieces.len())[k]);
        if self.mobility_cp != 0 {
            let saved = pos.stm;
            let saved_hash = pos.hash;
            let mut s: u8 = 0;
            while s < g.sides
                invariant
                    pos.wf(*g),
                    pos@ == old(pos)@.with_stm(pos.stm).with_hash(pos.hash),
                    saved == old(pos).stm,
                    saved_hash == old(pos).hash,
                    ns == g.sides,
                    acc@.len() == ns,
                    half == SCORE_CAP / 2,
                    forall|k: int| 0 <= k < acc@.len() ==> -half <= #[trigger] acc@[k] <= half,
                    mat.len() == ns,
                    s <= g.sides,
                    forall|k: int| s <= k < acc@.len() ==> #[trigger] acc@[k] == mat[k],
                    forall|k: int| 0 <= k < s ==> #[trigger] mobility_reaches(acc@[k] as int, mat[k] as int, self.mobility_cp),
                    forall|k: int| 0 <= k < s ==>
                        #[trigger] acc@[k] == with_mobility(mat[k] as int, self.mobility_cp, spec_mobility(*g, old(pos)@, k)),
                    forall|k: int| 0 <= k < mat.len() ==> #[trigger] mat[k] == self.material_scores(*g, v0, v0.pieces.len())[k],
                    v0 == old(pos)@,
                decreases g.sides - s,
            {
                let ghost prev = acc@;
                pos.set_stm(g, s);
                proof {
                    crate::position::lemma_keyed_view(*g, pos@);
                    assert(pos@.plain() =~= old(pos)@.plain().with_stm(s));
                }
                let n = pseudo_moves(g, pos).len();
                let nm: i64 = if n > 1_000_000_000 { 1_000_000_000 } else { n as i64 };
                let m = self.mobility_cp as i64;
                assert(-2147483648 * 1000000000 <= m * nm <= 2147483647 * 1000000000) by (nonlinear_arith)
                    requires -2147483648 <= m <= 2147483647, 0 <= nm <= 1000000000;
                let cur = acc[s as usize];
                let nv = clamp(cur + m * nm, half);
                assert(-half <= nv <= half);
                acc.set(s as usize, nv);
                assert(acc@[s as int] == with_mobility(mat[s as int] as int, self.mobility_cp, nm as int));
                proof {
                    assert(mobility_reaches(acc@[s as int] as int, mat[s as int] as int, self.mobility_cp));
                    assert forall|k: int| 0 <= k < s + 1 implies #[trigger] mobility_reaches(acc@[k] as int, mat[k] as int,
                        self.mobility_cp) by {
                        if k < s {
                            assert(prev[k] == acc@[k]);
                        }
                    }
                    assert(nm as int == spec_mobility(*g, old(pos)@, s as int));
                    assert forall|k: int| 0 <= k < s + 1 implies #[trigger] acc@[k]
                        == with_mobility(mat[k] as int, self.mobility_cp, spec_mobility(*g, old(pos)@, k)) by {
                        if k < s {
                            assert(prev[k] == acc@[k]);
                        }
                    }
                }
                s += 1;
            }
            pos.set_stm(g, saved);
            // The turn is back; so is the key.
            pos.hash = saved_hash;
            assert(pos@ =~= old(pos)@);
        }
        let mut score: Vec<i32> = Vec::new();
        let mut s: usize = 0;
        while s < ns
            invariant
                s <= ns,
                acc@.len() == ns,
                score@.len() == s,
                half == SCORE_CAP / 2,
                forall|k: int| 0 <= k < acc@.len() ==> -half <= #[trigger] acc@[k] <= half,
                forall|k: int| 0 <= k < score@.len() ==> -half <= #[trigger] score@[k] <= half,
                forall|k: int| 0 <= k < score@.len() ==> #[trigger] score@[k] == acc@[k],
            decreases ns - s,
        {
            score.push(acc[s] as i32);
            s += 1;
        }
        proof {
            if self.mobility_cp != 0 {
                assert forall|k: int| 0 <= k < score@.len() implies #[trigger] mobility_reaches(score@[k] as int,
                    self.material_scores(*g, v0, v0.pieces.len())[k], self.mobility_cp) by {
                    assert(score@[k] == acc@[k]);
                    assert(mat[k] == self.material_scores(*g, v0, v0.pieces.len())[k]);
                }
            }
        }
        score
    }

    /// Two-player scalar from the side to move's perspective (negamax
    /// form): the network's value when there is one (held within the score
    /// cap), else own score minus the next side's.
    pub fn stm(&self, g: &GameDef, pos: &mut Position) -> (v: i32)
        requires
            old(pos).wf(*g),
            self.ok_for(*g),
        ensures
            final(pos)@ == old(pos)@,
            self.stm_value(*g, old(pos)@, v as int),
            v as int == self.stm_exact(*g, old(pos)@),
    {
        if let Some(net) = &self.net {
            let r = net.eval(g, pos);
            return clamp(r as i64, SCORE_CAP) as i32;
        }
        let v = self.players(g, pos);
        let me = pos.stm as usize;
        let enemy = ((pos.stm as u16 + 1) % (g.sides as u16)) as usize;
        let r = v[me] - v[enemy];
        proof {
            if self.mobility_cp != 0 {
                let tot = self.material_scores(*g, old(pos)@, old(pos)@.pieces.len());
                let me0 = old(pos).stm as int;
                let enemy0 = crate::position::next_side(old(pos).stm, g.sides) as int;
                assert(me0 == me as int && enemy0 == enemy as int);
                let a = v@[me0] as int;
                let b = v@[enemy0] as int;
                assert(mobility_reaches(a, tot[me0], self.mobility_cp));
                assert(mobility_reaches(b, tot[enemy0], self.mobility_cp));
                assert(r == a - b);
            }
            assert(v@[me as int] == self.player_score(*g, old(pos)@, me as int));
            assert(v@[enemy as int] == self.player_score(*g, old(pos)@, enemy as int));
        }
        r
    }
}

proof fn lemma_dead_retype(e: Eval, g: GameDef, v: PosView, w: PosView, i: int, n: nat)
    requires
        0 <= i < v.pieces.len(),
        v.pieces[i].loc == Loc::Dead,
        w.pieces.len() == v.pieces.len(),
        w.pieces[i].loc == Loc::Dead,
        forall|j: int| 0 <= j < v.pieces.len() && j != i ==> #[trigger] w.pieces[j] == v.pieces[j],
        w.hp == v.hp,
        n <= v.pieces.len(),
    ensures
        e.material_scores(g, w, n) == e.material_scores(g, v, n),
    decreases n,
{
    if n > 0 {
        lemma_dead_retype(e, g, v, w, i, (n - 1) as nat);
        let j = n - 1;
        if j != i {
            assert(w.pieces[j] == v.pieces[j]);
            assert(e.board_term(g, w, j) == e.board_term(g, v, j));
        }
    }
}

/// Dead pieces score nothing: giving a dead piece another type or another
/// side leaves every side's material sum as it was, and so every side's
/// score when mobility counts nothing.
pub proof fn law_dead_pieces_score_nothing(e: Eval, g: GameDef, v: PosView, i: int, t: TypeId, side: Side)
    requires
        0 <= i < v.pieces.len(),
        v.pieces[i].loc == Loc::Dead,
    ensures
        ({
            let w = PosView { pieces: v.pieces.update(i, Piece { t, side, ..v.pieces[i] }), ..v };
            &&& e.material_scores(g, w, w.pieces.len()) == e.material_scores(g, v, v.pieces.len())
            &&& e.mobility_cp == 0 ==> forall|s: int| #[trigger] e.player_score(g, w, s) == e.player_score(g, v, s)
        }),
{
    let w = PosView { pieces: v.pieces.update(i, Piece { t, side, ..v.pieces[i] }), ..v };
    lemma_dead_retype(e, g, v, w, i, v.pieces.len());
}

} // verus!
