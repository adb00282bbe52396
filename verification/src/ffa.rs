//! N-player free-for-all: last-royal-standing. Strict rotation over live
//! players; a player is eliminated when, on their turn, they have no legal
//! move (checkmate and stalemate alike) — and their army is removed from
//! the board. The last live player wins; a global ply cap or a threefold
//! repetition of the key draws among the survivors. A royal is unsafe if
//! any other side attacks it. Move choice is greedy on the per-player value
//! head: maximize own value minus the best rival's over one ply, with
//! seeded tie-breaking.

use vstd::prelude::*;
use crate::eval::Eval;
use crate::game::{GameDef, Side};
use crate::movegen::legal_moves;
use crate::moves::Move;
use crate::position::{Loc, Piece, PosView, Position, lemma_make_unmake, piece_ok, view_wf};
use crate::rng::{Rng, GOLDEN, spec_mix};

verus! {

#[derive(Clone, Copy, PartialEq, Eq, Debug, Structural)]
pub enum FfaOutcome {
    Win(Side),
    DrawAmong(u8),
}

/// The number of live players.
pub open spec fn live_count(a: Seq<bool>) -> nat
    decreases a.len(),
{
    if a.len() == 0 {
        0
    } else {
        live_count(a.drop_last()) + if a.last() { 1nat } else { 0nat }
    }
}

pub proof fn lemma_live_count_kill(a: Seq<bool>, i: int)
    requires
        0 <= i < a.len(),
    ensures
        a[i] ==> live_count(a.update(i, false)) + 1 == live_count(a),
        !a[i] ==> live_count(a.update(i, false)) == live_count(a),
        live_count(a) <= a.len(),
    decreases a.len(),
{
    let b = a.update(i, false);
    if i == a.len() - 1 {
        assert(b.drop_last() =~= a.drop_last());
    } else {
        assert(b.drop_last() =~= a.drop_last().update(i, false));
        lemma_live_count_kill(a.drop_last(), i);
    }
    lemma_live_count_le(a);
}

pub proof fn lemma_live_count_le(a: Seq<bool>)
    ensures
        live_count(a) <= a.len(),
    decreases a.len(),
{
    if a.len() > 0 {
        lemma_live_count_le(a.drop_last());
    }
}

fn count_live(alive: &Vec<bool>) -> (n: usize)
    ensures
        n == live_count(alive@),
{
    let mut n: usize = 0;
    let mut k: usize = 0;
    while k < alive.len()
        invariant
            k <= alive@.len(),
            n == live_count(alive@.subrange(0, k as int)),
            n <= k,
        decreases alive@.len() - k,
    {
        proof {
            let s = alive@.subrange(0, k as int + 1);
            assert(s.drop_last() =~= alive@.subrange(0, k as int));
        }
        if alive[k] {
            n += 1;
        }
        k += 1;
    }
    assert(alive@.subrange(0, alive@.len() as int) =~= alive@);
    n
}

/// Advance the turn to the next live player. Returns false if none.
fn next_live(g: &GameDef, pos: &mut Position, alive: &Vec<bool>) -> (r: bool)
    requires
        old(pos).wf(*g),
        alive@.len() == g.sides,
    ensures
        final(pos).wf(*g),
        final(pos).pieces@.len() == old(pos).pieces@.len(),
        r ==> alive@[final(pos).stm as int],
        final(pos)@ == old(pos)@.with_stm(final(pos).stm).with_hash(final(pos).hash),
        r == exists|s: int| 0 <= s < g.sides && #[trigger] alive@[s],
        r ==> exists|k: int| 0 <= k < g.sides && final(pos).stm == side_after(old(pos).stm, k, g.sides)
            && forall|j: int| 0 <= j < k ==> !#[trigger] alive@[side_after(old(pos).stm, j, g.sides) as int],
        r ==> final(pos).stm == side_after(old(pos).stm, first_live(alive@, old(pos).stm, g.sides, 0), g.sides),
{
    let mut n: u8 = 0;
    proof {
        assert(pos.stm < g.sides);
        vstd::arithmetic::div_mod::lemma_small_mod(pos.stm as nat, g.sides as nat);
        assert(pos@ =~= old(pos)@.with_stm(pos.stm).with_hash(pos.hash));
    }
    while n < g.sides
        invariant
            pos.wf(*g),
            pos.pieces@.len() == old(pos).pieces@.len(),
            alive@.len() == g.sides,
            g.sides >= 1,
            n <= g.sides,
            old(pos).stm < g.sides,
            pos@ == old(pos)@.with_stm(pos.stm).with_hash(pos.hash),
            pos.stm == side_after(old(pos).stm, n as int, g.sides),
            forall|j: int| 0 <= j < n ==> !#[trigger] alive@[side_after(old(pos).stm, j, g.sides) as int],
            first_live(alive@, old(pos).stm, g.sides, 0) == first_live(alive@, old(pos).stm, g.sides, n as int),
        decreases g.sides - n,
    {
        if alive[pos.stm as usize] {
            return true;
        }
        let next = ((pos.stm as u16 + 1) % (g.sides as u16)) as u8;
        proof { lemma_side_after_step(old(pos).stm, n as int, g.sides); }
        pos.set_stm(g, next);
        n += 1;
    }
    proof {
        assert forall|s: int| 0 <= s < g.sides implies !#[trigger] alive@[s] by {
            let k = if s >= old(pos).stm { s - old(pos).stm } else { s + g.sides - old(pos).stm };
            assert(side_after(old(pos).stm, k, g.sides) == s) by {
                vstd::arithmetic::div_mod::lemma_mod_self_0(g.sides as int);
                if s >= old(pos).stm {
                    vstd::arithmetic::div_mod::lemma_small_mod(s as nat, g.sides as nat);
                } else {
                    vstd::arithmetic::div_mod::lemma_mod_add_multiples_vanish(s, g.sides as int);
                    vstd::arithmetic::div_mod::lemma_small_mod(s as nat, g.sides as nat);
                }
            }
        }
    }
    false
}

/// The side `k` turns after `s` in rotation among `n` sides.
pub open spec fn side_after(s: Side, k: int, n: u8) -> Side {
    ((s as int + k) % (n as int)) as Side
}

proof fn lemma_side_after_step(s: Side, k: int, n: u8)
    requires
        n >= 1,
        s < n,
        k >= 0,
    ensures
        side_after(s, k + 1, n) == ((side_after(s, k, n) as int + 1) % (n as int)) as Side,
        side_after(s, k + 1, n) < n,
{
    vstd::arithmetic::div_mod::lemma_add_mod_noop(s as int + k, 1, n as int);
    vstd::arithmetic::div_mod::lemma_mod_bound(s as int + k + 1, n as int);
    vstd::arithmetic::div_mod::lemma_mod_bound(s as int + k, n as int);
    if n == 1 {
        assert(1int % 1int == 0) by (nonlinear_arith);
        assert((side_after(s, k, n) as int + 1) % 1 == 0) by (nonlinear_arith);
        assert((side_after(s, k, n) as int + 0) % 1 == 0) by (nonlinear_arith);
    } else {
        vstd::arithmetic::div_mod::lemma_small_mod(1, n as nat);
    }
}

/// A piece of `side` on the board.
pub open spec fn fielded(p: Piece, side: Side) -> bool {
    p.side == side && p.loc is Board
}

/// The army of `side` collapses: its pieces on the board die and their
/// cells empty, its hand empties, and the key is re-derived.
pub open spec fn spec_eliminate(g: GameDef, v: PosView, side: Side) -> PosView {
    crate::position::keyed_view(g, PosView {
        pieces: Seq::new(v.pieces.len(), |i: int|
            if fielded(v.pieces[i], side) { Piece { loc: Loc::Dead, ..v.pieces[i] } } else { v.pieces[i] }),
        board: Seq::new(v.board.len(), |q: int|
            if 0 <= v.board[q] < v.pieces.len() && v.pieces[v.board[q] as int].side == side { -1i32 } else { v.board[q] }),
        hands: v.hands.update(side as int, Seq::new(v.hands[side as int].len(), |x: int| 0u8)),
        ..v
    })
}

/// Remove every piece of `side` from the board and void its hand: the
/// army collapses.
fn eliminate(g: &GameDef, pos: &mut Position, side: Side)
    requires
        old(pos).wf(*g),
        side < g.sides,
    ensures
        final(pos).wf(*g),
        final(pos)@ == spec_eliminate(*g, old(pos)@, side),
        final(pos).pieces@.len() == old(pos).pieces@.len(),
        final(pos).stm == old(pos).stm,
        forall|i: int| 0 <= i < final(pos).pieces@.len() ==> {
            let p = #[trigger] final(pos).pieces@[i];
            p.side == side ==> !(p.loc is Board)
        },
{
    let ghost v0 = pos@;
    let mut i: usize = 0;
    while i < pos.pieces.len()
        invariant
            view_wf(pos@, *g),
            view_wf(v0, *g),
            v0 == old(pos)@,
            pos@ == (PosView {
                pieces: Seq::new(v0.pieces.len(), |j: int|
                    if j < i && fielded(v0.pieces[j], side) { Piece { loc: Loc::Dead, ..v0.pieces[j] } } else { v0.pieces[j] }),
                board: Seq::new(v0.board.len(), |q: int|
                    if 0 <= v0.board[q] < i && v0.pieces[v0.board[q] as int].side == side { -1i32 } else { v0.board[q] }),
                ..v0
            }),
            pos.pieces@.len() == old(pos).pieces@.len(),
            pos.stm == old(pos).stm,
            side < g.sides,
            forall|j: int| 0 <= j < i ==> {
                let p = #[trigger] pos.pieces@[j];
                p.side == side ==> !(p.loc is Board)
            },
        decreases pos.pieces@.len() - i,
    {
        let p = pos.pieces[i];
        if p.side == side {
            if let Loc::Board(sq) = p.loc {
                let ghost v1 = pos@;
                proof {
                    crate::game::lemma_ncells_bound(g.board);
                    assert(piece_ok(v1.pieces[i as int], *g));
                }
                let q = Piece { loc: Loc::Dead, ..p };
                pos.board.set(sq as usize, -1);
                pos.pieces.set(i, q);
                proof {
                    crate::position::lemma_remove_wf(v1, *g, i as int, sq as int, q);
                    assert(pos@ =~= crate::position::v_remove(v1, i as int, sq as int, q));
                }
            }
        }
        proof {
            assert(crate::position::on_board_at(v0.pieces[i as int], v0.board, i as int));
            assert forall|q: int| 0 <= q < v0.board.len() && v0.board[q] == i implies
                v0.pieces[i as int].loc == Loc::Board(q as u16) by {}
        }
        i += 1;
        proof {
            assert(pos@.pieces =~= Seq::new(v0.pieces.len(), |j: int|
                if j < i && fielded(v0.pieces[j], side) { Piece { loc: Loc::Dead, ..v0.pieces[j] } } else { v0.pieces[j] }));
            assert forall|q: int| 0 <= q < v0.board.len() implies pos@.board[q] == (
                if 0 <= v0.board[q] < i && v0.pieces[v0.board[q] as int].side == side { -1i32 } else { v0.board[q] }) by {
                crate::game::lemma_ncells_bound(g.board);
                assert((q as u16) as int == q);
            }
            assert(pos@.board =~= Seq::new(v0.board.len(), |q: int|
                if 0 <= v0.board[q] < i && v0.pieces[v0.board[q] as int].side == side { -1i32 } else { v0.board[q] }));
        }
    }
    let ghost v2 = pos@;
    assert(v2 == (PosView {
        pieces: Seq::new(v0.pieces.len(), |i: int|
            if fielded(v0.pieces[i], side) { Piece { loc: Loc::Dead, ..v0.pieces[i] } } else { v0.pieces[i] }),
        board: Seq::new(v0.board.len(), |q: int|
            if 0 <= v0.board[q] < v0.pieces.len() && v0.pieces[v0.board[q] as int].side == side { -1i32 } else { v0.board[q] }),
        ..v0
    }));
    proof {
        assert(Seq::new(v2.hands[side as int].len(), |x: int| if x < 0 { 0u8 } else { v2.hands[side as int][x] })
            =~= v2.hands[side as int]);
        assert(v2.hands.update(side as int, Seq::new(v2.hands[side as int].len(), |x: int|
            if x < 0 { 0u8 } else { v2.hands[side as int][x] })) =~= v2.hands);
        assert(pos@ =~= (PosView {
            hands: v2.hands.update(side as int, Seq::new(v2.hands[side as int].len(), |x: int|
                if x < 0 { 0u8 } else { v2.hands[side as int][x] })),
            ..v2
        }));
    }
    let mut t: usize = 0;
    while t < g.types.len()
        invariant
            t <= g.types@.len(),
            g.types@.len() == g.ntypes(),
            v2.hands == v0.hands,
            side < v2.hands.len(),
            pos@ == (PosView {
                hands: v2.hands.update(side as int, Seq::new(v2.hands[side as int].len(), |x: int|
                    if x < t { 0u8 } else { v2.hands[side as int][x] })),
                ..v2
            }),
            v2.hands[side as int].len() == g.ntypes(),
            view_wf(pos@, *g),
            pos.pieces@.len() == old(pos).pieces@.len(),
            pos.stm == old(pos).stm,
            side < g.sides,
            forall|j: int| 0 <= j < pos.pieces@.len() ==> {
                let p = #[trigger] pos.pieces@[j];
                p.side == side ==> !(p.loc is Board)
            },
        decreases g.types@.len() - t,
    {
        assert(pos@.hands[side as int] == pos.hands@[side as int]@);
        assert(pos@.hands[side as int].len() == g.ntypes());
        proof { crate::ops::lemma_hand_count_wf(pos@, *g, side as int, t as int, 0); }
        pos.set_hand(side as usize, t, 0);
        t += 1;
        proof {
            assert(pos@.hands[side as int] =~= Seq::new(v2.hands[side as int].len(), |x: int|
                if x < t { 0u8 } else { v2.hands[side as int][x] }));
            assert(pos@.hands =~= v2.hands.update(side as int, Seq::new(v2.hands[side as int].len(), |x: int|
                if x < t { 0u8 } else { v2.hands[side as int][x] })));
        }
    }
    proof {
        assert(Seq::new(v2.hands[side as int].len(), |x: int| if x < t { 0u8 } else { v2.hands[side as int][x] })
            =~= Seq::new(v0.hands[side as int].len(), |x: int| 0u8));
        assert(pos@.hands =~= v0.hands.update(side as int, Seq::new(v0.hands[side as int].len(), |x: int| 0u8)));
    }
    proof { crate::zobrist::lemma_wf_fits(pos@, *g); }
    pos.rehash(g);
}

/// The best rival value among the first `n` entries of `vs` other than
/// `me`'s (`None` when there is none).
pub open spec fn rival_scan(vs: Seq<i32>, me: int, n: int) -> Option<int>
    decreases n,
{
    if n <= 0 {
        None
    } else {
        let r = rival_scan(vs, me, n - 1);
        if n - 1 == me {
            r
        } else {
            match r {
                None => Some(vs[n - 1] as int),
                Some(x) => Some(if vs[n - 1] > x { vs[n - 1] as int } else { x }),
            }
        }
    }
}

/// Own value minus the best rival's (own value alone with no rival).
pub open spec fn margin_of(vs: Seq<i32>, me: int) -> int {
    vs[me] - match rival_scan(vs, me, vs.len() as int) {
        Some(x) => x,
        None => 0,
    }
}

/// The per-player values of a position.
pub open spec fn ffa_scores(eval: Eval, g: GameDef, a: PosView) -> Seq<i32> {
    Seq::new(g.sides as nat, |s: int| eval.player_score(g, a, s) as i32)
}

/// The margin the mover gets from `mv`: its own value minus the best
/// rival's in the position the move leaves.
pub open spec fn ffa_margin(eval: Eval, g: GameDef, v: PosView, mv: Move) -> int {
    margin_of(ffa_scores(eval, g, crate::position::spec_made(g, v, mv)), v.stm as int)
}

/// The greedy scan over `ms` from entry `i` on, from the generator at
/// `state`: each move scores its margin times 4 plus a seeded draw below
/// 4, and a strictly higher score takes the lead. The leading index and
/// the generator's state after the draws.
pub open spec fn ffa_scan(eval: Eval, g: GameDef, v: PosView, ms: Seq<Move>, state: u64, i: int, best_i: int,
    best: int) -> (int, u64)
    decreases ms.len() - i,
{
    if i < 0 || i >= ms.len() {
        (best_i, state)
    } else {
        let st = state.wrapping_add(GOLDEN);
        let score = ffa_margin(eval, g, v, ms[i]) * 4 + (spec_mix(st) % 4) as int;
        if score > best {
            ffa_scan(eval, g, v, ms, st, i + 1, i, score)
        } else {
            ffa_scan(eval, g, v, ms, st, i + 1, best_i, best)
        }
    }
}

/// The move the greedy chooser picks in `v` (none without a legal move)
/// and the generator's state after its draws.
pub open spec fn ffa_choice(eval: Eval, g: GameDef, v: PosView, state: u64) -> (Option<Move>, u64) {
    let ms = crate::movegen::spec_legal_moves(g, v);
    if ms.len() == 0 {
        (None, state)
    } else {
        let sc = ffa_scan(eval, g, v, ms, state, 0, 0, i64::MIN as int);
        (Some(ms[sc.0]), sc.1)
    }
}

/// Greedy per-player-value chooser: maximize own value minus the best
/// rival's (times 4, plus a seeded tie-break in `0..4`) over the legal
/// moves; `None` when there is no legal move.
pub fn choose_ffa_move(g: &GameDef, pos: &mut Position, eval: &Eval, rng: &mut Rng) -> (r: Option<Move>)
    requires
        old(pos).wf(*g),
        eval.material@.len() >= g.ntypes(),
    ensures
        final(pos)@ == old(pos)@,
        r matches Some(m) ==> crate::movegen::anchored(*g, old(pos)@, m),
        ((r is None) == (crate::movegen::spec_legal_moves(*g, old(pos)@).len() == 0)),
        (r matches Some(m) ==> crate::movegen::spec_legal_moves(*g, old(pos)@).contains(m)),
        r matches Some(m) ==> forall|j: int| 0 <= j < crate::movegen::spec_legal_moves(*g, old(pos)@).len() ==>
            ffa_margin(*eval, *g, old(pos)@, m)
                >= ffa_margin(*eval, *g, old(pos)@, #[trigger] crate::movegen::spec_legal_moves(*g, old(pos)@)[j]),
        (r, final(rng).state()) == ffa_choice(*eval, *g, old(pos)@, old(rng).state()),
{
    let me = pos.stm as usize;
    let moves = legal_moves(g, pos);
    let ghost legal = moves@;
    if moves.len() == 0 {
        return None;
    }
    let ghost v0 = pos@;
    let ghost st0 = rng.state();
    let mut best_score: i64 = i64::MIN;
    let mut best_i: usize = 0;
    let mut i: usize = 0;
    while i < moves.len()
        invariant
            st0 == old(rng).state(),
            ffa_scan(*eval, *g, v0, moves@, st0, 0, 0, i64::MIN as int)
                == ffa_scan(*eval, *g, v0, moves@, rng.state(), i as int, best_i as int, best_score as int),
            pos.wf(*g),
            pos@ == old(pos)@,
            v0 == old(pos)@,
            eval.material@.len() >= g.ntypes(),
            me == pos.stm,
            best_i < moves@.len(),
            crate::movegen::all_anchored(*g, old(pos)@, moves@),
            moves@ == legal,
            i <= moves@.len(),
            i > 0 ==> ffa_margin(*eval, *g, v0, moves@[best_i as int]) * 4 <= best_score
                <= ffa_margin(*eval, *g, v0, moves@[best_i as int]) * 4 + 3,
            i > 0 ==> best_i < i,
            i == 0 ==> best_score == i64::MIN,
            forall|j: int| 0 <= j < i ==> ffa_margin(*eval, *g, v0, #[trigger] moves@[j])
                <= ffa_margin(*eval, *g, v0, moves@[best_i as int]),
        decreases moves@.len() - i,
    {
        let ghost before = pos@;
        let u = pos.make(g, &moves[i]);
        let ghost after = pos@;
        let v = eval.players(g, pos);
        proof {
            assert(v@ =~= ffa_scores(*eval, *g, crate::position::spec_made(*g, v0, moves@[i as int])));
        }
        pos.unmake(g, &u);
        proof { lemma_make_unmake(*g, before, after, u); }
        let mut rival: i32 = 0;
        let mut any = false;
        let mut s: usize = 0;
        while s < v.len()
            invariant
                v@.len() == g.sides,
                me < g.sides,
                s <= v@.len(),
                forall|k: int| 0 <= k < v@.len() ==> -500_000_000 <= #[trigger] v@[k] <= 500_000_000,
                -500_000_000 <= rival <= 500_000_000,
                any == (rival_scan(v@, me as int, s as int) is Some),
                any ==> rival == rival_scan(v@, me as int, s as int)->0,
                !any ==> rival == 0,
            decreases v@.len() - s,
        {
            if s != me && (!any || v[s] > rival) {
                rival = v[s];
                any = true;
            }
            s += 1;
        }
        let margin = v[me] - rival;
        assert(margin == margin_of(v@, me as int));
        let score = margin as i64 * 4 + rng.below(4) as i64;
        if score > best_score {
            best_score = score;
            best_i = i;
        }
        i += 1;
    }
    assert(crate::movegen::anchored(*g, old(pos)@, moves@[best_i as int]));
    assert(moves@.contains(moves@[best_i as int]));
    Some(moves[best_i])
}

/// How many turns after `s` the first live player stands, counting from
/// `k` (`n` when no live player remains).
pub open spec fn first_live(alive: Seq<bool>, s: Side, n: u8, k: int) -> int
    decreases n - k,
{
    if k < 0 || k >= n {
        n as int
    } else if alive[side_after(s, k, n) as int] {
        k
    } else {
        first_live(alive, s, n, k + 1)
    }
}

/// The first live player by number from `w` on (the count when none).
pub open spec fn first_alive(alive: Seq<bool>, w: int) -> int
    decreases alive.len() - w,
{
    if w < 0 || w >= alive.len() {
        alive.len() as int
    } else if alive[w] {
        w
    } else {
        first_alive(alive, w + 1)
    }
}

/// After a move, each live player from `s` on with no royal left on the
/// board is eliminated, in turn.
pub open spec fn royal_sweep(g: GameDef, v: PosView, alive: Seq<bool>, s: int) -> (PosView, Seq<bool>)
    decreases g.sides - s,
{
    if s < 0 || s >= g.sides {
        (v, alive)
    } else if alive[s] && !(exists|i: int| 0 <= i < v.pieces.len() && #[trigger] royal_on_board(g, v, i, s as Side)) {
        royal_sweep(g, spec_eliminate(g, v, s as Side), alive.update(s, false), s + 1)
    } else {
        royal_sweep(g, v, alive, s + 1)
    }
}

/// How many of the first `j` keys of `h` are `key`.
pub open spec fn key_count(h: Seq<u64>, key: u64, j: int) -> int
    decreases j,
{
    if j <= 0 {
        0
    } else {
        key_count(h, key, j - 1) + if h[j - 1] == key { 1int } else { 0int }
    }
}

/// The rest of a free-for-all from position `v` with the live players
/// `alive`, `plies` played, the keys `hist` seen and the generator at
/// `st`: the turn passes to the next live player; the last one standing
/// wins; otherwise the mover picks greedily, and without a legal move is
/// eliminated and the turn passes; after a move, players left without a
/// royal are eliminated, and a key seen three times or the ply cap draws
/// among the survivors. No live player left draws among none.
pub open spec fn ffa_run(g: GameDef, eval: Eval, v: PosView, alive: Seq<bool>, plies: int, hist: Seq<u64>, st: u64,
    max: int) -> (FfaOutcome, u32)
    decreases (if plies < max { max - plies } else { 0 }), live_count(alive),
{
    let n = g.sides;
    if alive.len() != n || n == 0 || !(exists|s: int| 0 <= s < n && #[trigger] alive[s]) {
        (FfaOutcome::DrawAmong(0), plies as u32)
    } else {
        let s1 = side_after(v.stm, first_live(alive, v.stm, n, 0), n);
        let v1 = crate::position::keyed_view(g, v.plain().with_stm(s1));
        if live_count(alive) == 1 {
            let w = first_alive(alive, 0);
            (if w < n { FfaOutcome::Win(w as Side) } else { FfaOutcome::DrawAmong(0) }, plies as u32)
        } else {
            let c = ffa_choice(eval, g, v1, st);
            match c.0 {
                None => {
                    if (s1 as int) < n && alive[s1 as int] {
                        let v2 = spec_eliminate(g, v1, s1);
                        let v3 = crate::position::keyed_view(g, v2.plain().with_stm(crate::position::next_side(v2.stm, n)));
                        proof { lemma_live_count_kill(alive, s1 as int); }
                        ffa_run(g, eval, v3, alive.update(s1 as int, false), plies, hist, c.1, max)
                    } else {
                        (FfaOutcome::DrawAmong(0), plies as u32)
                    }
                },
                Some(mv) => {
                    let sw = royal_sweep(g, crate::position::spec_made(g, v1, mv), alive, 0);
                    let h2 = hist.push(sw.0.hash);
                    if key_count(h2, sw.0.hash, h2.len() as int) >= 3 || plies + 1 >= max {
                        (FfaOutcome::DrawAmong(live_count(sw.1) as u8), (plies + 1) as u32)
                    } else {
                        ffa_run(g, eval, sw.0, sw.1, plies + 1, h2, c.1, max)
                    }
                },
            }
        }
    }
}

/// The player who moves next, and the position with the turn passed to
/// them, in a run that goes on.
pub open spec fn run_mover(g: GameDef, v: PosView, alive: Seq<bool>) -> Side {
    side_after(v.stm, first_live(alive, v.stm, g.sides, 0), g.sides)
}

proof fn lemma_run_over(g: GameDef, eval: Eval, v: PosView, alive: Seq<bool>, plies: int, hist: Seq<u64>, st: u64,
    max: int)
    requires
        alive.len() == g.sides,
        !(exists|s: int| 0 <= s < g.sides && #[trigger] alive[s]),
    ensures
        ffa_run(g, eval, v, alive, plies, hist, st, max) == (FfaOutcome::DrawAmong(0), plies as u32),
{
}

proof fn lemma_run_last(g: GameDef, eval: Eval, v: PosView, alive: Seq<bool>, plies: int, hist: Seq<u64>, st: u64,
    max: int)
    requires
        alive.len() == g.sides,
        g.sides > 0,
        exists|s: int| 0 <= s < g.sides && #[trigger] alive[s],
        live_count(alive) == 1,
    ensures
        ffa_run(g, eval, v, alive, plies, hist, st, max) == (if first_alive(alive, 0) < g.sides {
            FfaOutcome::Win(first_alive(alive, 0) as Side) } else { FfaOutcome::DrawAmong(0) }, plies as u32),
{
}

proof fn lemma_run_stuck(g: GameDef, eval: Eval, v: PosView, alive: Seq<bool>, plies: int, hist: Seq<u64>, st: u64,
    max: int)
    requires
        alive.len() == g.sides,
        g.sides > 0,
        exists|s: int| 0 <= s < g.sides && #[trigger] alive[s],
        live_count(alive) != 1,
        (run_mover(g, v, alive) as int) < g.sides,
        alive[run_mover(g, v, alive) as int],
        ffa_choice(eval, g, crate::position::keyed_view(g, v.plain().with_stm(run_mover(g, v, alive))), st).0 is None,
    ensures
        ({
            let s1 = run_mover(g, v, alive);
            let v1 = crate::position::keyed_view(g, v.plain().with_stm(s1));
            let v2 = spec_eliminate(g, v1, s1);
            ffa_run(g, eval, v, alive, plies, hist, st, max) == ffa_run(g, eval,
                crate::position::keyed_view(g, v2.plain().with_stm(crate::position::next_side(v2.stm, g.sides))),
                alive.update(s1 as int, false), plies, hist, ffa_choice(eval, g, v1, st).1, max)
        }),
{
}

proof fn lemma_run_moved(g: GameDef, eval: Eval, v: PosView, alive: Seq<bool>, plies: int, hist: Seq<u64>, st: u64,
    max: int, mv: Move)
    requires
        alive.len() == g.sides,
        g.sides > 0,
        exists|s: int| 0 <= s < g.sides && #[trigger] alive[s],
        live_count(alive) != 1,
        ffa_choice(eval, g, crate::position::keyed_view(g, v.plain().with_stm(run_mover(g, v, alive))), st).0 == Some(mv),
    ensures
        ({
            let v1 = crate::position::keyed_view(g, v.plain().with_stm(run_mover(g, v, alive)));
            let sw = royal_sweep(g, crate::position::spec_made(g, v1, mv), alive, 0);
            let h2 = hist.push(sw.0.hash);
            ffa_run(g, eval, v, alive, plies, hist, st, max) == if key_count(h2, sw.0.hash, h2.len() as int) >= 3
                || plies + 1 >= max {
                (FfaOutcome::DrawAmong(live_count(sw.1) as u8), (plies + 1) as u32)
            } else {
                ffa_run(g, eval, sw.0, sw.1, plies + 1, h2, ffa_choice(eval, g, v1, st).1, max)
            }
        }),
{
}

/// The start list as placement entries: each piece unmoved on its square.
pub open spec fn start_entries(g: GameDef) -> Seq<(crate::game::TypeId, Side, u16, bool)> {
    Seq::new(g.start@.len(), |k: int|
        (g.start@[k].0, g.start@[k].1, g.board.spec_sq(g.start@[k].2 as int, g.start@[k].3 as int) as u16, false))
}

/// Run a seeded N-player free-for-all to termination: the outcome and the
/// number of plies played.
#[verifier::rlimit(40)]
pub fn play_ffa(g: &GameDef, eval: &Eval, seed: u64, max_plies: u32) -> (r: (FfaOutcome, u32))
    requires
        g.wf(),
        g.start_ok(),
        eval.material@.len() >= g.ntypes(),
    ensures
        r.1 <= max_plies || r.1 == 1,
        r.0 matches FfaOutcome::Win(s) ==> s < g.sides,
        r.0 matches FfaOutcome::DrawAmong(n) ==> n <= g.sides,
        r == ffa_run(*g, *eval, crate::cost::spec_from_pieces(*g, start_entries(*g), 0),
            Seq::new(g.sides as nat, |s: int| true), 0, Seq::empty(), seed, max_plies as int),
{
    let mut rng = Rng::new(seed);
    let mut pos = Position::startpos(g);
    proof {
        let l = start_entries(*g);
        crate::game::lemma_ncells_bound(g.board);
        assert forall|k: int| 0 <= k < l.len() implies
            (#[trigger] crate::position::claimed_before(l, k, l[k].2)) == crate::position::start_claimed_before(*g, k) by {
            crate::game::lemma_sq_in_board(g.board, g.start@[k].2 as int, g.start@[k].3 as int);
            if crate::position::claimed_before(l, k, l[k].2) {
                let j = choose|j: int| 0 <= j < k && #[trigger] l[j].2 == l[k].2;
                crate::game::lemma_sq_in_board(g.board, g.start@[j].2 as int, g.start@[j].3 as int);
                assert(crate::position::start_claimed_before(*g, k));
            }
            if crate::position::start_claimed_before(*g, k) {
                let j = choose|j: int| 0 <= j < k && #[trigger] g.board.spec_sq(g.start@[j].2 as int, g.start@[j].3 as int)
                    == g.board.spec_sq(g.start@[k].2 as int, g.start@[k].3 as int);
                assert(l[j].2 == l[k].2);
                assert(crate::position::claimed_before(l, k, l[k].2));
            }
        }
        assert(crate::cost::built_from(*g, l, 0, pos@));
        crate::cost::lemma_built_from(*g, l, 0, pos@);
    }
    let mut alive: Vec<bool> = Vec::new();
    let mut k: u8 = 0;
    while k < g.sides
        invariant
            k <= g.sides,
            alive@.len() == k,
            forall|j: int| 0 <= j < k ==> alive@[j],
        decreases g.sides - k,
    {
        alive.push(true);
        k += 1;
    }
    assert(alive@ =~= Seq::new(g.sides as nat, |s: int| true));
    let ghost v_start = pos@;
    let ghost a_start = alive@;
    let mut plies: u32 = 0;
    let mut history: Vec<u64> = Vec::new();
    proof { lemma_live_count_le(alive@); }
    loop
        invariant
            pos.wf(*g),
            g.wf(),
            eval.material@.len() >= g.ntypes(),
            alive@.len() == g.sides,
            plies < max_plies || plies == 0,
            live_count(alive@) <= g.sides,
            v_start == crate::cost::spec_from_pieces(*g, start_entries(*g), 0),
            a_start == Seq::new(g.sides as nat, |s: int| true),
            ffa_run(*g, *eval, v_start, a_start, 0, Seq::empty(), seed, max_plies as int)
                == ffa_run(*g, *eval, pos@, alive@, plies as int, history@, rng.state(), max_plies as int),
        decreases max_plies - plies, live_count(alive@),
    {
        let ghost vt = pos@;
        let ghost at = alive@;
        let ghost st = rng.state();
        let ghost ht = history@;
        let ghost goal = ffa_run(*g, *eval, vt, at, plies as int, ht, st, max_plies as int);
        if !next_live(g, &mut pos, &alive) {
            proof { lemma_run_over(*g, *eval, vt, at, plies as int, ht, st, max_plies as int); }
            return (FfaOutcome::DrawAmong(0), plies);
        }
        let ghost s1 = pos.stm;
        assert(s1 == run_mover(*g, vt, at));
        proof {
            crate::position::lemma_keyed_view(*g, pos@);
            assert(pos@ == crate::position::keyed_view(*g, vt.plain().with_stm(s1)));
        }
        let n_live = count_live(&alive);
        if n_live == 1 {
            proof { lemma_run_last(*g, *eval, vt, at, plies as int, ht, st, max_plies as int); }
            let mut w: u8 = 0;
            while w < g.sides
                invariant
                    w <= g.sides,
                    alive@.len() == g.sides,
                    plies < max_plies || plies == 0,
                    alive@ == at,
                    first_alive(at, 0) == first_alive(at, w as int),
                    ffa_run(*g, *eval, v_start, a_start, 0, Seq::empty(), seed, max_plies as int) == goal,
                    v_start == crate::cost::spec_from_pieces(*g, start_entries(*g), 0),
                    a_start == Seq::new(g.sides as nat, |s: int| true),
                    goal == (if first_alive(at, 0) < g.sides { FfaOutcome::Win(first_alive(at, 0) as Side) }
                        else { FfaOutcome::DrawAmong(0) }, plies),
                decreases g.sides - w,
            {
                if alive[w as usize] {
                    return (FfaOutcome::Win(w), plies);
                }
                w += 1;
            }
            return (FfaOutcome::DrawAmong(0), plies);
        }
        let stm = pos.stm;
        let ghost v1 = pos@;
        let choice = choose_ffa_move(g, &mut pos, eval, &mut rng);
        let ghost c = ffa_choice(*eval, *g, v1, st);
        match choice {
            None => {
                // No legal move on your turn: elimination.
                proof { lemma_live_count_kill(alive@, stm as int); }
                alive.set(stm as usize, false);
                eliminate(g, &mut pos, stm);
                let ghost v2 = pos@;
                let next = ((pos.stm as u16 + 1) % (g.sides as u16)) as u8;
                pos.set_stm(g, next);
                proof {
                    crate::position::lemma_keyed_view(*g, pos@);
                    assert(pos@ == crate::position::keyed_view(*g,
                        v2.plain().with_stm(crate::position::next_side(v2.stm, g.sides))));
                    lemma_run_stuck(*g, *eval, vt, at, plies as int, ht, st, max_plies as int);
                }
            },
            Some(mv) => {
                proof { lemma_run_moved(*g, *eval, vt, at, plies as int, ht, st, max_plies as int, mv); }
                pos.make(g, &mv);
                let ghost v2 = pos@;
                plies += 1;
                let ghost old_live = live_count(alive@);
                // A capture that took a royal eliminates its owner too.
                let mut s: u8 = 0;
                while s < g.sides
                    invariant
                        pos.wf(*g),
                        alive@.len() == g.sides,
                        live_count(alive@) <= g.sides,
                        live_count(alive@) <= old_live,
                        s <= g.sides,
                        royal_sweep(*g, v2, at, 0) == royal_sweep(*g, pos@, alive@, s as int),
                    decreases g.sides - s,
                {
                    if alive[s as usize] && !has_royal(g, &pos, s) {
                        proof { lemma_live_count_kill(alive@, s as int); }
                        alive.set(s as usize, false);
                        eliminate(g, &mut pos, s);
                    }
                    s += 1;
                }
                let ghost sw = royal_sweep(*g, v2, at, 0);
                assert(pos@ == sw.0 && alive@ == sw.1);
                history.push(pos.hash);
                let mut reps: usize = 0;
                let mut j: usize = 0;
                while j < history.len()
                    invariant
                        j <= history@.len(),
                        reps <= j,
                        reps == key_count(history@, pos.hash, j as int),
                    decreases history@.len() - j,
                {
                    if history[j] == pos.hash {
                        reps += 1;
                    }
                    j += 1;
                }
                if reps >= 3 || plies >= max_plies {
                    let n = count_live(&alive);
                    proof { lemma_live_count_le(alive@); }
                    return (FfaOutcome::DrawAmong(n as u8), plies);
                }

            },
        }
    }
}

/// Piece `i` is a royal of `side` standing on the board.
pub open spec fn royal_on_board(g: GameDef, v: PosView, i: int, side: Side) -> bool {
    &&& v.pieces[i].side == side
    &&& g.types@[v.pieces[i].t as int].royal
    &&& v.pieces[i].loc is Board
}

/// Does `side` still have a royal piece on the board?
fn has_royal(g: &GameDef, pos: &Position, side: Side) -> (r: bool)
    requires
        pos.wf(*g),
    ensures
        r == exists|i: int| 0 <= i < pos.pieces@.len() && #[trigger] royal_on_board(*g, pos@, i, side),
{
    let mut i: usize = 0;
    while i < pos.pieces.len()
        invariant
            pos.wf(*g),
            i <= pos.pieces@.len(),
            forall|j: int| 0 <= j < i ==> !#[trigger] royal_on_board(*g, pos@, j, side),
        decreases pos.pieces@.len() - i,
    {
        let p = pos.pieces[i];
        proof { assert(piece_ok(pos.pieces@[i as int], *g)); }
        if p.side == side && g.types[p.t as usize].royal {
            if let Loc::Board(_) = p.loc {
                assert(royal_on_board(*g, pos@, i as int, side));
                return true;
            }
        }
        i += 1;
    }
    false
}

} // verus!
