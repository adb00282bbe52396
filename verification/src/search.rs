//! Rung 0 of the search ladder: perfect-information alpha-beta over the
//! incrementally maintained key, with the classical toolkit:
//! transposition table, iterative deepening with aspiration windows,
//! TT-move/MVV/killer/history ordering, null-move pruning, late-move
//! reductions, and a capture-only quiescence. Repetition is judged on
//! key equality.

use vstd::prelude::*;
use crate::eval::{Eval, SCORE_CAP};
use crate::game::{GameDef, StalematePolicy};
use crate::move_defs::script;
use crate::movegen::{all_anchored, anchored, is_legal, pseudo_moves};
use crate::moves::{Move, MoveKind, NO_SQ};
use crate::position::{Loc, Piece, PosView, Position, lemma_make_unmake, piece_ok};

verus! {

pub const MATE: i32 = 1_000_000;
pub const TT_SIZE: usize = 1048576;
pub const TT_MASK: u64 = 1048575u64;
pub const MAX_PLY: usize = 128;
/// Plies deeper than this are never searched (the aspiration loop and the
/// reductions keep every line far below it).
pub const PLY_CAP: i32 = 100_000;

#[derive(Clone, Copy, PartialEq, Eq, Debug, Structural)]
pub enum Bound {
    Exact,
    Lower,
    Upper,
}

/// A transposition-table entry.
#[derive(Clone, Copy, Debug)]
pub struct TtEntry {
    pub key: u64,
    pub depth: i32,
    pub score: i32,
    pub bound: Bound,
    pub best: Option<Move>,
}

/// What the search reads and writes, as values: the evaluator, the
/// transposition table, the game history, the search path, the killer
/// moves, the history credit, the board size, and the node count and
/// budget.
pub struct SState {
    pub eval: Eval,
    pub tt: Seq<Option<TtEntry>>,
    pub history: Seq<u64>,
    pub path: Seq<u64>,
    pub killers: Seq<(Option<Move>, Option<Move>)>,
    pub hist: Seq<u32>,
    pub ncells: int,
    pub nodes: u64,
    pub node_budget: u64,
}

pub struct Searcher {
    pub eval: Eval,
    tt: Vec<Option<TtEntry>>,
    /// Keys of positions already seen in the actual game (repetition).
    pub history: Vec<u64>,
    path: Vec<u64>,
    killers: Vec<(Option<Move>, Option<Move>)>,
    /// History heuristic: [from][to] accumulated cutoff credit.
    hist: Vec<u32>,
    ncells: usize,
    pub nodes: u64,
    node_budget: u64,
}

pub struct SearchResult {
    pub best: Option<Move>,
    pub score: i32,
    pub depth: i32,
    pub nodes: u64,
}

/// Scores reported by the search stay within the evaluation cap.
pub open spec fn score_ok(s: i32) -> bool {
    -SCORE_CAP <= s <= SCORE_CAP
}

/// Search windows may overshoot the score range by a small margin.
pub open spec fn window_ok(s: i32) -> bool {
    -SCORE_CAP - 1000 <= s <= SCORE_CAP + 1000
}

impl Searcher {
    pub closed spec fn spec_eval(self) -> Eval {
        self.eval
    }

    /// The searcher's state as values.
    pub closed spec fn sv(self) -> SState {
        SState {
            eval: self.eval,
            tt: self.tt@,
            history: self.history@,
            path: self.path@,
            killers: self.killers@,
            hist: self.hist@,
            ncells: self.ncells as int,
            nodes: self.nodes,
            node_budget: self.node_budget,
        }
    }

    pub closed spec fn spec_history(self) -> Seq<u64> {
        self.history@
    }

    pub closed spec fn spec_nodes(self) -> u64 {
        self.nodes
    }

    /// The transposition table holds no entry and no move has history
    /// credit.
    pub closed spec fn tables_clear(self) -> bool {
        &&& forall|j: int| 0 <= j < self.tt@.len() ==> #[trigger] self.tt@[j] is None
        &&& forall|j: int| 0 <= j < self.hist@.len() ==> #[trigger] self.hist@[j] == 0
    }

    /// The move the transposition table holds for `key`: the entry in the
    /// key's slot, if it was stored for that key.
    closed spec fn spec_tt_move(self, key: u64) -> Option<Move> {
        match self.tt@[(key & TT_MASK) as int] {
            Some(e) => if e.key == key { e.best } else { None },
            None => None,
        }
    }

    /// Counting one more node exhausts the node budget.
    closed spec fn spec_budget_spent(self) -> bool {
        (if self.nodes == u64::MAX { u64::MAX as int } else { self.nodes + 1 }) >= self.node_budget
    }

    /// Below the root, the position with key `key` repeats: it is on the
    /// search path, or already twice in the game history.
    closed spec fn spec_repeats(self, key: u64, ply: i32) -> bool {
        ply > 0 && (occurrences(self.path@, key) > 0 || occurrences(self.history@, key) >= 2)
    }

    /// The score a transposition entry stored for `key` settles without a
    /// search, below the root: one searched at least `depth` deep, with a
    /// score in range that is exact, a lower bound at or above `beta`, or
    /// an upper bound at or below `alpha`.
    closed spec fn spec_tt_cut(self, key: u64, depth: i32, alpha: i32, beta: i32, ply: i32) -> Option<i32> {
        match self.tt@[(key & TT_MASK) as int] {
            Some(e) => if e.key == key && e.depth >= depth && ply > 0 && score_ok(e.score) && (match e.bound {
                Bound::Exact => true,
                Bound::Lower => e.score >= beta,
                Bound::Upper => e.score <= alpha,
            }) {
                Some(e.score)
            } else {
                None
            },
            None => None,
        }
    }

    /// The material value ordering reads for type `t` (0 past the table).
    closed spec fn spec_material_of(self, t: u8) -> int {
        if (t as int) < self.eval.material@.len() { self.eval.material@[t as int] as int } else { 0 }
    }

    /// The ordering key of `mv`: the transposition-table move first, then
    /// captures by victim value (the locust's victim through `aux`), then
    /// the two killers, then history credit, else 0.
    closed spec fn spec_order_key(self, pos: Position, mv: Move, tt_move: Option<Move>,
        ks: (Option<Move>, Option<Move>)) -> int {
        ss_order_key(self.sv(), pos@, mv, tt_move, ks)
    }

    /// The searcher's tables fit the game it searches.
    pub closed spec fn wf(self, g: GameDef) -> bool {
        &&& self.tt@.len() == TT_SIZE
        &&& self.killers@.len() == MAX_PLY
        &&& self.ncells == g.ncells()
        &&& self.hist@.len() == self.ncells * self.ncells
        &&& self.eval.ok_for(g)
    }

    pub fn new(g: &GameDef, eval: Eval) -> (s: Self)
        requires
            g.wf(),
        ensures
            eval.ok_for(*g) ==> s.wf(*g),
            s.spec_eval() == eval,
            s.spec_history().len() == 0,
            s.spec_nodes() == 0,
            s.sv() == fresh_state(*g, eval),
    {
        let ncells = g.board.ncells();
        proof { crate::game::lemma_ncells_bound(g.board); }
        let mut tt: Vec<Option<TtEntry>> = Vec::new();
        let mut k: usize = 0;
        while k < TT_SIZE
            invariant
                k <= TT_SIZE,
                tt@ == Seq::new(k as nat, |i: int| None::<TtEntry>),
            decreases TT_SIZE - k,
        {
            tt.push(None);
            k += 1;
            assert(tt@ =~= Seq::new(k as nat, |i: int| None::<TtEntry>));
        }
        let mut killers: Vec<(Option<Move>, Option<Move>)> = Vec::new();
        let mut k: usize = 0;
        while k < MAX_PLY
            invariant
                k <= MAX_PLY,
                killers@ == Seq::new(k as nat, |i: int| (None::<Move>, None::<Move>)),
            decreases MAX_PLY - k,
        {
            killers.push((None, None));
            k += 1;
            assert(killers@ =~= Seq::new(k as nat, |i: int| (None::<Move>, None::<Move>)));
        }
        assert(ncells * ncells <= 65025 * 65025) by (nonlinear_arith) requires ncells <= 65025;
        let n2 = ncells * ncells;
        let mut hist: Vec<u32> = Vec::new();
        let mut k: usize = 0;
        while k < n2
            invariant
                k <= n2,
                hist@ == Seq::new(k as nat, |i: int| 0u32),
            decreases n2 - k,
        {
            hist.push(0);
            k += 1;
            assert(hist@ =~= Seq::new(k as nat, |i: int| 0u32));
        }
        Searcher { eval, tt, history: Vec::new(), path: Vec::new(), killers, hist, ncells, nodes: 0, node_budget: u64::MAX }
    }

    /// Forget the transposition table and the history credit.
    pub fn clear_tt(&mut self)
        ensures
            final(self).spec_eval() == old(self).spec_eval(),
            final(self).spec_history() == old(self).spec_history(),
            final(self).spec_nodes() == old(self).spec_nodes(),
            forall|g: GameDef| old(self).wf(g) ==> final(self).wf(g),
            final(self).tables_clear(),
    {
        let mut k: usize = 0;
        while k < self.tt.len()
            invariant
                k <= self.tt@.len(),
                forall|j: int| 0 <= j < k ==> #[trigger] self.tt@[j] is None,
                self.tt@.len() == old(self).tt@.len(),
                self.eval == old(self).eval,
                self.history == old(self).history,
                self.nodes == old(self).nodes,
                self.hist == old(self).hist,
                self.killers == old(self).killers,
                self.ncells == old(self).ncells,
            decreases self.tt@.len() - k,
        {
            self.tt.set(k, None);
            k += 1;
        }
        let mut k: usize = 0;
        while k < self.hist.len()
            invariant
                k <= self.hist@.len(),
                forall|j: int| 0 <= j < self.tt@.len() ==> #[trigger] self.tt@[j] is None,
                forall|j: int| 0 <= j < k ==> #[trigger] self.hist@[j] == 0,
                self.tt@.len() == old(self).tt@.len(),
                self.hist@.len() == old(self).hist@.len(),
                self.eval == old(self).eval,
                self.history == old(self).history,
                self.nodes == old(self).nodes,
                self.killers == old(self).killers,
                self.ncells == old(self).ncells,
            decreases self.hist@.len() - k,
        {
            self.hist.set(k, 0);
            k += 1;
        }
    }

    fn tt_index(key: u64) -> (i: usize)
        ensures
            i < TT_SIZE,
            i == key & TT_MASK,
    {
        let m = key & TT_MASK;
        assert(m < 1048576) by (bit_vector) requires m == key & 1048575u64;
        m as usize
    }

    /// The transposition-table move stored for this key, if any.
    fn tt_move(&self, key: u64) -> (r: Option<Move>)
        requires
            self.tt@.len() == TT_SIZE,
        ensures
            r == self.spec_tt_move(key),
    {
        match self.tt[Self::tt_index(key)] {
            Some(e) => if e.key == key { e.best } else { None },
            None => None,
        }
    }

    /// Iterative deepening with aspiration windows, up to `max_depth`
    /// plies or until the node budget runs out (a partial iteration keeps
    /// the previous depth's move). The position is left as it was.
    pub fn search(&mut self, g: &GameDef, pos: &mut Position, max_depth: i32, node_budget: u64) -> (r: SearchResult)
        requires
            old(pos).wf(*g),
            old(self).wf(*g),
        ensures
            final(pos)@ == old(pos)@,
            final(self).wf(*g),
            score_ok(r.score),
            max_depth >= 1 ==> 1 <= r.depth <= max_depth && r.depth <= 10_000,
            max_depth < 1 ==> r.depth == 0 && r.best is None && r.score == 0 && r.nodes == 0,
            final(self).spec_eval() == old(self).spec_eval(),
            (r, final(self).sv()) == spec_search(*g, old(self).sv(), old(pos)@, max_depth as int, node_budget),
    {
        let ghost v = pos@;
        self.nodes = 0;
        self.node_budget = node_budget;
        self.path.clear();
        let mut result = SearchResult { best: None, score: 0, depth: 0, nodes: 0 };
        let mut prev_score: i32 = 0;
        // Deeper than any budget can reach.
        let top = if max_depth > 10_000 { 10_000 } else { max_depth };
        let ghost goal = spec_search(*g, old(self).sv(), v, max_depth as int, node_budget);
        assert(self.sv() == SState { nodes: 0, node_budget, path: Seq::empty(), ..old(self).sv() });
        let mut d: i32 = 1;
        while d <= top
            invariant_except_break
                goal == s_id(*g, self.sv(), v, top as int, d as int, prev_score as int, result),
                d <= top + 1 || d == 1,
                v == old(pos)@,
                d == 1 ==> result.depth == 0 && result.best is None && result.score == 0 && result.nodes == 0,
                d > 1 ==> 1 <= result.depth < d,
            invariant
                pos.wf(*g),
                pos@ == old(pos)@,
                self.wf(*g),
                self.eval == old(self).eval,
                score_ok(prev_score),
                score_ok(result.score),
                1 <= d,
                top <= 10_000,
                top == (if max_depth > 10_000 { 10_000 } else { max_depth }),
            ensures
                top >= 1 ==> 1 <= result.depth <= top,
                top < 1 ==> result.depth == 0 && result.best is None && result.score == 0 && result.nodes == 0,
                goal == (result, self.sv()),
            decreases top + 1 - d,
        {
            let ghost sd = self.sv();
            let (mut alpha, mut beta) = if d >= 3 {
                (clamp_window(prev_score as i64 - 60), clamp_window(prev_score as i64 + 60))
            } else {
                (-MATE, MATE)
            };
            let mut score = self.negamax(g, pos, d, alpha, beta, 0);
            let ghost a0 = alpha as int;
            let ghost b0 = beta as int;
            let ghost asp = s_asp(*g, self.sv(), v, d as int, alpha as int, beta as int, score as int, 0);
            let mut tries: u8 = 0;
            while tries < 3
                invariant_except_break
                    asp == s_asp(*g, self.sv(), v, d as int, alpha as int, beta as int, score as int, tries as int),
                invariant
                    v == old(pos)@,
                    self.eval == old(self).eval,
                    tries <= 3,
                    pos.wf(*g),
                    pos@ == old(pos)@,
                    self.wf(*g),
                    score_ok(score),
                    window_ok(alpha),
                    window_ok(beta),
                    1 <= d <= 10_000,
                ensures
                    asp == (score as int, self.sv()),
                decreases 3 - tries,
            {
                if score <= alpha && alpha > -MATE {
                    alpha = -MATE; // fail low: widen down
                } else if score >= beta && beta < MATE {
                    beta = MATE; // fail high: widen up
                } else {
                    break;
                }
                if self.nodes >= self.node_budget {
                    break;
                }
                score = self.negamax(g, pos, d, alpha, beta, 0);
                tries += 1;
            }
            if self.nodes >= self.node_budget && d > 1 {
                break; // partial iteration: keep the previous depth's move
            }
            let best = self.tt_move(pos.hash);
            result = SearchResult { best, score, depth: d, nodes: self.nodes };
            prev_score = score;
            if score >= MATE - 1000 || score <= -(MATE - 1000) {
                break;
            }
            d += 1;
        }
        result
    }

    /// Any non-royal material of the side to move on the board (null-move
    /// guard).
    fn has_material(&self, g: &GameDef, pos: &Position) -> (r: bool)
        requires
            pos.wf(*g),
        ensures
            r == exists|i: int| 0 <= i < pos.pieces@.len() && #[trigger] non_royal_on_board(*g, pos@, i),
    {
        let mut i: usize = 0;
        while i < pos.pieces.len()
            invariant
                pos.wf(*g),
                i <= pos.pieces@.len(),
                forall|j: int| 0 <= j < i ==> !#[trigger] non_royal_on_board(*g, pos@, j),
            decreases pos.pieces@.len() - i,
        {
            let p = pos.pieces[i];
            proof { assert(piece_ok(pos.pieces@[i as int], *g)); }
            if p.side == pos.stm && !g.types[p.t as usize].royal {
                if let Loc::Board(_) = p.loc {
                    assert(non_royal_on_board(*g, pos@, i as int));
                    return true;
                }
            }
            i += 1;
        }
        false
    }

    /// Occurrences of `key` in a key list.
    fn count_key(v: &Vec<u64>, key: u64) -> (n: usize)
        ensures
            n <= v@.len(),
            n == occurrences(v@, key),
    {
        let mut n: usize = 0;
        let mut k: usize = 0;
        while k < v.len()
            invariant
                k <= v@.len(),
                n <= k,
                n == occurrences(v@.subrange(0, k as int), key),
            decreases v@.len() - k,
        {
            assert(v@.subrange(0, k + 1).drop_last() =~= v@.subrange(0, k as int));
            if v[k] == key {
                n += 1;
            }
            k += 1;
        }
        assert(v@.subrange(0, v@.len() as int) =~= v@);
        n
    }
}


impl Searcher {
    /// Order moves: the TT move, then captures by victim value (MVV, the
    /// locust's victim through `aux`), then killers, then history credit.
    /// Equal keys keep generation order.
    fn order(&self, g: &GameDef, pos: &Position, moves: &Vec<Move>, tt_move: Option<Move>, ply: i32) -> (out: Vec<Move>)
        requires
            pos.wf(*g),
            self.wf(*g),
            all_anchored(*g, pos@, moves@),
            0 <= ply,
        ensures
            all_anchored(*g, pos@, out@),
            out@.len() == moves@.len(),
            forall|j: int| 0 <= j < out@.len() ==> moves@.contains(#[trigger] out@[j]),
            out@ == order_of(self.sv(), pos@, moves@, tt_move, ply as int),
    {
        let ks = if (ply as usize) < MAX_PLY { self.killers[ply as usize] } else { (None, None) };
        let mut out: Vec<Move> = Vec::new();
        let mut keys: Vec<i64> = Vec::new();
        let mut k: usize = 0;
        while k < moves.len()
            invariant
                pos.wf(*g),
                self.wf(*g),
                all_anchored(*g, pos@, moves@),
                all_anchored(*g, pos@, out@),
                out@.len() == keys@.len(),
                out@.len() == k,
                k <= moves@.len(),
                forall|j: int| 0 <= j < out@.len() ==> moves@.contains(#[trigger] out@[j]),
                ks == killers_at(self.sv(), ply as int),
                (out@, keys@) == ordered(self.sv(), pos@, moves@, tt_move, ply as int, k as int),
            decreases moves@.len() - k,
        {
            let mv = moves[k];
            assert(anchored(*g, pos@, moves@[k as int]));
            assert(moves@.contains(mv));
            let key = self.order_key(g, pos, &mv, tt_move, ks);
            // Stable insertion: after every entry with a key at least as large.
            let mut at: usize = 0;
            while at < keys.len() && keys[at] >= key
                invariant
                    at <= keys@.len(),
                    insert_at(keys@, key as int, 0) == insert_at(keys@, key as int, at as int),
                decreases keys@.len() - at,
            {
                at += 1;
            }
            assert(insert_at(keys@, key as int, 0) == at as int);
            let ghost prev = out@;
            out.insert(at, mv);
            keys.insert(at, key);
            proof {
                assert forall|j: int| 0 <= j < out@.len() implies anchored(*g, pos@, #[trigger] out@[j])
                    && moves@.contains(out@[j]) by {
                    if j < at {
                        assert(out@[j] == prev[j]);
                    } else if j > at {
                        assert(out@[j] == prev[j - 1]);
                    }
                }
            }
            k += 1;
        }
        out
    }

    fn order_key(&self, g: &GameDef, pos: &Position, mv: &Move, tt_move: Option<Move>, ks: (Option<Move>, Option<Move>)) -> (r: i64)
        requires
            pos.wf(*g),
            self.wf(*g),
            anchored(*g, pos@, *mv),
        ensures
            r == self.spec_order_key(*pos, *mv, tt_move, ks),
    {
        proof { crate::game::lemma_ncells_bound(g.board); }
        if tt_move == Some(*mv) {
            return i64::MAX;
        }
        match pos.piece_at(mv.to) {
            Some(v) => {
                return 1_000_000_000 + self.material_of(g, v.t);
            },
            None => {},
        }
        if script(mv.kind).capture_class {
            match pos.piece_at(mv.aux) {
                Some(v) => {
                    return 1_000_000_000 + self.material_of(g, v.t);
                },
                None => {},
            }
        }
        if ks.0 == Some(*mv) {
            return 900_000_000;
        }
        if ks.1 == Some(*mv) {
            return 800_000_000;
        }
        if mv.from != NO_SQ && (mv.from as usize) < self.ncells && (mv.to as usize) < self.ncells {
            let i = self.hist_index(mv.from, mv.to);
            return self.hist[i] as i64;
        }
        0
    }

    fn material_of(&self, g: &GameDef, t: u8) -> (v: i64)
        requires
            self.wf(*g),
        ensures
            -2147483648 <= v <= 2147483647,
            v == self.spec_material_of(t),
    {
        if (t as usize) < self.eval.material.len() { self.eval.material[t as usize] as i64 } else { 0 }
    }

    fn hist_index(&self, from: u16, to: u16) -> (i: usize)
        requires
            (from as int) < self.ncells,
            (to as int) < self.ncells,
            self.hist@.len() == self.ncells * self.ncells,
        ensures
            i < self.hist@.len(),
            i == from * self.ncells + to,
    {
        assert(from * self.ncells + to < self.ncells * self.ncells) by (nonlinear_arith)
            requires from < self.ncells, to < self.ncells;
        assert(from * self.ncells <= from * self.ncells + to) by (nonlinear_arith)
            requires from >= 0, to >= 0, self.ncells >= 0;
        let n = self.hist.len();
        assert(from * self.ncells + to < n);
        from as usize * self.ncells + to as usize
    }

    /// Capture-only quiescence with stand-pat: enemy-occupied targets (or
    /// the locust's aux victim) only, so every recursion strictly reduces
    /// the opponent's total HP and the line is bounded.
    fn qsearch(&mut self, g: &GameDef, pos: &mut Position, alpha0: i32, beta: i32, ply: i32) -> (r: i32)
        requires
            old(pos).wf(*g),
            old(self).wf(*g),
            window_ok(alpha0),
            window_ok(beta),
            0 <= ply <= PLY_CAP,
        ensures
            final(pos)@ == old(pos)@,
            final(self).wf(*g),
            score_ok(r),
            final(self).spec_eval() == old(self).spec_eval(),
            exists|x: int| #[trigger] old(self).eval.stm_value(*g, old(pos)@, x) && r >= x
                && (x >= beta || ply > 64 ==> r == x),
            (r as int, final(self).sv()) == sq(*g, old(self).sv(), old(pos)@, alpha0 as int, beta as int, ply as int),
            final(self).sv().path == old(self).sv().path,
        decreases PLY_CAP - ply,
    {
        let ghost s0 = self.sv();
        let mut alpha = alpha0;
        self.nodes = self.nodes.saturating_add(1);
        let ghost s1 = self.sv();
        assert(s1 == (SState { nodes: sat_inc(s0.nodes), ..s0 }));
        let stand = self.eval.stm(g, pos);
        assert(old(self).eval.stm_value(*g, old(pos)@, stand as int));
        if stand >= beta || ply > 64 || self.nodes >= self.node_budget {
            return stand;
        }
        if stand > alpha {
            alpha = stand;
        }
        let all = pseudo_moves(g, pos);
        let mut caps: Vec<Move> = Vec::new();
        let mut k: usize = 0;
        while k < all.len()
            invariant
                pos.wf(*g),
                all_anchored(*g, pos@, all@),
                all_anchored(*g, pos@, caps@),
                k <= all@.len(),
                caps@ == captures_of(pos@, all@, k as int),
            decreases all@.len() - k,
        {
            let m = all[k];
            assert(anchored(*g, pos@, all@[k as int]));
            if script(m.kind).counts_as_capture(pos, &m) {
                caps.push(m);
            }
            k += 1;
            assert(caps@ =~= captures_of(pos@, all@, k as int));
        }
        let moves = self.order(g, pos, &caps, None, ply);
        let ghost alpha_in = alpha;
        assert(sq(*g, s0, old(pos)@, alpha0 as int, beta as int, ply as int)
            == sq_loop(*g, s1, old(pos)@, moves@, 0, alpha as int, beta as int, ply as int));
        let mut k: usize = 0;
        while k < moves.len()
            invariant
                s0 == old(self).sv(),
                self.sv().path == s0.path,
                sq(*g, s0, old(pos)@, alpha0 as int, beta as int, ply as int)
                    == sq_loop(*g, self.sv(), old(pos)@, moves@, k as int, alpha as int, beta as int, ply as int),
                k <= moves@.len(),
                pos.wf(*g),
                pos@ == old(pos)@,
                self.wf(*g),
                window_ok(alpha),
                window_ok(beta),
                score_ok(alpha) || alpha == alpha0,
                alpha >= stand,
                score_ok(stand),
                0 <= ply <= 64,
                stand < beta,
                self.eval == old(self).eval,
                old(self).eval.stm_value(*g, old(pos)@, stand as int),
            decreases moves@.len() - k,
        {
            let mv = moves[k];
            let ghost sk = self.sv();
            k += 1;
            if !is_legal(g, pos, &mv) {
                continue;
            }
            let ghost before = pos@;
            let u = pos.make(g, &mv);
            let ghost after = pos@;
            let s = -self.qsearch(g, pos, clamp_window(-(beta as i64)), clamp_window(-(alpha as i64)), ply + 1);
            pos.unmake(g, &u);
            proof {
                lemma_make_unmake(*g, before, after, u);
                assert(moves@[k - 1] == mv);
                assert(after == crate::position::spec_made(*g, old(pos)@, mv));
            }
            if s >= beta {
                assert(sq_loop(*g, sk, old(pos)@, moves@, (k - 1) as int, alpha as int, beta as int, ply as int)
                    == (s as int, self.sv()));
                return s;
            }
            if s > alpha {
                alpha = s;
            }
        }
        let r = clamp_score(alpha);
        assert(old(self).eval.stm_value(*g, old(pos)@, stand as int) && r >= stand);
        r
    }
}


/// Piece `i` is a non-royal piece of the side to move standing on the board.
pub open spec fn non_royal_on_board(g: GameDef, v: PosView, i: int) -> bool {
    &&& v.pieces[i].side == v.stm
    &&& !g.types@[v.pieces[i].t as int].royal
    &&& v.pieces[i].loc is Board
}

/// How many entries of `s` equal `key`.
pub open spec fn occurrences(s: Seq<u64>, key: u64) -> nat
    decreases s.len(),
{
    if s.len() == 0 {
        0
    } else {
        occurrences(s.drop_last(), key) + if s.last() == key { 1nat } else { 0nat }
    }
}

/// A count raised by one, held at the top of `u64`.
pub open spec fn sat_inc(n: u64) -> u64 {
    if n == u64::MAX { n } else { (n + 1) as u64 }
}

/// A window bound held within the window range.
pub open spec fn cw(v: int) -> int {
    if v > 1_000_001_000 { 1_000_001_000 } else if v < -1_000_001_000 { -1_000_001_000 } else { v }
}

/// A score held within the reported range.
pub open spec fn cs(v: int) -> int {
    if v > 1_000_000_000 { 1_000_000_000 } else if v < -1_000_000_000 { -1_000_000_000 } else { v }
}

/// The piece standing on `sq`, if any.
pub open spec fn vpiece_at(v: PosView, sq: int) -> Option<Piece> {
    if 0 <= sq < v.board.len() && v.board[sq] >= 0 && v.board[sq] < v.pieces.len() {
        Some(v.pieces[v.board[sq] as int])
    } else {
        None
    }
}

/// A quiet move: not a capture of any kind, not a drop, onto an empty square.
pub open spec fn quiet_move(v: PosView, mv: Move) -> bool {
    mv.kind != MoveKind::Locust && mv.kind != MoveKind::Drop && vpiece_at(v, mv.to as int) is None
}

/// A move quiescence searches: a locust capture, or a board move onto an
/// enemy piece.
pub open spec fn capture_move(v: PosView, mv: Move) -> bool {
    mv.kind == MoveKind::Locust || (mv.kind != MoveKind::Drop
        && (vpiece_at(v, mv.to as int) matches Some(p) && p.side != v.stm))
}

/// The captures among the first `k` moves of `ms`, in order.
pub open spec fn captures_of(v: PosView, ms: Seq<Move>, k: int) -> Seq<Move>
    decreases k,
{
    if k <= 0 {
        Seq::empty()
    } else {
        captures_of(v, ms, k - 1) + if capture_move(v, ms[k - 1]) { seq![ms[k - 1]] } else { Seq::empty() }
    }
}

/// The material value ordering reads for type `t` (0 past the table).
pub open spec fn ss_material_of(s: SState, t: u8) -> int {
    if (t as int) < s.eval.material@.len() { s.eval.material@[t as int] as int } else { 0 }
}

/// The ordering key of `mv`: the transposition-table move first, then
/// captures by victim value (the locust's victim through `aux`), then
/// the two killers, then history credit, else 0.
pub open spec fn ss_order_key(s: SState, v: PosView, mv: Move, tt_move: Option<Move>,
    ks: (Option<Move>, Option<Move>)) -> int {
    if tt_move == Some(mv) {
        i64::MAX as int
    } else if vpiece_at(v, mv.to as int) is Some {
        1_000_000_000 + ss_material_of(s, vpiece_at(v, mv.to as int)->0.t)
    } else if mv.kind == MoveKind::Locust && vpiece_at(v, mv.aux as int) is Some {
        1_000_000_000 + ss_material_of(s, vpiece_at(v, mv.aux as int)->0.t)
    } else if ks.0 == Some(mv) {
        900_000_000
    } else if ks.1 == Some(mv) {
        800_000_000
    } else if mv.from != NO_SQ && (mv.from as int) < s.ncells && (mv.to as int) < s.ncells {
        s.hist[mv.from * s.ncells + mv.to] as int
    } else {
        0
    }
}

/// The first index from `at` on whose key is below `key` (the length when
/// none is).
pub open spec fn insert_at(keys: Seq<i64>, key: int, at: int) -> int
    decreases keys.len() - at,
{
    if at < 0 || at >= keys.len() {
        keys.len() as int
    } else if keys[at] < key {
        at
    } else {
        insert_at(keys, key, at + 1)
    }
}

/// The killers the ordering reads at `ply`.
pub open spec fn killers_at(s: SState, ply: int) -> (Option<Move>, Option<Move>) {
    if 0 <= ply < MAX_PLY { s.killers[ply] } else { (None, None) }
}

/// The first `k` moves of `ms` in search order, with their keys: each move
/// goes after every earlier one with a key at least as large.
pub open spec fn ordered(s: SState, v: PosView, ms: Seq<Move>, tt_move: Option<Move>, ply: int, k: int)
    -> (Seq<Move>, Seq<i64>)
    decreases k,
{
    if k <= 0 {
        (Seq::empty(), Seq::empty())
    } else {
        let prev = ordered(s, v, ms, tt_move, ply, k - 1);
        let key = ss_order_key(s, v, ms[k - 1], tt_move, killers_at(s, ply));
        let at = insert_at(prev.1, key, 0);
        (prev.0.insert(at, ms[k - 1]), prev.1.insert(at, key as i64))
    }
}

/// The moves of `ms` in search order.
pub open spec fn order_of(s: SState, v: PosView, ms: Seq<Move>, tt_move: Option<Move>, ply: int) -> Seq<Move> {
    ordered(s, v, ms, tt_move, ply, ms.len() as int).0
}

/// Quiescence from `v`: count the node; stand pat on the static value
/// when it reaches beta, past ply 64, or out of budget; otherwise try the
/// legal captures in search order, each answered by the opponent's
/// quiescence with the window negated.
pub open spec fn sq(g: GameDef, s: SState, v: PosView, alpha0: int, beta: int, ply: int) -> (int, SState)
    decreases PLY_CAP - ply, 1nat, 0int,
{
    let s1 = SState { nodes: sat_inc(s.nodes), ..s };
    let stand = s.eval.stm_exact(g, v);
    if ply < 0 || ply > PLY_CAP || stand >= beta || ply > 64 || s1.nodes >= s1.node_budget {
        (stand, s1)
    } else {
        let alpha = if stand > alpha0 { stand } else { alpha0 };
        let all = crate::movegen::spec_pseudo_moves(g, v);
        let moves = order_of(s1, v, captures_of(v, all, all.len() as int), None, ply);
        sq_loop(g, s1, v, moves, 0, alpha, beta, ply)
    }
}

/// The capture loop of quiescence from entry `k` on.
pub open spec fn sq_loop(g: GameDef, s: SState, v: PosView, moves: Seq<Move>, k: int, alpha: int, beta: int,
    ply: int) -> (int, SState)
    decreases PLY_CAP - ply, 0nat, moves.len() - k,
{
    if k < 0 || k >= moves.len() || ply < 0 || ply > 64 {
        (cs(alpha), s)
    } else if !crate::movegen::spec_legal(g, v, moves[k]) {
        sq_loop(g, s, v, moves, k + 1, alpha, beta, ply)
    } else {
        let c = sq(g, s, crate::position::spec_made(g, v, moves[k]), cw(-beta), cw(-alpha), ply + 1);
        let sc = -c.0;
        if sc >= beta {
            (sc, c.1)
        } else {
            sq_loop(g, c.1, v, moves, k + 1, if sc > alpha { sc } else { alpha }, beta, ply)
        }
    }
}

/// The killer and history credit a quiet cutoff move earns.
pub open spec fn credit(s: SState, mv: Move, quiet: bool, ply: int, depth: int) -> SState {
    if quiet && 0 <= ply < MAX_PLY {
        let ks = s.killers[ply];
        let s1 = if ks.0 != Some(mv) { SState { killers: s.killers.update(ply, (Some(mv), ks.0)), ..s } } else { s };
        if mv.from != NO_SQ && (mv.from as int) < s.ncells && (mv.to as int) < s.ncells {
            let i = mv.from * s.ncells + mv.to;
            let dd = depth * depth;
            let c = if dd > 4294967295 { 4294967295 } else { dd };
            let h = s1.hist[i] as int;
            SState { hist: s1.hist.update(i, (if h + c > 4294967295 { 4294967295 } else { h + c }) as u32), ..s1 }
        } else {
            s1
        }
    } else {
        s
    }
}

/// The score of a node with no legal move.
pub open spec fn terminal_score(g: GameDef, in_check: bool, ply: int) -> int {
    if in_check {
        -MATE + ply
    } else {
        match g.policy.stalemate {
            StalematePolicy::Draw => 0,
            StalematePolicy::Loss => -MATE + ply,
        }
    }
}

/// The position after a null move (turn passed, double-step marker
/// cleared), under its ground-truth key.
pub open spec fn null_made(g: GameDef, v: PosView) -> PosView {
    crate::position::keyed_view(g, PosView { ep: NO_SQ, stm: crate::position::next_side(v.stm, g.sides), ..v })
}

/// The score and move a transposition entry for `key` settles, if any.
pub open spec fn tt_settles(e: Option<TtEntry>, key: u64, depth: int, alpha: int, beta: int, ply: int) -> Option<i32> {
    match e {
        Some(e) => if e.key == key && e.depth >= depth && ply > 0 && score_ok(e.score) && (match e.bound {
            Bound::Exact => true,
            Bound::Lower => e.score >= beta,
            Bound::Upper => e.score <= alpha,
        }) { Some(e.score) } else { None },
        None => None,
    }
}

/// The transposition move for `key` in an entry, if stored for that key.
pub open spec fn tt_move_of(e: Option<TtEntry>, key: u64) -> Option<Move> {
    match e {
        Some(e) => if e.key == key { e.best } else { None },
        None => None,
    }
}

/// Fail-soft alpha-beta from `v`, `depth` plies deep, `ply` plies from the
/// root, as the search runs it: count the node; a repeat below the root
/// scores 0; a transposition entry that settles the window answers; at the
/// horizon, quiescence; out of budget, the static value; a null move that
/// still fails high cuts; otherwise the legal moves in search order, with
/// late quiet moves first searched reduced, each stored in the table with
/// its bound and best move. The score and the state after.
pub open spec fn sn(g: GameDef, s: SState, v: PosView, depth: int, alpha0: int, beta: int, ply: int) -> (int, SState)
    decreases (if depth > 0 { depth } else { 0 }), 2nat, 0int,
{
    let s1 = SState { nodes: sat_inc(s.nodes), ..s };
    let key = v.hash;
    let idx = (key & TT_MASK) as int;
    let e = s.tt[idx];
    if ply > 0 && (occurrences(s.path, key) > 0 || occurrences(s.history, key) >= 2) {
        (0, s1)
    } else if tt_settles(e, key, depth, alpha0, beta, ply) is Some {
        (tt_settles(e, key, depth, alpha0, beta, ply)->0 as int, s1)
    } else if depth <= 0 {
        sq(g, s1, v, alpha0, beta, if ply > 64 { 65 } else { ply })
    } else if s1.nodes >= s1.node_budget {
        (s.eval.stm_exact(g, v), s1)
    } else {
        let in_check = crate::attack::v_royal_attacked(v, g, v.stm);
        let nm = depth >= 3 && !in_check && ply > 0 && g.sides == 2 && beta < MATE - 1000
            && exists|i: int| 0 <= i < v.pieces.len() && #[trigger] non_royal_on_board(g, v, i);
        let nc = if nm {
            sn(g, SState { path: s1.path.push(key), ..s1 }, null_made(g, v), depth - 1 - (2 + depth / 4),
                cw(-beta), cw(-beta + 1), ply + 1)
        } else {
            (0, s1)
        };
        let s2 = if nm { SState { path: nc.1.path.drop_last(), ..nc.1 } } else { s1 };
        if nm && -nc.0 >= beta {
            (if score_ok(beta as i32) && -1_000_000_000 <= beta <= 1_000_000_000 { beta } else { -nc.0 }, s2)
        } else {
            sn_moves(g, s2, v, depth, alpha0, beta, ply, in_check, tt_move_of(e, key))
        }
    }
}

/// The move search of an alpha-beta node once the cheap exits are past:
/// the legal moves in search order, then, with a legal move, the table
/// entry with its bound and best move (with none, the mate or stalemate
/// score).
pub open spec fn sn_moves(g: GameDef, s2: SState, v: PosView, depth: int, alpha0: int, beta: int, ply: int,
    in_check: bool, tt_move: Option<Move>) -> (int, SState)
    decreases (if depth > 0 { depth } else { 0 }), 1nat, 0int,
{
    let key = v.hash;
    let idx = (key & TT_MASK) as int;
    let moves = order_of(s2, v, crate::movegen::spec_pseudo_moves(g, v), tt_move, ply);
    let lr = sn_loop(g, SState { path: s2.path.push(key), ..s2 }, v, moves, 0, depth, alpha0, beta, ply,
        in_check, -MATE as int, None, false, 0);
    let s5 = SState { path: lr.3.path.drop_last(), ..lr.3 };
    if !lr.2 {
        (terminal_score(g, in_check, ply), s5)
    } else {
        let bound = if lr.0 <= alpha0 { Bound::Upper } else if lr.0 >= beta { Bound::Lower } else { Bound::Exact };
        (lr.0, SState { tt: s5.tt.update(idx, Some(TtEntry { key, depth: depth as i32, score: lr.0 as i32,
            bound, best: lr.1 })), ..s5 })
    }
}

/// The move loop of alpha-beta from entry `k` on: the best score and move
/// so far, whether a legal move was met, and the state after.
pub open spec fn sn_loop(g: GameDef, s: SState, v: PosView, moves: Seq<Move>, k: int, depth: int, alpha: int,
    beta: int, ply: int, in_check: bool, best: int, best_move: Option<Move>, any: bool, searched: int)
    -> (int, Option<Move>, bool, SState)
    decreases (if depth > 0 { depth } else { 0 }), 0nat, moves.len() - k,
{
    if k < 0 || k >= moves.len() || depth <= 0 {
        (best, best_move, any, s)
    } else if !crate::movegen::spec_legal(g, v, moves[k]) {
        sn_loop(g, s, v, moves, k + 1, depth, alpha, beta, ply, in_check, best, best_move, any, searched)
    } else {
        let mv = moves[k];
        let quiet = quiet_move(v, mv);
        let a = crate::position::spec_made(g, v, mv);
        let reduce = depth >= 3 && searched >= 4 && quiet && !in_check;
        let c1 = if reduce {
            sn(g, s, a, depth - 2, cw(-alpha - 1), cw(-alpha), ply + 1)
        } else {
            sn(g, s, a, depth - 1, cw(-beta), cw(-alpha), ply + 1)
        };
        let c = if reduce && -c1.0 > alpha { sn(g, c1.1, a, depth - 1, cw(-beta), cw(-alpha), ply + 1) } else { c1 };
        let sc = -c.0;
        let nb = if sc > best { sc } else { best };
        let nm = if sc > best { Some(mv) } else { best_move };
        let na = if nb > alpha { nb } else { alpha };
        if na >= beta {
            (nb, nm, true, credit(c.1, mv, quiet, ply, depth))
        } else {
            sn_loop(g, c.1, v, moves, k + 1, depth, na, beta, ply, in_check, nb, nm, true, searched + 1)
        }
    }
}

/// The aspiration re-searches of one iteration at depth `d` from the root,
/// after `tries` of at most 3: a score at or below a finite alpha widens
/// alpha to the mate bound, one at or above a finite beta widens beta;
/// each widening re-searches unless the node budget is spent.
pub open spec fn s_asp(g: GameDef, s: SState, v: PosView, d: int, alpha: int, beta: int, score: int, tries: int)
    -> (int, SState)
    decreases 3 - tries,
{
    if tries >= 3 {
        (score, s)
    } else if (score <= alpha && alpha > -MATE) || (score >= beta && beta < MATE) {
        let na = if score <= alpha && alpha > -MATE { -MATE as int } else { alpha };
        let nb = if score <= alpha && alpha > -MATE { beta } else { MATE as int };
        if s.nodes >= s.node_budget {
            (score, s)
        } else {
            let c = sn(g, s, v, d, na, nb, 0);
            s_asp(g, c.1, v, d, na, nb, c.0, tries + 1)
        }
    } else {
        (score, s)
    }
}

/// Iterative deepening from depth `d` up to `top`: each iteration searches
/// the root in an aspiration window around the previous score (the full
/// window below depth 3) and re-searches on failure; a partial iteration
/// past depth 1 keeps the previous result; a completed one reports the
/// table's move for the root, its score, depth and node count, and a mate
/// score stops the deepening.
pub open spec fn s_id(g: GameDef, s: SState, v: PosView, top: int, d: int, prev: int, result: SearchResult)
    -> (SearchResult, SState)
    decreases top + 1 - d,
{
    if d > top || d < 1 {
        (result, s)
    } else {
        let a = if d >= 3 { cw(prev - 60) } else { -MATE as int };
        let b = if d >= 3 { cw(prev + 60) } else { MATE as int };
        let c = sn(g, s, v, d, a, b, 0);
        let asp = s_asp(g, c.1, v, d, a, b, c.0, 0);
        let s2 = asp.1;
        if s2.nodes >= s2.node_budget && d > 1 {
            (result, s2)
        } else {
            let res = SearchResult { best: tt_move_of(s2.tt[(v.hash & TT_MASK) as int], v.hash),
                score: asp.0 as i32, depth: d as i32, nodes: s2.nodes };
            if asp.0 >= MATE - 1000 || asp.0 <= -(MATE - 1000) {
                (res, s2)
            } else {
                s_id(g, s2, v, top, d + 1, asp.0, res)
            }
        }
    }
}

/// A whole search from `v`: the node count restarts, the budget is set,
/// the path clears, and the iterations run up to `max_depth` (held to
/// 10 000).
pub open spec fn spec_search(g: GameDef, s: SState, v: PosView, max_depth: int, node_budget: u64) -> (SearchResult, SState) {
    s_id(g, SState { nodes: 0, node_budget, path: Seq::empty(), ..s }, v,
        if max_depth > 10_000 { 10_000 } else { max_depth }, 1, 0,
        SearchResult { best: None, score: 0, depth: 0, nodes: 0 })
}

/// The conditions under which an alpha-beta node tries a null move.
pub open spec fn tries_null(g: GameDef, v: PosView, depth: int, beta: int, ply: int) -> bool {
    &&& depth >= 3
    &&& !crate::attack::v_royal_attacked(v, g, v.stm)
    &&& ply > 0
    &&& g.sides == 2
    &&& beta < MATE - 1000
    &&& exists|i: int| 0 <= i < v.pieces.len() && #[trigger] non_royal_on_board(g, v, i)
}

/// Past the cheap exits of a node: no repeat, no settling entry, above
/// the horizon, within budget.
pub open spec fn past_exits(s: SState, v: PosView, depth: int, alpha0: int, beta: int, ply: int) -> bool {
    let key = v.hash;
    let s1 = SState { nodes: sat_inc(s.nodes), ..s };
    &&& !(ply > 0 && (occurrences(s.path, key) > 0 || occurrences(s.history, key) >= 2))
    &&& tt_settles(s.tt[(key & TT_MASK) as int], key, depth, alpha0, beta, ply) is None
    &&& depth > 0
    &&& !(s1.nodes >= s1.node_budget)
}

proof fn lemma_sn_null_cut(g: GameDef, s: SState, v: PosView, depth: int, alpha0: int, beta: int, ply: int,
    sub: int, snc: SState)
    requires
        past_exits(s, v, depth, alpha0, beta, ply),
        tries_null(g, v, depth, beta, ply),
        (sub, snc) == sn(g, SState { path: s.path.push(v.hash), nodes: sat_inc(s.nodes), ..s }, null_made(g, v),
            depth - 1 - (2 + depth / 4), cw(-beta), cw(-beta + 1), ply + 1),
        -sub >= beta,
    ensures
        sn(g, s, v, depth, alpha0, beta, ply) == (if score_ok(beta as i32) && -1_000_000_000 <= beta <= 1_000_000_000 {
            beta } else { -sub }, SState { path: snc.path.drop_last(), ..snc }),
{
    assert(SState { path: s.path.push(v.hash), nodes: sat_inc(s.nodes), ..s }
        == SState { path: SState { nodes: sat_inc(s.nodes), ..s }.path.push(v.hash), ..SState { nodes: sat_inc(s.nodes), ..s } });
}

proof fn lemma_sn_moves_after_null(g: GameDef, s: SState, v: PosView, depth: int, alpha0: int, beta: int, ply: int,
    sub: int, snc: SState)
    requires
        past_exits(s, v, depth, alpha0, beta, ply),
        tries_null(g, v, depth, beta, ply),
        (sub, snc) == sn(g, SState { path: s.path.push(v.hash), nodes: sat_inc(s.nodes), ..s }, null_made(g, v),
            depth - 1 - (2 + depth / 4), cw(-beta), cw(-beta + 1), ply + 1),
        -sub < beta,
    ensures
        sn(g, s, v, depth, alpha0, beta, ply) == sn_moves(g, SState { path: snc.path.drop_last(), ..snc }, v, depth,
            alpha0, beta, ply, crate::attack::v_royal_attacked(v, g, v.stm),
            tt_move_of(s.tt[(v.hash & TT_MASK) as int], v.hash)),
{
    assert(SState { path: s.path.push(v.hash), nodes: sat_inc(s.nodes), ..s }
        == SState { path: SState { nodes: sat_inc(s.nodes), ..s }.path.push(v.hash), ..SState { nodes: sat_inc(s.nodes), ..s } });
}

proof fn lemma_sn_moves_direct(g: GameDef, s: SState, v: PosView, depth: int, alpha0: int, beta: int, ply: int)
    requires
        past_exits(s, v, depth, alpha0, beta, ply),
        !tries_null(g, v, depth, beta, ply),
    ensures
        sn(g, s, v, depth, alpha0, beta, ply) == sn_moves(g, SState { nodes: sat_inc(s.nodes), ..s }, v, depth,
            alpha0, beta, ply, crate::attack::v_royal_attacked(v, g, v.stm),
            tt_move_of(s.tt[(v.hash & TT_MASK) as int], v.hash)),
{
}

/// The depth as a termination measure (only positive depths recurse).
pub open spec fn depth_measure(depth: i32) -> nat {
    if depth > 0 { depth as nat } else { 0 }
}

impl Searcher {
    /// Fail-soft alpha-beta from `pos`, `depth` plies deep, `ply` plies
    /// from the root: a repeated position scores 0; a transposition entry
    /// that settles the window answers; at the horizon the quiescence
    /// search stands pat at the static value or improves on it (and stops
    /// there at beta); out of node budget the static value answers; with
    /// no legal move the node is mated or stalemated.
    #[verifier::rlimit(50)]
    fn negamax(&mut self, g: &GameDef, pos: &mut Position, depth: i32, alpha0: i32, beta: i32, ply: i32) -> (r: i32)
        requires
            old(pos).wf(*g),
            old(self).wf(*g),
            window_ok(alpha0),
            window_ok(beta),
            0 <= ply,
            ply + depth_measure(depth) <= PLY_CAP,
            depth <= PLY_CAP,
        ensures
            final(pos)@ == old(pos)@,
            final(self).wf(*g),
            score_ok(r),
            final(self).eval == old(self).eval,
            old(self).spec_repeats(old(pos)@.hash, ply) ==> r == 0,
            !old(self).spec_repeats(old(pos)@.hash, ply) ==> (old(self).spec_tt_cut(old(pos)@.hash, depth, alpha0, beta, ply)
                matches Some(s) ==> r == s),
            (!old(self).spec_repeats(old(pos)@.hash, ply)
                && old(self).spec_tt_cut(old(pos)@.hash, depth, alpha0, beta, ply) is None && depth <= 0)
                ==> exists|x: int| #[trigger] old(self).eval.stm_value(*g, old(pos)@, x) && r >= x
                    && (x >= beta ==> r == x),
            (!old(self).spec_repeats(old(pos)@.hash, ply)
                && old(self).spec_tt_cut(old(pos)@.hash, depth, alpha0, beta, ply) is None && depth > 0
                && old(self).spec_budget_spent()) ==> old(self).eval.stm_value(*g, old(pos)@, r as int),
            ({
                let v = old(pos)@;
                let in_check = crate::attack::v_royal_attacked(v, *g, v.stm);
                (!old(self).spec_repeats(v.hash, ply)
                    && old(self).spec_tt_cut(v.hash, depth, alpha0, beta, ply) is None
                    && depth > 0 && !old(self).spec_budget_spent()
                    && (in_check || !(depth >= 3 && ply > 0 && g.sides == 2 && beta < MATE - 1000
                        && exists|i: int| 0 <= i < v.pieces.len() && #[trigger] non_royal_on_board(*g, v, i)))
                    && crate::movegen::spec_legal_moves(*g, v).len() == 0)
                ==> r == (if in_check { -MATE + ply } else {
                    match g.policy.stalemate {
                        StalematePolicy::Draw => 0,
                        StalematePolicy::Loss => -MATE + ply,
                    }
                })
            }),
            (r as int, final(self).sv()) == sn(*g, old(self).sv(), old(pos)@, depth as int, alpha0 as int, beta as int,
                ply as int),
            final(self).sv().path == old(self).sv().path,
        decreases depth_measure(depth), 1nat,
    {
        let ghost s0 = self.sv();
        let ghost v = pos@;
        let mut alpha = alpha0;
        self.nodes = self.nodes.saturating_add(1);
        let ghost s1 = self.sv();
        assert(s1 == (SState { nodes: sat_inc(s0.nodes), ..s0 }));
        let key = pos.hash;

        // Repetition: a repeat anywhere in the search path, or a position
        // already twice in the game history.
        if ply > 0 {
            if Self::count_key(&self.path, key) > 0 || Self::count_key(&self.history, key) >= 2 {
                return 0;
            }
        }

        let idx = Self::tt_index(key);
        let mut tt_move: Option<Move> = None;
        match self.tt[idx] {
            Some(e) => {
                if e.key == key {
                    tt_move = e.best;
                    if e.depth >= depth && ply > 0 && score_in_range(e.score) {
                        match e.bound {
                            Bound::Exact => { return e.score; },
                            Bound::Lower => if e.score >= beta { return e.score; },
                            Bound::Upper => if e.score <= alpha { return e.score; },
                        }
                    }
                }
            },
            None => {},
        }

        if depth <= 0 {
            return self.qsearch(g, pos, alpha, beta, if ply > 64 { 65 } else { ply });
        }
        if self.nodes >= self.node_budget {
            return self.eval.stm(g, pos);
        }
        let ghost e0 = s0.tt[(key & TT_MASK) as int];
        assert(tt_settles(e0, key, depth as int, alpha0 as int, beta as int, ply as int) is None);
        assert(tt_move == tt_move_of(e0, key));
        assert(past_exits(s0, v, depth as int, alpha0 as int, beta as int, ply as int));

        let stm = pos.stm;
        let in_check = pos.royal_attacked(g, stm);

        // Null-move pruning: skip a turn; if the reduced search still fails
        // high, the position is good enough to cut. Guarded against check
        // and bare-royal zugzwang; two-player only.
        if depth >= 3 && !in_check && ply > 0 && g.sides == 2 && beta < MATE - 1000 && self.has_material(g, pos) {
            let prior = pos.make_null(g);
            proof {
                crate::position::lemma_keyed_view(*g, pos@);
                assert(pos@ == null_made(*g, v));
            }
            self.path.push(key);
            assert(self.sv() == SState { path: s0.path.push(v.hash), nodes: sat_inc(s0.nodes), ..s0 });
            let rr = 2 + depth / 4;
            let sub = self.negamax(g, pos, depth - 1 - rr, clamp_window(-(beta as i64)),
                clamp_window(-(beta as i64) + 1), ply + 1);
            let ghost snc = self.sv();
            let s = -sub;
            self.path.pop();
            pos.unmake_null(g, prior);
            proof {
                crate::position::lemma_prev_next(old(pos).stm, g.sides);
                assert(pos@ =~= old(pos)@);
                assert(self.sv() == SState { path: snc.path.drop_last(), ..snc });
                assert(tries_null(*g, v, depth as int, beta as int, ply as int));
            }
            if s >= beta {
                proof { lemma_sn_null_cut(*g, s0, v, depth as int, alpha0 as int, beta as int, ply as int, sub as int, snc); }
                return if score_in_range(beta) { beta } else { s };
            }
            proof { lemma_sn_moves_after_null(*g, s0, v, depth as int, alpha0 as int, beta as int, ply as int, sub as int, snc); }
        } else {
            proof {
                assert(!tries_null(*g, v, depth as int, beta as int, ply as int));
                lemma_sn_moves_direct(*g, s0, v, depth as int, alpha0 as int, beta as int, ply as int);
            }
        }

        let r = self.negamax_moves(g, pos, depth, alpha, beta, ply, in_check, tt_move);
        proof {
            if crate::movegen::spec_legal_moves(*g, v).len() == 0 {
                assert(r as int == terminal_score(*g, in_check, ply as int));
            }
        }
        r
    }

    /// The move search of an alpha-beta node: the legal moves in search
    /// order, each answered by the opponent's search with the window
    /// negated (late quiet moves first reduced), killer and history credit
    /// on a quiet cutoff; the table entry stored with its bound and best
    /// move; with no legal move, the mate or stalemate score.
    fn negamax_moves(&mut self, g: &GameDef, pos: &mut Position, depth: i32, alpha0: i32, beta: i32, ply: i32,
        in_check: bool, tt_move: Option<Move>) -> (r: i32)
        requires
            old(pos).wf(*g),
            old(self).wf(*g),
            window_ok(alpha0),
            window_ok(beta),
            0 <= ply,
            1 <= depth <= PLY_CAP,
            ply + depth <= PLY_CAP,
            in_check == crate::attack::v_royal_attacked(old(pos)@, *g, old(pos)@.stm),
        ensures
            final(pos)@ == old(pos)@,
            final(self).wf(*g),
            score_ok(r),
            crate::movegen::spec_legal_moves(*g, old(pos)@).len() == 0 ==> r as int == terminal_score(*g, in_check, ply as int),
            final(self).eval == old(self).eval,
            (r as int, final(self).sv()) == sn_moves(*g, old(self).sv(), old(pos)@, depth as int, alpha0 as int,
                beta as int, ply as int, in_check, tt_move),
            final(self).sv().path == old(self).sv().path,
        decreases depth_measure(depth), 0nat,
    {
        let ghost v = pos@;
        let ghost s2 = self.sv();
        let mut alpha = alpha0;
        let key = pos.hash;
        let idx = Self::tt_index(key);
        let pseudo = pseudo_moves(g, pos);
        let moves = self.order(g, pos, &pseudo, tt_move, ply);
        let ghost no_legal = crate::movegen::spec_legal_moves(*g, pos@).len() == 0;
        proof {
            if no_legal {
                crate::movegen::lemma_no_legal_in_filter(*g, pos@, pseudo@, pseudo@.len() as int);
            }
        }

        let orig_alpha = alpha;
        let mut best_score: i32 = -MATE;
        let mut best_move: Option<Move> = None;
        let mut any_legal = false;
        let mut searched: usize = 0;

        assert(moves@ == order_of(s2, v, pseudo@, tt_move, ply as int));
        self.path.push(key);
        let ghost s4 = self.sv();
        assert(s4 == (SState { path: s2.path.push(key), ..s2 }));
        let ghost lr0 = sn_loop(*g, s4, v, moves@, 0, depth as int, alpha0 as int, beta as int, ply as int,
            in_check, -MATE as int, None, false, 0);
        let mut k: usize = 0;
        while k < moves.len()
            invariant_except_break
                lr0 == sn_loop(*g, self.sv(), v, moves@, k as int, depth as int, alpha as int, beta as int, ply as int,
                    in_check, best_score as int, best_move, any_legal, searched as int),
            invariant
                v == old(pos)@,
                s2 == old(self).sv(),
                key == v.hash,
                idx == key & TT_MASK,
                s4 == (SState { path: s2.path.push(key), ..s2 }),
                self.sv().path == s4.path,
                self.eval == old(self).eval,
                lr0 == sn_loop(*g, s4, v, moves@, 0, depth as int, alpha0 as int, beta as int, ply as int,
                    in_check, -MATE as int, None, false, 0),
                moves@ == order_of(s2, v, crate::movegen::spec_pseudo_moves(*g, v), tt_move, ply as int),
                orig_alpha == alpha0,
                in_check == crate::attack::v_royal_attacked(v, *g, v.stm),
                pos.wf(*g),
                pos@ == old(pos)@,
                self.wf(*g),
                all_anchored(*g, pos@, moves@),
                window_ok(alpha),
                window_ok(beta),
                score_ok(best_score),
                1 <= depth <= PLY_CAP,
                0 <= ply,
                ply + depth <= PLY_CAP,
                searched <= k,
                k <= moves@.len(),
                no_legal ==> !any_legal,
                no_legal ==> forall|j: int| 0 <= j < pseudo@.len() ==> !#[trigger] crate::movegen::spec_legal(*g, pos@, pseudo@[j]),
                forall|j: int| 0 <= j < moves@.len() ==> pseudo@.contains(#[trigger] moves@[j]),
            ensures
                lr0 == (best_score as int, best_move, any_legal, self.sv()),
            decreases moves@.len() - k,
        {
            let mv = moves[k];
            let ghost sk = self.sv();
            let ghost ak = alpha;
            assert(anchored(*g, pos@, moves@[k as int]));
            k += 1;
            proof {
                assert(pseudo@.contains(moves@[k - 1]));
            }
            if !is_legal(g, pos, &mv) {
                continue;
            }
            proof {
                if no_legal {
                    let j = choose|j: int| 0 <= j < pseudo@.len() && pseudo@[j] == mv;
                    assert(!crate::movegen::spec_legal(*g, pos@, pseudo@[j]));
                }
            }
            any_legal = true;
            // Quietness is a derived property of the generating script row.
            let quiet = script(mv.kind).is_quiet(pos, &mv);
            let ghost before = pos@;
            let u = pos.make(g, &mv);
            let ghost after = pos@;
            let reduce = depth >= 3 && searched >= 4 && quiet && !in_check;
            let mut s: i32;
            if reduce {
                let a1 = clamp_window(-(alpha as i64) - 1);
                let a2 = clamp_window(-(alpha as i64));
                s = -self.negamax(g, pos, depth - 2, a1, a2, ply + 1);
                if s > alpha {
                    s = -self.negamax(g, pos, depth - 1, clamp_window(-(beta as i64)), a2, ply + 1);
                }
            } else {
                s = -self.negamax(g, pos, depth - 1, clamp_window(-(beta as i64)), clamp_window(-(alpha as i64)), ply + 1);
            }
            pos.unmake(g, &u);
            proof { lemma_make_unmake(*g, before, after, u); }
            searched += 1;
            if s > best_score {
                best_score = s;
                best_move = Some(mv);
            }
            if best_score > alpha {
                alpha = best_score;
            }
            if alpha >= beta {
                // Killer and history credit for quiet cutoffs.
                if quiet && (ply as usize) < MAX_PLY {
                    let ks = self.killers[ply as usize];
                    if ks.0 != Some(mv) {
                        self.killers.set(ply as usize, (Some(mv), ks.0));
                    }
                    if mv.from != NO_SQ && (mv.from as usize) < self.ncells && (mv.to as usize) < self.ncells {
                        let i = self.hist_index(mv.from, mv.to);
                        assert(depth * depth <= 100_000 * 100_000) by (nonlinear_arith)
                            requires 1 <= depth <= 100_000;
                        let dd = (depth as u64) * (depth as u64);
                        let credit: u32 = if dd > 4294967295 { 4294967295 } else { dd as u32 };
                        let h = self.hist[i];
                        self.hist.set(i, h.saturating_add(credit));
                    }
                }
                break;
            }
        }
        let ghost s3 = self.sv();
        self.path.pop();
        assert(self.sv() == SState { path: s3.path.drop_last(), ..s3 });
        assert(self.sv().path == s2.path);

        if !any_legal {
            // Terminal: checkmate, or stalemate per the policy layer.
            return if in_check {
                -MATE + ply
            } else {
                match g.policy.stalemate {
                    StalematePolicy::Draw => 0,
                    StalematePolicy::Loss => -MATE + ply,
                }
            };
        }

        let bound = if best_score <= orig_alpha {
            Bound::Upper
        } else if best_score >= beta {
            Bound::Lower
        } else {
            Bound::Exact
        };
        self.tt.set(idx, Some(TtEntry { key, depth, score: best_score, bound, best: best_move }));
        best_score
    }
}

/// A search window bound, held within the window range (a bound past it
/// would only ever be reached by scores the evaluation never produces).
fn clamp_window(v: i64) -> (r: i32)
    ensures
        window_ok(r),
        -SCORE_CAP - 1000 <= v <= SCORE_CAP + 1000 ==> r == v,
        r == cw(v as int),
{
    if v > 1_000_001_000 { 1_000_001_000 } else if v < -1_000_001_000 { -1_000_001_000 } else { v as i32 }
}

/// A score held within the reported range.
fn clamp_score(v: i32) -> (r: i32)
    ensures
        score_ok(r),
        score_ok(v) ==> r == v,
        r == (if v > 1_000_000_000 { 1_000_000_000i32 } else if v < -1_000_000_000 { -1_000_000_000i32 } else { v }),
{
    if v > 1_000_000_000 { 1_000_000_000 } else if v < -1_000_000_000 { -1_000_000_000 } else { v }
}

/// Is a stored score within the reported range?
fn score_in_range(s: i32) -> (r: bool)
    ensures
        r == score_ok(s),
{
    -1_000_000_000 <= s && s <= 1_000_000_000
}


impl Searcher {
    /// Replace the game history the repetition rule reads.
    pub fn set_history(&mut self, h: Vec<u64>)
        ensures
            final(self).sv() == (SState { history: h@, ..old(self).sv() }),
            final(self).spec_history() == h@,
            final(self).spec_eval() == old(self).spec_eval(),
            forall|g: GameDef| old(self).wf(g) ==> final(self).wf(g),
    {
        self.history = h;
    }

    /// Take the evaluation back out of a searcher that is done.
    pub(crate) fn into_eval(self) -> (e: Eval)
        ensures
            e == self.spec_eval(),
    {
        self.eval
    }
}

/// A searcher's state as `Searcher::new` leaves it: an empty table, no
/// killers, zero history credit, no game history and an unlimited budget.
pub open spec fn fresh_state(g: GameDef, eval: Eval) -> SState {
    SState {
        eval,
        tt: Seq::new(TT_SIZE as nat, |i: int| None::<TtEntry>),
        history: Seq::empty(),
        path: Seq::empty(),
        killers: Seq::new(MAX_PLY as nat, |i: int| (None::<Move>, None::<Move>)),
        hist: Seq::new((g.ncells() * g.ncells()) as nat, |i: int| 0u32),
        ncells: g.ncells() as int,
        nodes: 0,
        node_budget: u64::MAX,
    }
}

} // verus!
