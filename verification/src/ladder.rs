//! The belief-gated search ladder: one shared evaluator under several
//! dispatch modes, cheapest-sound-first. Rung 0 is perfect-information
//! alpha-beta; rung 1 samples worlds consistent with the belief, solves
//! each with the rung-0 engine and votes at the root. The sounder rungs
//! and the entropy gate price with floating point and stand outside.

use vstd::prelude::*;
use crate::belief::{Belief, cands_of, determinize, hidden_indices, spec_attempts, spec_world, types_at};
use crate::game::GameDef;
use crate::movegen::{legal_moves, spec_legal_moves};
use crate::moves::Move;
use crate::position::{PosView, Position, spec_made};
use crate::rng::Rng;
use crate::search::{SState, Searcher, spec_search};

verus! {

#[derive(Clone, Copy, PartialEq, Eq, PartialOrd, Ord, Debug, Structural)]
pub enum Rung {
    R0PerfectInfo,
    R1Determinize,
    R2Sound,
    R3Policy,
}

/// Whether `ms` lists `mv`.
fn lists_move(ms: &Vec<Move>, mv: &Move) -> (r: bool)
    ensures
        r == ms@.contains(*mv),
{
    let mut k: usize = 0;
    while k < ms.len()
        invariant
            k <= ms@.len(),
            forall|j: int| 0 <= j < k ==> ms@[j] != *mv,
        decreases ms@.len() - k,
    {
        if ms[k] == *mv {
            return true;
        }
        k += 1;
    }
    false
}

/// The generator's state after sampling one world from `belief`.
pub open spec fn world_rng(belief: Belief, truth: PosView, st: u64, tries: nat) -> u64 {
    let cands = cands_of(belief);
    let h = hidden_indices(cands, truth.pieces.len());
    if h.len() == 0 { st } else { spec_attempts(cands, h, types_at(truth.pieces, h), st, tries).1 }
}

/// One world's votes over the first `i` root moves: each root move the
/// world allows (`wm`) is made and searched one ply shallower on an eighth
/// of the budget; its negated score is added to its total and its count
/// goes up.
pub open spec fn world_tally(g: GameDef, w: PosView, root: Seq<Move>, wm: Seq<Move>, s: SState, totals: Seq<int>,
    counts: Seq<int>, depth: i32, budget: u64, i: int) -> (Seq<int>, Seq<int>, SState)
    decreases i,
{
    if i <= 0 {
        (totals, counts, s)
    } else {
        let prev = world_tally(g, w, root, wm, s, totals, counts, depth, budget, i - 1);
        let mv = root[i - 1];
        if wm.contains(mv) {
            let found = spec_search(g, prev.2, spec_made(g, w, mv), depth - 1, budget / 8);
            (prev.0.update(i - 1, prev.0[i - 1] - found.0.score), prev.1.update(i - 1, prev.1[i - 1] + 1), found.1)
        } else {
            prev
        }
    }
}

/// The totals, counts, searcher and generator after `d` sampled worlds.
pub open spec fn worlds_tally(g: GameDef, truth: PosView, belief: Belief, root: Seq<Move>, st: u64, s: SState,
    depth: i32, budget: u64, d: int) -> (Seq<int>, Seq<int>, SState, u64)
    decreases d,
{
    if d <= 0 {
        (Seq::new(root.len(), |j: int| 0int), Seq::new(root.len(), |j: int| 0int), s, st)
    } else {
        let prev = worlds_tally(g, truth, belief, root, st, s, depth, budget, d - 1);
        let w = spec_world(g, cands_of(belief), truth, prev.3, 32);
        let t = world_tally(g, w, root, spec_legal_moves(g, w), prev.2, prev.0, prev.1, depth, budget, root.len() as int);
        (t.0, t.1, t.2, world_rng(belief, truth, prev.3, 32))
    }
}

/// Integer division rounding toward zero.
pub open spec fn trunc_div(a: int, b: int) -> int {
    if a >= 0 { a / b } else { -((-a) / b) }
}

/// Over the first `i` moves: the move with the best average so far (the
/// last of equal averages), that average, and whether any move was tallied.
pub open spec fn best_average(totals: Seq<int>, counts: Seq<int>, i: int) -> (int, int, bool)
    decreases i,
{
    if i <= 0 {
        (0, 0, false)
    } else {
        let p = best_average(totals, counts, i - 1);
        let j = i - 1;
        if counts[j] > 0 {
            let avg = trunc_div(totals[j], counts[j]);
            if !p.2 || avg >= p.1 { (j, avg, true) } else { p }
        } else {
            p
        }
    }
}

/// What `pimc` returns, and the searcher's and generator's states after it.
pub open spec fn spec_pimc(g: GameDef, truth: PosView, belief: Belief, s: SState, st: u64, depth: i32, budget: u64,
    determinizations: int) -> (Option<Move>, SState, u64)
{
    let root = spec_legal_moves(g, truth);
    if root.len() == 0 {
        (None, s, st)
    } else {
        let t = worlds_tally(g, truth, belief, root, st, s, depth, budget, determinizations);
        (Some(root[best_average(t.0, t.1, root.len() as int).0]), t.2, t.3)
    }
}

/// Add one sampled world's votes to the tallies (see `world_tally`).
fn tally_world(g: &GameDef, world: &mut Position, root_moves: &Vec<Move>, searcher: &mut Searcher,
    totals: &mut Vec<i64>, counts: &mut Vec<i64>, depth: i32, node_budget: u64, d: usize, determinizations: usize,
    Ghost(t0): Ghost<Seq<int>>, Ghost(c0): Ghost<Seq<int>>)
    requires
        old(world).wf(*g),
        old(searcher).wf(*g),
        d < determinizations <= 1_000_000_000,
        depth > i32::MIN,
        old(totals)@.len() == root_moves@.len(),
        old(counts)@.len() == root_moves@.len(),
        t0.len() == root_moves@.len() && c0.len() == root_moves@.len(),
        forall|j: int| 0 <= j < root_moves@.len() ==> #[trigger] old(totals)@[j] as int == t0[j]
            && old(counts)@[j] as int == c0[j],
        forall|j: int| 0 <= j < root_moves@.len() ==> -1_000_000_000 * d <= #[trigger] old(totals)@[j] <= 1_000_000_000 * d,
        forall|j: int| 0 <= j < root_moves@.len() ==> 0 <= #[trigger] old(counts)@[j] <= d,
    ensures
        final(world)@ == old(world)@,
        final(searcher).wf(*g),
        final(totals)@.len() == root_moves@.len(),
        final(counts)@.len() == root_moves@.len(),
        ({
            let t = world_tally(*g, old(world)@, root_moves@, spec_legal_moves(*g, old(world)@), old(searcher).sv(),
                t0, c0, depth, node_budget, root_moves@.len() as int);
            &&& t.0.len() == root_moves@.len() && t.1.len() == root_moves@.len()
            &&& forall|j: int| 0 <= j < root_moves@.len() ==> #[trigger] final(totals)@[j] as int == t.0[j]
                && final(counts)@[j] as int == t.1[j]
            &&& t.2 == final(searcher).sv()
        }),
        forall|j: int| 0 <= j < root_moves@.len() ==> -1_000_000_000 * (d + 1) <= #[trigger] final(totals)@[j]
            <= 1_000_000_000 * (d + 1),
        forall|j: int| 0 <= j < root_moves@.len() ==> 0 <= #[trigger] final(counts)@[j] <= d + 1,
{
    let ghost w = world@;
    let ghost s0 = searcher.sv();
    let n = root_moves.len();
    let world_moves = legal_moves(g, world);
    let mut i: usize = 0;
    while i < n
        invariant
            world.wf(*g),
            world@ == w,
            world_moves@ == spec_legal_moves(*g, w),
            searcher.wf(*g),
            d < determinizations,
            determinizations <= 1_000_000_000,
            depth > i32::MIN,
            i <= n,
            n == root_moves@.len(),
            totals@.len() == n,
            counts@.len() == n,
            t0.len() == n && c0.len() == n,
            ({
                let t = world_tally(*g, w, root_moves@, world_moves@, s0, t0, c0, depth, node_budget, i as int);
                &&& t.0.len() == n && t.1.len() == n
                &&& forall|j: int| 0 <= j < n ==> #[trigger] totals@[j] as int == t.0[j] && counts@[j] as int == t.1[j]
                &&& t.2 == searcher.sv()
            }),
            forall|j: int| 0 <= j < n ==> -1_000_000_000 * (d + 1) <= #[trigger] totals@[j] <= 1_000_000_000 * (d + 1),
            forall|j: int| 0 <= j < n ==> 0 <= #[trigger] counts@[j] <= d + 1,
            forall|j: int| i <= j < n ==> -1_000_000_000 * d <= #[trigger] totals@[j] <= 1_000_000_000 * d,
            forall|j: int| i <= j < n ==> 0 <= #[trigger] counts@[j] <= d,
        decreases n - i,
    {
        let ghost tw = world_tally(*g, w, root_moves@, world_moves@, s0, t0, c0, depth, node_budget, i as int);
        let mv = root_moves[i];
        if lists_move(&world_moves, &mv) {
            let ghost before = world@;
            let u = world.make(g, &mv);
            let ghost after = world@;
            assert(after == spec_made(*g, w, mv));
            let r = searcher.search(g, world, depth - 1, node_budget / 8);
            world.unmake(g, &u);
            proof { crate::position::lemma_make_unmake(*g, before, after, u); }
            let t = totals[i];
            let c = counts[i];
            assert(-1_000_000_000 * (d + 1) <= t - (r.score as i64) <= 1_000_000_000 * (d + 1)) by (nonlinear_arith)
                requires -1_000_000_000 * d <= t <= 1_000_000_000 * d, -1_000_000_000 <= r.score <= 1_000_000_000;
            totals.set(i, t - r.score as i64);
            counts.set(i, c + 1);
            proof {
                let t2 = world_tally(*g, w, root_moves@, world_moves@, s0, t0, c0, depth, node_budget, i + 1);
                assert(t2 == (tw.0.update(i as int, tw.0[i as int] - r.score), tw.1.update(i as int, tw.1[i as int] + 1),
                    searcher.sv()));
                assert forall|j: int| 0 <= j < n implies #[trigger] totals@[j] as int == t2.0[j]
                    && counts@[j] as int == t2.1[j] by {
                    if j != i {
                        assert(totals@[j] as int == tw.0[j]);
                    }
                }
            }
        } else {
            proof {
                let t2 = world_tally(*g, w, root_moves@, world_moves@, s0, t0, c0, depth, node_budget, i + 1);
                assert(t2 == tw);
            }
        }
        i += 1;
    }
}

/// Rung 1, determinization: `determinizations` worlds are sampled from the
/// belief; in each, every root move the world also allows is made and
/// searched one ply shallower, and its negated score is tallied. The root
/// move with the best average over the worlds that allowed it wins (the
/// last of equal averages); with no tally the first root move. `None` when
/// the truth has no legal move. Only the belief's worlds reach the scores;
/// the candidates are the truth's legal moves.
pub fn pimc(
    g: &GameDef,
    truth: &mut Position,
    belief: &Belief,
    searcher: &mut Searcher,
    depth: i32,
    node_budget: u64,
    determinizations: usize,
    rng: &mut Rng,
) -> (r: Option<Move>)
    requires
        old(truth).wf(*g),
        old(searcher).wf(*g),
        belief.candidates@.len() >= old(truth).pieces@.len(),
        determinizations <= 1_000_000_000,
        depth > i32::MIN,
    ensures
        final(truth)@ == old(truth)@,
        final(searcher).wf(*g),
        (r is None) == (spec_legal_moves(*g, old(truth)@).len() == 0),
        r matches Some(m) ==> spec_legal_moves(*g, old(truth)@).contains(m),
        (r, final(searcher).sv(), final(rng).state()) == spec_pimc(*g, old(truth)@, *belief, old(searcher).sv(),
            old(rng).state(), depth, node_budget, determinizations as int),
{
    let root_moves = legal_moves(g, truth);
    let n = root_moves.len();
    if n == 0 {
        return None;
    }
    let ghost root = root_moves@;
    let ghost v = truth@;
    let mut totals: Vec<i64> = Vec::new();
    let mut counts: Vec<i64> = Vec::new();
    let mut k: usize = 0;
    while k < n
        invariant
            k <= n,
            totals@.len() == k,
            counts@.len() == k,
            forall|j: int| 0 <= j < k ==> totals@[j] == 0 && counts@[j] == 0,
        decreases n - k,
    {
        totals.push(0);
        counts.push(0);
        k += 1;
    }
    let ghost goal = worlds_tally(*g, v, *belief, root, old(rng).state(), old(searcher).sv(), depth, node_budget,
        determinizations as int);
    let mut d: usize = 0;
    while d < determinizations
        invariant
            truth.wf(*g),
            truth@ == old(truth)@,
            v == old(truth)@,
            root == root_moves@,
            root == spec_legal_moves(*g, v),
            goal == worlds_tally(*g, v, *belief, root, old(rng).state(), old(searcher).sv(), depth, node_budget,
                determinizations as int),
            searcher.wf(*g),
            belief.candidates@.len() >= truth.pieces@.len(),
            determinizations <= 1_000_000_000,
            depth > i32::MIN,
            d <= determinizations,
            n == root_moves@.len(),
            totals@.len() == n,
            counts@.len() == n,
            ({
                let t = worlds_tally(*g, v, *belief, root, old(rng).state(), old(searcher).sv(), depth, node_budget,
                    d as int);
                &&& t.0.len() == n && t.1.len() == n
                &&& forall|j: int| 0 <= j < n ==> #[trigger] totals@[j] as int == t.0[j] && counts@[j] as int == t.1[j]
                &&& t.2 == searcher.sv()
                &&& t.3 == rng.state()
            }),
            forall|j: int| 0 <= j < n ==> -1_000_000_000 * d <= #[trigger] totals@[j] <= 1_000_000_000 * d,
            forall|j: int| 0 <= j < n ==> 0 <= #[trigger] counts@[j] <= d,
        decreases determinizations - d,
    {
        let ghost prev = worlds_tally(*g, v, *belief, root, old(rng).state(), old(searcher).sv(), depth, node_budget,
            d as int);
        let mut world = determinize(g, truth, belief, rng, 32);
        let ghost w = world@;
        assert(rng.state() == world_rng(*belief, v, prev.3, 32));
        tally_world(g, &mut world, &root_moves, searcher, &mut totals, &mut counts, depth, node_budget, d,
            determinizations, Ghost(prev.0), Ghost(prev.1));
        d += 1;
    }
    let ghost fin = worlds_tally(*g, v, *belief, root, old(rng).state(), old(searcher).sv(), depth, node_budget,
        determinizations as int);
    let mut best: usize = 0;
    let mut best_avg: i64 = 0;
    let mut found = false;
    let mut i: usize = 0;
    while i < n
        invariant
            i <= n,
            n == root_moves@.len(),
            totals@.len() == n,
            counts@.len() == n,
            best < n,
            fin.0.len() == n && fin.1.len() == n,
            forall|j: int| 0 <= j < n ==> #[trigger] totals@[j] as int == fin.0[j] && counts@[j] as int == fin.1[j],
            forall|j: int| 0 <= j < n ==> 0 <= #[trigger] counts@[j],
            (best as int, best_avg as int, found) == best_average(fin.0, fin.1, i as int),
        decreases n - i,
    {
        assert(totals@[i as int] as int == fin.0[i as int] && counts@[i as int] as int == fin.1[i as int]);
        if counts[i] > 0 {
            let avg = totals[i] / counts[i];
            assert(avg as int == trunc_div(fin.0[i as int], fin.1[i as int]));
            if !found || avg >= best_avg {
                best = i;
                best_avg = avg;
                found = true;
            }
        }
        i += 1;
    }
    assert(root_moves@.contains(root_moves@[best as int]));
    Some(root_moves[best])
}

} // verus!
