//! Self-play: the game runner with key-repetition and ply-cap termination,
//! and seeded match play between two evaluations.

use vstd::prelude::*;
use crate::attack::v_royal_attacked;
use crate::eval::{Eval, same_net};
use crate::ffa::key_count;
use crate::game::{GameDef, Side, StalematePolicy};
use crate::movegen::{legal_moves, spec_legal_moves};
use crate::moves::Move;
use crate::position::{Loc, Piece, PosView, Position, piece_ok, spec_made};
use crate::rng::{GOLDEN, Rng, spec_mix};
use crate::search::{SState, Searcher, fresh_state, spec_search};
use crate::start::{lemma_startpos_value, spec_startpos};

verus! {

#[derive(Clone, Copy, PartialEq, Eq, Debug, Structural)]
pub enum Outcome {
    Win(Side),
    Draw,
}

pub struct GameRecord {
    pub outcome: Outcome,
    pub plies: u32,
    /// Sampled material-count-per-type difference vectors (side 0's view).
    pub samples: Vec<Vec<i32>>,
}

/// What a piece adds to its type's material count: +1 for side 0 and -1
/// for side 1, on the board or in that side's hand; nothing when dead.
pub open spec fn piece_sign(p: Piece) -> int {
    match p.loc {
        Loc::Board(_) => if p.side == 0 { 1 } else { -1 },
        Loc::Hand(s) => if s == 0 { 1 } else { -1 },
        Loc::Dead => 0,
    }
}

/// Side 0's material of type `t` minus side 1's over the first `n` pieces.
pub open spec fn material_sum(ps: Seq<Piece>, t: int, n: int) -> int
    decreases n,
{
    if n <= 0 {
        0
    } else {
        material_sum(ps, t, n - 1) + if ps[n - 1].t as int == t { piece_sign(ps[n - 1]) } else { 0 }
    }
}

proof fn lemma_material_sum_bound(ps: Seq<Piece>, t: int, n: int)
    requires
        0 <= n,
    ensures
        -n <= material_sum(ps, t, n) <= n,
    decreases n,
{
    if n > 0 {
        lemma_material_sum_bound(ps, t, n - 1);
    }
}

/// The material-count-per-type difference vector of a position.
pub open spec fn spec_material_counts(g: GameDef, v: PosView) -> Seq<i32> {
    Seq::new(g.ntypes(), |t: int| material_sum(v.pieces, t, v.pieces.len() as int) as i32)
}

/// Per type: side 0's pieces on the board or in hand minus side 1's.
fn material_counts(g: &GameDef, pos: &Position) -> (v: Vec<i32>)
    requires
        pos.wf(*g),
    ensures
        v@ == spec_material_counts(*g, pos@),
{
    let n = g.types.len();
    let mut v: Vec<i32> = Vec::new();
    let mut k: usize = 0;
    while k < n
        invariant
            k <= n,
            v@.len() == k,
            forall|j: int| 0 <= j < k ==> #[trigger] v@[j] == 0,
        decreases n - k,
    {
        v.push(0);
        k += 1;
    }
    let mut i: usize = 0;
    while i < pos.pieces.len()
        invariant
            pos.wf(*g),
            n == g.ntypes(),
            v@.len() == n,
            i <= pos.pieces@.len(),
            pos.pieces@.len() < 0x7fff_ffff,
            forall|j: int| 0 <= j < n ==> #[trigger] v@[j] as int == material_sum(pos.pieces@, j, i as int),
        decreases pos.pieces@.len() - i,
    {
        let p = pos.pieces[i];
        proof {
            assert(piece_ok(pos.pieces@[i as int], *g));
            lemma_material_sum_bound(pos.pieces@, p.t as int, i as int);
        }
        let t = p.t as usize;
        let delta: i32 = match p.loc {
            Loc::Board(_) => if p.side == 0 { 1 } else { -1 },
            Loc::Hand(s) => if s == 0 { 1 } else { -1 },
            Loc::Dead => 0,
        };
        let cur = v[t];
        v.set(t, cur + delta);
        i += 1;
    }
    proof {
        assert forall|j: int| 0 <= j < n implies v@[j] == spec_material_counts(*g, pos@)[j] by {
            lemma_material_sum_bound(pos.pieces@, j, pos.pieces@.len() as int);
        }
        assert(v@ =~= spec_material_counts(*g, pos@));
    }
    v
}

/// How many times `key` occurs in `h`.
fn count_key(h: &Vec<u64>, key: u64) -> (n: usize)
    ensures
        n as int == key_count(h@, key, h@.len() as int),
{
    let mut reps: usize = 0;
    let mut j: usize = 0;
    while j < h.len()
        invariant
            j <= h@.len(),
            reps <= j,
            reps as int == key_count(h@, key, j as int),
        decreases h@.len() - j,
    {
        if h[j] == key {
            reps += 1;
        }
        j += 1;
    }
    reps
}

/// Whether the last key of a game's history has now been seen three
/// times (the repetition draw).
pub fn repeated_thrice(history: &Vec<u64>) -> (r: bool)
    ensures
        r == (history@.len() > 0 && key_count(history@, history@.last(), history@.len() as int) >= 3),
{
    if history.len() == 0 {
        return false;
    }
    let key = history[history.len() - 1];
    count_key(history, key) >= 3
}

fn copy_keys(h: &Vec<u64>) -> (r: Vec<u64>)
    ensures
        r@ == h@,
{
    let mut r: Vec<u64> = Vec::new();
    let mut k: usize = 0;
    while k < h.len()
        invariant
            k <= h@.len(),
            r@ == h@.subrange(0, k as int),
        decreases h@.len() - k,
    {
        r.push(h[k]);
        k += 1;
        assert(r@ =~= h@.subrange(0, k as int));
    }
    assert(r@ =~= h@);
    r
}

/// A self-play game in progress: the position, the generator's state, the
/// keys seen, the samples taken, the plies played and the two searchers.
pub struct Playout {
    pub pos: PosView,
    pub rng: u64,
    pub history: Seq<u64>,
    pub samples: Seq<Seq<i32>>,
    pub plies: int,
    pub s0: SState,
    pub s1: SState,
}

/// The verdict when the side to move has no legal move: in check, or with
/// stalemate scored as a loss, the next side wins; otherwise a draw.
pub open spec fn no_move_outcome(g: GameDef, v: PosView) -> Outcome {
    if v_royal_attacked(v, g, v.stm) || g.policy.stalemate == StalematePolicy::Loss {
        Outcome::Win(((v.stm as int + 1) % (g.sides as int)) as u8)
    } else {
        Outcome::Draw
    }
}

/// The move made at `st` among its legal `moves`, with the generator and
/// searchers after it: a uniform draw during the opening, else the mover's
/// search with the game's keys as its history (the first legal move when
/// it names none).
pub open spec fn chosen_move(g: GameDef, st: Playout, moves: Seq<Move>, depth: (i32, i32), budget: (u64, u64),
    opening_random: u32) -> (Move, u64, SState, SState)
{
    if st.plies < opening_random {
        let r1 = st.rng.wrapping_add(GOLDEN);
        (moves[spec_mix(r1) as int % moves.len() as int], r1, st.s0, st.s1)
    } else if st.pos.stm == 0 {
        let found = spec_search(g, SState { history: st.history, ..st.s0 }, st.pos, depth.0 as int, budget.0);
        (match found.0.best { Some(m) => m, None => moves[0] }, st.rng, found.1, st.s1)
    } else {
        let found = spec_search(g, SState { history: st.history, ..st.s1 }, st.pos, depth.1 as int, budget.1);
        (match found.0.best { Some(m) => m, None => moves[0] }, st.rng, st.s0, found.1)
    }
}

/// The rest of a self-play game from `st`: the outcome, the plies, the
/// samples and the two searchers' states at its end. No legal move ends it
/// by the policy; after a move, a key seen three times or the ply cap
/// draws; every `sample_every` plies past the opening the material vector
/// is sampled.
#[verifier::opaque]
pub open spec fn play_rest(g: GameDef, st: Playout, depth: (i32, i32), budget: (u64, u64), opening_random: u32,
    max_plies: u32, sample_every: u32) -> (Outcome, int, Seq<Seq<i32>>, SState, SState)
    decreases max_plies - st.plies,
{
    let moves = spec_legal_moves(g, st.pos);
    if moves.len() == 0 {
        (no_move_outcome(g, st.pos), st.plies, st.samples, st.s0, st.s1)
    } else {
        let c = chosen_move(g, st, moves, depth, budget, opening_random);
        let pos1 = spec_made(g, st.pos, c.0);
        let plies1 = st.plies + 1;
        let hist1 = st.history.push(pos1.hash);
        if key_count(hist1, pos1.hash, hist1.len() as int) >= 3 || plies1 >= max_plies {
            (Outcome::Draw, plies1, st.samples, c.2, c.3)
        } else {
            let samples1 = if sample_every > 0 && plies1 % (sample_every as int) == 0 && plies1 > opening_random {
                st.samples.push(spec_material_counts(g, pos1))
            } else {
                st.samples
            };
            play_rest(g, Playout { pos: pos1, rng: c.1, history: hist1, samples: samples1, plies: plies1, s0: c.2, s1: c.3 },
                depth, budget, opening_random, max_plies, sample_every)
        }
    }
}

/// A whole self-play game from the start position, the generator seeded
/// with `seed`, the searchers starting at `s0` and `s1`.
pub open spec fn spec_play_game(g: GameDef, s0: SState, s1: SState, depth: (i32, i32), budget: (u64, u64), seed: u64,
    opening_random: u32, max_plies: u32, sample_every: u32) -> (Outcome, int, Seq<Seq<i32>>, SState, SState)
{
    play_rest(g, Playout { pos: spec_startpos(g), rng: seed, history: Seq::empty(), samples: Seq::empty(), plies: 0, s0, s1 },
        depth, budget, opening_random, max_plies, sample_every)
}

/// The samples of a record as values.
pub open spec fn samples_view(s: Seq<Vec<i32>>) -> Seq<Seq<i32>> {
    s.map_values(|x: Vec<i32>| x@)
}

/// The move for the turn at `st`: see `chosen_move`.
fn pick_move(g: &GameDef, pos: &mut Position, moves: &Vec<Move>, rng: &mut Rng, s0: &mut Searcher, s1: &mut Searcher,
    history: &Vec<u64>, plies: u32, depth: (i32, i32), node_budget: (u64, u64), opening_random: u32,
    Ghost(st): Ghost<Playout>) -> (mv: Move)
    requires
        old(pos).wf(*g),
        old(s0).wf(*g),
        old(s1).wf(*g),
        moves@.len() > 0,
        st == (Playout { pos: old(pos)@, rng: old(rng).state(), history: history@, samples: st.samples,
            plies: plies as int, s0: old(s0).sv(), s1: old(s1).sv() }),
    ensures
        final(pos)@ == old(pos)@,
        final(pos).wf(*g),
        final(s0).wf(*g),
        final(s1).wf(*g),
        final(s0).spec_eval() == old(s0).spec_eval(),
        final(s1).spec_eval() == old(s1).spec_eval(),
        (mv, final(rng).state(), final(s0).sv(), final(s1).sv())
            == chosen_move(*g, st, moves@, depth, node_budget, opening_random),
{
    if plies < opening_random {
        moves[rng.below(moves.len())]
    } else {
        let found = if pos.stm == 0 {
            s0.set_history(copy_keys(history));
            s0.search(g, pos, depth.0, node_budget.0).best
        } else {
            s1.set_history(copy_keys(history));
            s1.search(g, pos, depth.1, node_budget.1).best
        };
        match found {
            Some(m) => m,
            None => moves[0],
        }
    }
}

/// One turn of a self-play game: the game's end, or the move made and
/// the game carried on.
#[verifier::rlimit(100)]
fn play_turn(g: &GameDef, pos: &mut Position, rng: &mut Rng, s0: &mut Searcher, s1: &mut Searcher,
    history: &mut Vec<u64>, samples: &mut Vec<Vec<i32>>, plies: &mut u32, depth: (i32, i32), node_budget: (u64, u64),
    opening_random: u32, max_plies: u32, sample_every: u32) -> (end: Option<Outcome>)
    requires
        g.wf(),
        old(pos).wf(*g),
        old(s0).wf(*g),
        old(s1).wf(*g),
        *old(plies) < max_plies || *old(plies) == 0,
    ensures
        final(pos).wf(*g),
        final(s0).wf(*g),
        final(s1).wf(*g),
        final(s0).spec_eval() == old(s0).spec_eval(),
        final(s1).spec_eval() == old(s1).spec_eval(),
        *final(plies) <= max_plies || *final(plies) == 1,
        end matches Some(Outcome::Win(s)) ==> s < g.sides,
        ({
            let before = play_rest(*g, Playout { pos: old(pos)@, rng: old(rng).state(), history: old(history)@,
                samples: samples_view(old(samples)@), plies: *old(plies) as int, s0: old(s0).sv(), s1: old(s1).sv() },
                depth, node_budget, opening_random, max_plies, sample_every);
            match end {
                Some(o) => before == (o, *final(plies) as int, samples_view(final(samples)@), final(s0).sv(),
                    final(s1).sv()),
                None => *final(plies) < max_plies && *final(plies) == *old(plies) + 1
                    && before == play_rest(*g, Playout { pos: final(pos)@, rng: final(rng).state(),
                    history: final(history)@, samples: samples_view(final(samples)@), plies: *final(plies) as int,
                    s0: final(s0).sv(), s1: final(s1).sv() }, depth, node_budget, opening_random, max_plies,
                    sample_every),
            }
        }),
{
    let ghost st = Playout { pos: pos@, rng: rng.state(), history: history@,
        samples: samples_view(samples@), plies: *plies as int, s0: s0.sv(), s1: s1.sv() };
    proof { reveal(play_rest); }
    let moves = legal_moves(g, pos);
    if moves.len() == 0 {
        let stm = pos.stm;
        let enemy = ((stm as u16 + 1) % (g.sides as u16)) as u8;
        let in_check = pos.royal_attacked(g, stm);
        let outcome = if in_check || g.policy.stalemate == StalematePolicy::Loss {
            Outcome::Win(enemy)
        } else {
            Outcome::Draw
        };
        assert(outcome == no_move_outcome(*g, st.pos));
        return Some(outcome);
    }
    let ghost c = chosen_move(*g, st, moves@, depth, node_budget, opening_random);
    let mv = pick_move(g, pos, &moves, rng, s0, s1, history, *plies, depth, node_budget, opening_random, Ghost(st));
    pos.make(g, &mv);
    *plies += 1;
    let key = pos.hash;
    history.push(key);
    let reps = count_key(history, key);
    if reps >= 3 {
        return Some(Outcome::Draw);
    }
    if *plies >= max_plies {
        return Some(Outcome::Draw);
    }
    if sample_every > 0 && *plies % sample_every == 0 && *plies > opening_random {
        let m = material_counts(g, pos);
        proof {
            assert(samples_view(samples@.push(m)) =~= samples_view(samples@).push(m@));
        }
        samples.push(m);
    }
    None
}

/// Play one seeded self-play game: `opening_random` random plies for
/// diversity, then both sides on the given searchers. Termination: mate or
/// stalemate via the policy layer, threefold repetition of the key, or
/// the ply cap.
pub fn play_game(
    g: &GameDef,
    s0: &mut Searcher,
    s1: &mut Searcher,
    depth: (i32, i32),
    node_budget: (u64, u64),
    seed: u64,
    opening_random: u32,
    max_plies: u32,
    sample_every: u32,
) -> (rec: GameRecord)
    requires
        g.wf(),
        g.start_ok(),
        old(s0).wf(*g),
        old(s1).wf(*g),
    ensures
        final(s0).wf(*g),
        final(s1).wf(*g),
        final(s0).spec_eval() == old(s0).spec_eval(),
        final(s1).spec_eval() == old(s1).spec_eval(),
        rec.plies <= max_plies || rec.plies == 1,
        rec.outcome matches Outcome::Win(s) ==> s < g.sides,
        (rec.outcome, rec.plies as int, samples_view(rec.samples@), final(s0).sv(), final(s1).sv())
            == spec_play_game(*g, old(s0).sv(), old(s1).sv(), depth, node_budget, seed, opening_random, max_plies,
            sample_every),
{
    let mut rng = Rng::new(seed);
    let mut pos = Position::startpos(g);
    proof { lemma_startpos_value(*g, pos); }
    let mut history: Vec<u64> = Vec::new();
    let mut samples: Vec<Vec<i32>> = Vec::new();
    let mut plies: u32 = 0;
    let ghost goal = spec_play_game(*g, old(s0).sv(), old(s1).sv(), depth, node_budget, seed, opening_random, max_plies,
        sample_every);
    proof {
        assert(samples_view(samples@) =~= Seq::<Seq<i32>>::empty());
    }
    loop
        invariant
            g.wf(),
            pos.wf(*g),
            s0.wf(*g),
            s1.wf(*g),
            s0.spec_eval() == old(s0).spec_eval(),
            s1.spec_eval() == old(s1).spec_eval(),
            plies < max_plies || plies == 0,
            goal == spec_play_game(*g, old(s0).sv(), old(s1).sv(), depth, node_budget, seed, opening_random,
                max_plies, sample_every),
            goal == play_rest(*g, Playout { pos: pos@, rng: rng.state(), history: history@,
                samples: samples_view(samples@), plies: plies as int, s0: s0.sv(), s1: s1.sv() },
                depth, node_budget, opening_random, max_plies, sample_every),
        decreases max_plies - plies,
    {
        let end = play_turn(g, &mut pos, &mut rng, s0, s1, &mut history, &mut samples, &mut plies, depth, node_budget,
            opening_random, max_plies, sample_every);
        match end {
            Some(outcome) => {
                return GameRecord { outcome, plies, samples };
            },
            None => {},
        }
    }
}

/// Two evaluations that agree on everything a search reads.
pub open spec fn same_eval(a: Eval, b: Eval) -> bool {
    &&& a.material@ == b.material@
    &&& a.mobility_cp == b.mobility_cp
    &&& same_net(a.net, b.net)
}

/// Win/loss/draw counts for `e0` over the first `i` games of a match:
/// game `j` is seeded `seed + j` with fresh searchers, `e0` on side 0 in
/// even games, six random opening plies and a 400-ply cap.
pub open spec fn match_tally(g: GameDef, e0: Eval, e1: Eval, depth: i32, node_budget: u64, seed: u64, i: int)
    -> (int, int, int)
    decreases i,
{
    if i <= 0 {
        (0, 0, 0)
    } else {
        let prev = match_tally(g, e0, e1, depth, node_budget, seed, i - 1);
        let j = i - 1;
        let even = j % 2 == 0;
        let res = spec_play_game(g, fresh_state(g, if even { e0 } else { e1 }), fresh_state(g, if even { e1 } else { e0 }),
            (depth, depth), (node_budget, node_budget), (seed + j) as u64, 6, 400, 0);
        match res.0 {
            Outcome::Win(s) => if (s == 0) == even { (prev.0 + 1, prev.1, prev.2) } else { (prev.0, prev.1 + 1, prev.2) },
            Outcome::Draw => (prev.0, prev.1, prev.2 + 1),
        }
    }
}

proof fn lemma_match_tally_total(g: GameDef, e0: Eval, e1: Eval, depth: i32, node_budget: u64, seed: u64, i: int)
    requires
        0 <= i,
    ensures
        ({
            let t = match_tally(g, e0, e1, depth, node_budget, seed, i);
            t.0 >= 0 && t.1 >= 0 && t.2 >= 0 && t.0 + t.1 + t.2 == i
        }),
    decreases i,
{
    if i > 0 {
        lemma_match_tally_total(g, e0, e1, depth, node_budget, seed, i - 1);
    }
}

/// Win/loss/draw counts for `eval0` over `n` seeded games, alternating
/// colors (even games: `eval0` plays side 0), seeds `seed + i`.
pub fn play_match(g: &GameDef, eval0: &Eval, eval1: &Eval, depth: i32, node_budget: u64, n: u32, seed: u64) -> (r: (u32, u32, u32))
    requires
        g.wf(),
        g.start_ok(),
        eval0.ok_for(*g),
        eval1.ok_for(*g),
        seed + n <= u64::MAX,
    ensures
        r.0 + r.1 + r.2 == n,
        exists|e0: Eval, e1: Eval| same_eval(e0, *eval0) && same_eval(e1, *eval1)
            && (r.0 as int, r.1 as int, r.2 as int) == #[trigger] match_tally(*g, e0, e1, depth, node_budget, seed, n as int),
{
    let mut e0 = eval0.duplicate();
    let mut e1 = eval1.duplicate();
    proof {
        assert(e0.ok_for(*g));
        assert(e1.ok_for(*g));
    }
    let ghost ge0 = e0;
    let ghost ge1 = e1;
    let mut w: u32 = 0;
    let mut l: u32 = 0;
    let mut d: u32 = 0;
    let mut i: u32 = 0;
    while i < n
        invariant
            g.wf(),
            g.start_ok(),
            ge0.ok_for(*g),
            ge1.ok_for(*g),
            e0 == ge0,
            e1 == ge1,
            seed + n <= u64::MAX,
            i <= n,
            w + l + d == i,
            (w as int, l as int, d as int) == match_tally(*g, ge0, ge1, depth, node_budget, seed, i as int),
        decreases n - i,
    {
        let even = i % 2 == 0;
        let (ea, eb) = if even { (e0, e1) } else { (e1, e0) };
        let mut sa = Searcher::new(g, ea);
        let mut sb = Searcher::new(g, eb);
        let rec = play_game(g, &mut sa, &mut sb, (depth, depth), (node_budget, node_budget), seed + i as u64, 6, 400, 0);
        let ra = sa.into_eval();
        let rb = sb.into_eval();
        if even {
            e0 = ra;
            e1 = rb;
        } else {
            e0 = rb;
            e1 = ra;
        }
        proof { lemma_match_tally_total(*g, ge0, ge1, depth, node_budget, seed, i as int); }
        match rec.outcome {
            Outcome::Win(s) => {
                if (s == 0) == even {
                    w += 1;
                } else {
                    l += 1;
                }
            },
            Outcome::Draw => d += 1,
        }
        i += 1;
    }
    (w, l, d)
}

} // verus!
