//! Perft: leaf counts for differential move-generator validation.

use vstd::prelude::*;
use crate::game::GameDef;
use crate::movegen::{is_legal, legal_moves, pseudo_moves, anchored, legal_filter, spec_legal_moves, spec_pseudo_moves};
use crate::position::{PosView, spec_made};
use crate::moves::{move_str, spec_move_str, Move, MoveKind, NO_SQ};
use crate::position::{Position, lemma_make_unmake};

verus! {

/// A count held to `u64`.
pub open spec fn sat_u64(x: int) -> int {
    if x > u64::MAX { u64::MAX as int } else { x }
}

/// The number of legal move sequences of length `d` from `v` (a position
/// whose key is the ground truth); sums past `u64` saturate.
pub open spec fn spec_perft(g: GameDef, v: PosView, d: nat) -> int
    decreases d, 0nat,
{
    if d == 0 {
        1
    } else if d == 1 {
        spec_legal_moves(g, v).len() as int
    } else {
        perft_sum(g, v, spec_legal_moves(g, v), (d - 1) as nat, spec_legal_moves(g, v).len())
    }
}

/// The saturating sum, over the first `n` moves of `ms`, of the counts
/// `d` deep from the position each leaves.
pub open spec fn perft_sum(g: GameDef, v: PosView, ms: Seq<Move>, d: nat, n: nat) -> int
    decreases d, n + 1,
{
    if n == 0 {
        0
    } else {
        sat_u64(perft_sum(g, v, ms, d, (n - 1) as nat) + spec_perft(g, spec_made(g, v, ms[n - 1]), d))
    }
}

/// The number of legal move sequences of length `depth` from `pos`. The
/// position is left as it was.
pub fn perft(g: &GameDef, pos: &mut Position, depth: u32) -> (n: u64)
    requires
        old(pos).wf(*g),
    ensures
        final(pos)@ == old(pos)@,
        depth == 0 ==> n == 1,
        n == spec_perft(*g, old(pos)@, depth as nat),
    decreases depth,
{
    if depth == 0 {
        return 1;
    }
    if depth == 1 {
        let moves = pseudo_moves(g, pos);
        let mut count: u64 = 0;
        let mut k: usize = 0;
        while k < moves.len()
            invariant
                pos.wf(*g),
                pos@ == old(pos)@,
                count <= k,
                k <= moves@.len(),
                moves@ == spec_pseudo_moves(*g, pos@),
                count == legal_filter(*g, pos@, moves@, k as int).len(),
            decreases moves@.len() - k,
        {
            if is_legal(g, pos, &moves[k]) {
                count += 1;
            }
            k += 1;
        }
        return count;
    }
    let moves = legal_moves(g, pos);
    let mut nodes: u64 = 0;
    let mut k: usize = 0;
    while k < moves.len()
        invariant
            pos.wf(*g),
            pos@ == old(pos)@,
            depth >= 2,
            k <= moves@.len(),
            moves@ == spec_legal_moves(*g, pos@),
            nodes == perft_sum(*g, pos@, moves@, (depth - 1) as nat, k as nat),
        decreases moves@.len() - k,
    {
        let ghost before = pos@;
        let u = pos.make(g, &moves[k]);
        let ghost after = pos@;
        let sub = perft(g, pos, depth - 1);
        nodes = nodes.saturating_add(sub);
        pos.unmake(g, &u);
        proof { lemma_make_unmake(*g, before, after, u); }
        k += 1;
    }
    nodes
}

/// The rows of a divide table as plain values: notation and count.
pub open spec fn row_views(s: Seq<(String, u64)>) -> Seq<(Seq<char>, int)> {
    Seq::new(s.len(), |j: int| (s[j].0@, s[j].1 as int))
}

/// The notation a divide row shows for `mv` (empty when the move names an
/// aux cell off the board).
pub open spec fn divide_name(g: GameDef, mv: Move) -> Seq<char> {
    let needs_aux = mv.kind == MoveKind::Locust || mv.kind == MoveKind::Compound
        || (mv.kind == MoveKind::Ability && mv.aux != NO_SQ);
    if !needs_aux || (mv.aux as int) < g.ncells() { spec_move_str(g, mv) } else { Seq::empty() }
}

/// The divide rows for the first `n` moves of `ms`, in order: each move's
/// notation with 1 at depth 1 or less, else the count one ply shallower
/// from the position it leaves.
pub open spec fn divide_rows(g: GameDef, v: PosView, ms: Seq<Move>, depth: u32, n: int) -> Seq<(Seq<char>, int)>
    decreases n,
{
    if n <= 0 {
        Seq::empty()
    } else {
        divide_rows(g, v, ms, depth, n - 1).push((divide_name(g, ms[n - 1]),
            if depth <= 1 { 1 } else { spec_perft(g, spec_made(g, v, ms[n - 1]), (depth - 1) as nat) }))
    }
}

/// Text order: character by character by code point, a prefix first
/// (the order of the UTF-8 bytes, which `String` compares).
pub open spec fn text_le(a: Seq<char>, b: Seq<char>) -> bool
    decreases a.len(),
{
    if a.len() == 0 {
        true
    } else if b.len() == 0 {
        false
    } else if a[0] != b[0] {
        (a[0] as int) < (b[0] as int)
    } else {
        text_le(a.drop_first(), b.drop_first())
    }
}

/// Row order: by notation, then by count.
pub open spec fn row_le(a: (Seq<char>, int), b: (Seq<char>, int)) -> bool {
    if a.0 == b.0 { a.1 <= b.1 } else { text_le(a.0, b.0) }
}

/// Rows in ascending order.
pub open spec fn rows_sorted(rows: Seq<(Seq<char>, int)>) -> bool {
    forall|i: int, j: int| 0 <= i < j < rows.len() ==> row_le(#[trigger] rows[i], #[trigger] rows[j])
}

/// `<[T]>::sort` on the divide table: the same entries, in ascending order
/// of the tuple (move string, then count).
#[verifier::external_body]
fn sort_entries(v: &mut Vec<(String, u64)>)
    ensures
        final(v)@.to_multiset() == old(v)@.to_multiset(),
        rows_sorted(row_views(final(v)@)),
{
    v.sort();
}

/// Per-root-move breakdown, for diffing against a reference engine: each
/// legal move's notation with its perft count one ply deeper (1 at depth 1
/// or less), sorted.
pub fn divide(g: &GameDef, pos: &mut Position, depth: u32) -> (out: Vec<(String, u64)>)
    requires
        old(pos).wf(*g),
    ensures
        final(pos)@ == old(pos)@,
        depth <= 1 ==> forall|j: int| 0 <= j < out@.len() ==> (#[trigger] out@[j]).1 == 1,
        exists|rows: Seq<(String, u64)>| #![auto]
            row_views(rows) == divide_rows(*g, old(pos)@, spec_legal_moves(*g, old(pos)@), depth,
                spec_legal_moves(*g, old(pos)@).len() as int)
            && out@.to_multiset() == rows.to_multiset(),
        rows_sorted(row_views(out@)),
{
    let moves = legal_moves(g, pos);
    let mut out: Vec<(String, u64)> = Vec::new();
    let mut k: usize = 0;
    while k < moves.len()
        invariant
            pos.wf(*g),
            pos@ == old(pos)@,
            crate::movegen::all_anchored(*g, old(pos)@, moves@),
            depth <= 1 ==> forall|j: int| 0 <= j < out@.len() ==> (#[trigger] out@[j]).1 == 1,
            k <= moves@.len(),
            out@.len() == k,
            moves@ == spec_legal_moves(*g, pos@),
            row_views(out@) == divide_rows(*g, pos@, moves@, depth, k as int),
        decreases moves@.len() - k,
    {
        let mv = moves[k];
        assert(anchored(*g, old(pos)@, moves@[k as int]));
        let ghost before = pos@;
        let u = pos.make(g, &mv);
        let ghost after = pos@;
        let n = if depth <= 1 { 1 } else { perft(g, pos, depth - 1) };
        pos.unmake(g, &u);
        proof { lemma_make_unmake(*g, before, after, u); }
        let needs_aux = mv.kind == MoveKind::Locust || mv.kind == MoveKind::Compound
            || (mv.kind == MoveKind::Ability && mv.aux != NO_SQ);
        let name = if !needs_aux || (mv.aux as usize) < g.board.ncells() {
            move_str(g, &mv)
        } else {
            String::new()
        };
        let ghost prev = out@;
        out.push((name, n));
        k += 1;
        proof {
            assert(row_views(out@) =~= row_views(prev).push((divide_name(*g, mv), n as int)));
        }
    }
    let ghost unsorted = out@;
    sort_entries(&mut out);
    proof {
        assert(row_views(unsorted) == divide_rows(*g, old(pos)@, spec_legal_moves(*g, old(pos)@), depth,
            spec_legal_moves(*g, old(pos)@).len() as int));
        broadcast use vstd::seq_lib::group_to_multiset_ensures;
        if depth <= 1 {
            assert forall|j: int| 0 <= j < out@.len() implies (#[trigger] out@[j]).1 == 1 by {
                assert(out@.contains(out@[j]));
                assert(out@.to_multiset().count(out@[j]) > 0);
                assert(unsorted.contains(out@[j]));
            }
        }
    }
    out
}

/// The saturating sum of the counts of `rows`.
pub open spec fn rows_total(rows: Seq<(Seq<char>, int)>) -> int
    decreases rows.len(),
{
    if rows.len() == 0 {
        0
    } else {
        sat_u64(rows_total(rows.drop_last()) + rows.last().1)
    }
}

proof fn lemma_rows_total_deep(g: GameDef, v: PosView, ms: Seq<Move>, depth: u32, n: int)
    requires
        depth >= 2,
        0 <= n,
    ensures
        rows_total(divide_rows(g, v, ms, depth, n)) == perft_sum(g, v, ms, (depth - 1) as nat, n as nat),
    decreases n,
{
    if n > 0 {
        lemma_rows_total_deep(g, v, ms, depth, n - 1);
        assert(divide_rows(g, v, ms, depth, n).drop_last() =~= divide_rows(g, v, ms, depth, n - 1));
    }
}

proof fn lemma_rows_total_shallow(g: GameDef, v: PosView, ms: Seq<Move>, depth: u32, n: int)
    requires
        depth <= 1,
        0 <= n <= u64::MAX,
    ensures
        rows_total(divide_rows(g, v, ms, depth, n)) == n,
    decreases n,
{
    if n > 0 {
        lemma_rows_total_shallow(g, v, ms, depth, n - 1);
        assert(divide_rows(g, v, ms, depth, n).drop_last() =~= divide_rows(g, v, ms, depth, n - 1));
    }
}

/// The divide counts add up to perft: summed (saturating at `u64`), the
/// rows for the legal moves give perft at `max(depth, 1)`.
pub proof fn law_divide_sums_to_perft(g: GameDef, v: PosView, depth: u32)
    requires
        spec_legal_moves(g, v).len() <= u64::MAX,
    ensures
        rows_total(divide_rows(g, v, spec_legal_moves(g, v), depth, spec_legal_moves(g, v).len() as int))
            == spec_perft(g, v, if depth <= 1 { 1nat } else { depth as nat }),
{
    let ms = spec_legal_moves(g, v);
    if depth <= 1 {
        lemma_rows_total_shallow(g, v, ms, depth, ms.len() as int);
    } else {
        lemma_rows_total_deep(g, v, ms, depth, ms.len() as int);
    }
}

} // verus!
