//! Movement geometry: `(m,n)` step deltas and direction masks.

use vstd::prelude::*;

verus! {

/// A relative board step. `dy > 0` is "forward" for side 0; the compile step
/// flips `dy` for the opposing side.
#[derive(Clone, Copy, PartialEq, Eq, Debug, Structural)]
pub struct Delta {
    pub dx: i8,
    pub dy: i8,
}

impl Delta {
    pub fn new(dx: i8, dy: i8) -> (r: Self)
        ensures
            r.dx == dx,
            r.dy == dy,
    {
        Delta { dx, dy }
    }
}

/// The eight sign/axis copies of `(m,n)`, in generation order:
/// `(m,n),(m,-n),(-m,n),(-m,-n)` then the same with the axes exchanged.
pub open spec fn sym_candidates(m: i8, n: i8) -> Seq<Delta> {
    seq![
        Delta { dx: m, dy: n },
        Delta { dx: m, dy: (-n) as i8 },
        Delta { dx: (-m) as i8, dy: n },
        Delta { dx: (-m) as i8, dy: (-n) as i8 },
        Delta { dx: n, dy: m },
        Delta { dx: n, dy: (-m) as i8 },
        Delta { dx: (-n) as i8, dy: m },
        Delta { dx: (-n) as i8, dy: (-m) as i8 },
    ]
}

/// Keep the nonzero candidates, each first occurrence only, in order.
pub open spec fn dedup_nonzero(s: Seq<Delta>) -> Seq<Delta>
    decreases s.len(),
{
    if s.len() == 0 {
        Seq::empty()
    } else {
        let prev = dedup_nonzero(s.drop_last());
        let d = s.last();
        if (d.dx == 0 && d.dy == 0) || prev.contains(d) {
            prev
        } else {
            prev.push(d)
        }
    }
}

/// All distinct symmetric copies of an `(m,n)` step: (±m,±n) and (±n,±m).
pub open spec fn spec_symmetric_deltas(m: i8, n: i8) -> Seq<Delta> {
    dedup_nonzero(sym_candidates(m, n))
}

/// Every kept step is one of the candidates.
pub proof fn lemma_dedup_subset(s: Seq<Delta>, d: Delta)
    requires
        dedup_nonzero(s).contains(d),
    ensures
        s.contains(d),
        !(d.dx == 0 && d.dy == 0),
    decreases s.len(),
{
    if s.len() > 0 {
        let prev = dedup_nonzero(s.drop_last());
        if prev.contains(d) {
            lemma_dedup_subset(s.drop_last(), d);
            let k = choose|k: int| 0 <= k < s.drop_last().len() && s.drop_last()[k] == d;
            assert(s[k] == d);
        } else {
            assert(s.last() == d);
            assert(s[s.len() - 1] == d);
        }
    }
}

/// No symmetric copy of a step with parts in `(-128, 127]` leaves that range.
pub proof fn lemma_symmetric_in_range(m: i8, n: i8, d: Delta)
    requires
        m != i8::MIN,
        n != i8::MIN,
        spec_symmetric_deltas(m, n).contains(d),
    ensures
        d.dx != i8::MIN,
        d.dy != i8::MIN,
        !(d.dx == 0 && d.dy == 0),
{
    lemma_dedup_subset(sym_candidates(m, n), d);
    let k = choose|k: int| 0 <= k < sym_candidates(m, n).len() && sym_candidates(m, n)[k] == d;
}

pub fn vec_contains_delta(v: &Vec<Delta>, d: Delta) -> (r: bool)
    ensures
        r == v@.contains(d),
{
    let mut i: usize = 0;
    while i < v.len()
        invariant
            i <= v.len(),
            forall|j: int| 0 <= j < i ==> v@[j] != d,
        decreases v.len() - i,
    {
        if v[i] == d {
            assert(v@[i as int] == d);
            return true;
        }
        i += 1;
    }
    false
}

/// All distinct symmetric copies of an `(m,n)` step: (±m,±n) and (±n,±m),
/// zero steps dropped, first occurrence kept, in generation order.
pub fn symmetric_deltas(m: i8, n: i8) -> (out: Vec<Delta>)
    requires
        m != i8::MIN,
        n != i8::MIN,
    ensures
        out@ == spec_symmetric_deltas(m, n),
{
    let cands: [Delta; 8] = [
        Delta { dx: m, dy: n },
        Delta { dx: m, dy: -n },
        Delta { dx: -m, dy: n },
        Delta { dx: -m, dy: -n },
        Delta { dx: n, dy: m },
        Delta { dx: n, dy: -m },
        Delta { dx: -n, dy: m },
        Delta { dx: -n, dy: -m },
    ];
    assert(cands@ =~= sym_candidates(m, n));
    let mut out: Vec<Delta> = Vec::new();
    let mut k: usize = 0;
    while k < 8
        invariant
            k <= 8,
            cands@ == sym_candidates(m, n),
            out@ == dedup_nonzero(sym_candidates(m, n).take(k as int)),
        decreases 8 - k,
    {
        let d = cands[k];
        proof {
            let s = sym_candidates(m, n).take(k as int + 1);
            assert(s.drop_last() =~= sym_candidates(m, n).take(k as int));
            assert(s.last() == d);
        }
        if !(d.dx == 0 && d.dy == 0) && !vec_contains_delta(&out, d) {
            out.push(d);
        }
        k += 1;
    }
    assert(sym_candidates(m, n).take(8) =~= sym_candidates(m, n));
    out
}

/// Direction mask: restricts a geometry to a subset of its symmetric
/// copies. Evaluated in the mover's frame (before the per-side flip).
/// `Custom` covers asymmetric sets like the shogi knight's narrow-forward pair.
#[derive(Clone, Debug)]
pub enum DirFilter {
    All,
    Forward,
    Backward,
    Sideways,
    Vertical,
    Custom(Vec<Delta>),
}

/// Which steps a direction mask keeps.
pub open spec fn spec_keep(f: DirFilter, d: Delta) -> bool {
    match f {
        DirFilter::All => true,
        DirFilter::Forward => d.dy > 0,
        DirFilter::Backward => d.dy < 0,
        DirFilter::Sideways => d.dy == 0,
        DirFilter::Vertical => d.dx == 0,
        DirFilter::Custom(v) => v@.contains(d),
    }
}

impl DirFilter {
    pub fn keep(&self, d: Delta) -> (r: bool)
        ensures
            r == spec_keep(*self, d),
    {
        match self {
            DirFilter::All => true,
            DirFilter::Forward => d.dy > 0,
            DirFilter::Backward => d.dy < 0,
            DirFilter::Sideways => d.dy == 0,
            DirFilter::Vertical => d.dx == 0,
            DirFilter::Custom(v) => vec_contains_delta(v, d),
        }
    }
}

/// What deduplication keeps: no entry twice, and exactly the nonzero
/// entries of `s`.
proof fn lemma_dedup_props(s: Seq<Delta>)
    ensures
        dedup_nonzero(s).no_duplicates(),
        forall|d: Delta| #[trigger] dedup_nonzero(s).contains(d) <==> (s.contains(d) && !(d.dx == 0 && d.dy == 0)),
    decreases s.len(),
{
    if s.len() > 0 {
        let prev = dedup_nonzero(s.drop_last());
        lemma_dedup_props(s.drop_last());
        let x = s.last();
        let r = dedup_nonzero(s);
        if !((x.dx == 0 && x.dy == 0) || prev.contains(x)) {
            assert(r == prev.push(x));
            assert forall|i: int, j: int| 0 <= i < r.len() && 0 <= j < r.len() && i != j implies r[i] != r[j] by {
                if i < prev.len() && j < prev.len() {
                } else if i == prev.len() {
                    assert(prev[j] == r[j]);
                } else {
                    assert(prev[i] == r[i]);
                }
            }
        }
        assert forall|d: Delta| #[trigger] r.contains(d) <==> (s.contains(d) && !(d.dx == 0 && d.dy == 0)) by {
            if r.contains(d) {
                lemma_dedup_subset(s, d);
            }
            if s.contains(d) && !(d.dx == 0 && d.dy == 0) {
                let k = choose|k: int| 0 <= k < s.len() && s[k] == d;
                if k < s.len() - 1 {
                    assert(s.drop_last()[k] == d);
                    assert(s.drop_last().contains(d));
                    assert(prev.contains(d));
                    let i = choose|i: int| 0 <= i < prev.len() && prev[i] == d;
                    if !((x.dx == 0 && x.dy == 0) || prev.contains(x)) {
                        assert(r[i] == d);
                    }
                } else {
                    assert(x == d);
                    if prev.contains(x) {
                        let i = choose|i: int| 0 <= i < prev.len() && prev[i] == d;
                        assert(r[i] == d);
                    } else {
                        assert(r[prev.len() as int] == d);
                    }
                }
            }
        }
    }
}

/// The symmetric copies of a step hold no copy twice and never the null
/// step, and are exactly the nonzero sign and axis copies
/// `(±m, ±n)`, `(±n, ±m)`.
pub proof fn law_symmetric_deltas(m: i8, n: i8)
    requires
        m != i8::MIN,
        n != i8::MIN,
    ensures
        spec_symmetric_deltas(m, n).no_duplicates(),
        forall|d: Delta| #[trigger] spec_symmetric_deltas(m, n).contains(d)
            <==> (sym_candidates(m, n).contains(d) && !(d.dx == 0 && d.dy == 0)),
{
    lemma_dedup_props(sym_candidates(m, n));
}

} // verus!
