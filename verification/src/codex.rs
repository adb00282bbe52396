//! Codex persistence: accumulated reconnaissance is belief collapse made
//! durable. A `Belief`'s knowledge masks serialize to versioned JSON, keyed
//! by piece index; a rematch warm-starts from the intersection of the
//! cold-open belief with the persisted codex, so the engine plays harder
//! and faster against armies the player has scouted.

use vstd::prelude::*;
use vstd::string::*;
use vstd::std_specs::iter::IteratorSpec;
use crate::belief::{Belief, cands_of, cold_open_cands, contains_type, is_sublist, sublist_by};
use crate::game::{GameDef, Side, TypeId};
use crate::position::Position;
use crate::moves::{push_decimal, spec_decimal};

verus! {

// ---------------------------------------------------------------------
// The written form
// ---------------------------------------------------------------------

/// `{`, the version line and the observer key, up to the observer's digits.
pub open spec fn lit_head() -> Seq<char> {
    seq!['{', '\n', ' ', ' ', '"', 'v', 'e', 'r', 's', 'i', 'o', 'n', '"', ':', ' ', '1', ',', '\n',
        ' ', ' ', '"', 'o', 'b', 's', 'e', 'r', 'v', 'e', 'r', '"', ':', ' ']
}

/// From the observer's digits to the first row.
pub open spec fn lit_mid() -> Seq<char> {
    seq![',', '\n', ' ', ' ', '"', 'c', 'a', 'n', 'd', 'i', 'd', 'a', 't', 'e', 's', '"', ':', ' ', '[', '\n']
}

/// The opening of one row.
pub open spec fn lit_row_open() -> Seq<char> {
    seq![' ', ' ', ' ', ' ', '[']
}

/// After the last row.
pub open spec fn lit_tail() -> Seq<char> {
    seq![' ', ' ', ']', '\n', '}', '\n']
}

/// The types of one hypothesis list in decimal, comma-separated.
pub open spec fn join_types(c: Seq<TypeId>) -> Seq<char>
    decreases c.len(),
{
    if c.len() == 0 {
        Seq::empty()
    } else if c.len() == 1 {
        spec_decimal(c[0] as nat)
    } else {
        join_types(c.drop_last()) + seq![','] + spec_decimal(c.last() as nat)
    }
}

/// One row: `    [t,t,t]`, a comma unless it is the last row, a newline.
pub open spec fn row_text(c: Seq<TypeId>, last: bool) -> Seq<char> {
    lit_row_open() + join_types(c) + seq![']'] + (if last { Seq::empty() } else { seq![','] }) + seq!['\n']
}

/// The first `k` rows of the hypothesis lists `cands`.
pub open spec fn rows_text(cands: Seq<Seq<TypeId>>, k: nat) -> Seq<char>
    decreases k,
{
    if k == 0 {
        Seq::empty()
    } else {
        rows_text(cands, (k - 1) as nat) + row_text(cands[k - 1], k == cands.len())
    }
}

/// The whole codex text of a belief.
pub open spec fn codex_text(observer: Side, cands: Seq<Seq<TypeId>>) -> Seq<char> {
    lit_head() + spec_decimal(observer as nat) + lit_mid() + rows_text(cands, cands.len()) + lit_tail()
}

fn append_lit(s: &mut String, lit: &str)
    ensures
        final(s)@ == old(s)@ + lit@,
{
    s.append(lit);
}

/// Serialize the belief's hypothesis sets.
pub fn belief_to_json(b: &Belief) -> (s: String)
    ensures
        s@ == codex_text(b.observer, cands_of(*b)),
{
    let ghost cands = cands_of(*b);
    let mut s = String::new();
    append_lit(&mut s, "{\n  \"version\": 1,\n  \"observer\": ");
    proof {
        reveal_strlit("{\n  \"version\": 1,\n  \"observer\": ");
        assert("{\n  \"version\": 1,\n  \"observer\": "@ =~= lit_head());
    }
    push_decimal(&mut s, b.observer as u64);
    append_lit(&mut s, ",\n  \"candidates\": [\n");
    proof {
        reveal_strlit(",\n  \"candidates\": [\n");
        assert(",\n  \"candidates\": [\n"@ =~= lit_mid());
    }
    let ghost start = s@;
    assert(start =~= lit_head() + spec_decimal(b.observer as nat) + lit_mid());
    let n = b.candidates.len();
    let mut i: usize = 0;
    while i < n
        invariant
            n == b.candidates@.len(),
            cands == cands_of(*b),
            i <= n,
            s@ == start + rows_text(cands, i as nat),
        decreases n - i,
    {
        let ghost before = s@;
        append_lit(&mut s, "    [");
        proof {
            reveal_strlit("    [");
            assert("    ["@ =~= lit_row_open());
        }
        let ghost open = s@;
        let c = &b.candidates[i];
        assert(c@ == cands[i as int]);
        let mut k: usize = 0;
        while k < c.len()
            invariant
                k <= c@.len(),
                s@ == open + join_types(c@.subrange(0, k as int)),
            decreases c@.len() - k,
        {
            let ghost prev = s@;
            if k > 0 {
                append_lit(&mut s, ",");
                proof {
                    reveal_strlit(",");
                }
            }
            push_decimal(&mut s, c[k] as u64);
            proof {
                let sub = c@.subrange(0, k + 1);
                assert(sub.drop_last() =~= c@.subrange(0, k as int));
                assert(sub.last() == c@[k as int]);
                if k == 0 {
                    assert(s@ =~= open + join_types(sub));
                } else {
                    assert(",".view() =~= seq![',']);
                    assert(s@ =~= open + join_types(sub));
                }
            }
            k += 1;
        }
        assert(c@.subrange(0, c@.len() as int) =~= c@);
        append_lit(&mut s, "]");
        proof {
            reveal_strlit("]");
        }
        if i + 1 < n {
            append_lit(&mut s, ",");
            proof {
                reveal_strlit(",");
            }
        }
        append_lit(&mut s, "\n");
        proof {
            reveal_strlit("\n");
            reveal_strlit(",");
            assert("]".view() =~= seq![']']);
            assert(",".view() =~= seq![',']);
            assert("\n".view() =~= seq!['\n']);
            assert(s@ =~= before + row_text(cands[i as int], i + 1 == n));
            assert(rows_text(cands, (i + 1) as nat) == rows_text(cands, i as nat) + row_text(cands[i as int], i + 1 == cands.len()));
        }
        i += 1;
    }
    append_lit(&mut s, "  ]\n}\n");
    proof {
        reveal_strlit("  ]\n}\n");
        assert("  ]\n}\n"@ =~= lit_tail());
        assert(s@ =~= codex_text(b.observer, cands));
    }
    s
}


// ---------------------------------------------------------------------
// Reading it back
// ---------------------------------------------------------------------

/// The observer key, quotes and colon included.
pub open spec fn key_observer() -> Seq<char> {
    seq!['"', 'o', 'b', 's', 'e', 'r', 'v', 'e', 'r', '"', ':']
}

/// The candidates key, quotes and colon included.
pub open spec fn key_candidates() -> Seq<char> {
    seq!['"', 'c', 'a', 'n', 'd', 'i', 'd', 'a', 't', 'e', 's', '"', ':']
}

/// The first position at or after `from` where `pat` occurs in `s`.
pub open spec fn find_from(s: Seq<char>, pat: Seq<char>, from: nat) -> Option<nat>
    decreases s.len() + 1 - from,
{
    if from + pat.len() > s.len() {
        None
    } else if s.subrange(from as int, (from + pat.len()) as int) == pat {
        Some(from)
    } else {
        find_from(s, pat, from + 1)
    }
}

/// The text between the first occurrence of `key` and the next one (or
/// the end): the second piece of `s` split on `key`.
pub open spec fn after_key(s: Seq<char>, key: Seq<char>) -> Option<Seq<char>> {
    match find_from(s, key, 0) {
        None => None,
        Some(i) => {
            let st = i + key.len();
            match find_from(s, key, st) {
                Some(j) => Some(s.subrange(st as int, j as int)),
                None => Some(s.subrange(st as int, s.len() as int)),
            }
        },
    }
}

/// Unicode white space, as `char::is_whitespace` defines it.
pub open spec fn is_space(c: char) -> bool {
    let u = c as u32;
    ||| 9 <= u <= 13
    ||| u == 32
    ||| u == 0x85
    ||| u == 0xA0
    ||| u == 0x1680
    ||| 0x2000 <= u <= 0x200A
    ||| u == 0x2028
    ||| u == 0x2029
    ||| u == 0x202F
    ||| u == 0x205F
    ||| u == 0x3000
}

pub open spec fn trim_start(s: Seq<char>) -> Seq<char>
    decreases s.len(),
{
    if s.len() > 0 && is_space(s[0]) { trim_start(s.drop_first()) } else { s }
}

pub open spec fn trim_end(s: Seq<char>) -> Seq<char>
    decreases s.len(),
{
    if s.len() > 0 && is_space(s.last()) { trim_end(s.drop_last()) } else { s }
}

/// White space removed from both ends.
pub open spec fn trim(s: Seq<char>) -> Seq<char> {
    trim_end(trim_start(s))
}

pub open spec fn is_sep(c: char) -> bool {
    c == ',' || c == '\n'
}

/// The text before the first comma or newline.
pub open spec fn cut_at_sep(s: Seq<char>) -> Seq<char>
    decreases s.len(),
{
    if s.len() == 0 {
        s
    } else if is_sep(s[0]) {
        Seq::empty()
    } else {
        seq![s[0]] + cut_at_sep(s.drop_first())
    }
}

pub open spec fn is_digit(c: char) -> bool {
    '0' <= c && c <= '9'
}

/// The value of a string of decimal digits.
pub open spec fn digits_value(s: Seq<char>) -> nat
    decreases s.len(),
{
    if s.len() == 0 { 0 } else { digits_value(s.drop_last()) * 10 + ((s.last() as u32) - 48) as nat }
}

/// The digit part of an unsigned number: the text after an optional `+`.
pub open spec fn unsigned_digits(s: Seq<char>) -> Seq<char> {
    if s.len() > 0 && s[0] == '+' { s.drop_first() } else { s }
}

pub open spec fn all_digits(d: Seq<char>) -> bool {
    forall|k: int| 0 <= k < d.len() ==> #[trigger] is_digit(d[k])
}

/// An unsigned byte in decimal, as `u8::from_str` reads it: an optional
/// `+`, then one or more digits, worth at most 255.
pub open spec fn parse_u8(s: Seq<char>) -> Option<u8> {
    let d = unsigned_digits(s);
    if d.len() > 0 && all_digits(d) && digits_value(d) <= 255 {
        Some(digits_value(d) as u8)
    } else {
        None
    }
}

/// The pieces of `s` between commas (one more than there are commas).
pub open spec fn split_commas(s: Seq<char>) -> Seq<Seq<char>>
    decreases s.len(),
{
    if s.len() == 0 {
        seq![Seq::empty()]
    } else {
        let p = split_commas(s.drop_last());
        if s.last() == ',' { p.push(Seq::empty()) } else { p.update(p.len() - 1, p.last().push(s.last())) }
    }
}

/// The pieces that read as a type (after trimming), in order.
pub open spec fn keep_parsed(ps: Seq<Seq<char>>) -> Seq<TypeId>
    decreases ps.len(),
{
    if ps.len() == 0 {
        Seq::empty()
    } else {
        let rest = keep_parsed(ps.drop_last());
        match parse_u8(trim(ps.last())) {
            Some(x) => rest.push(x),
            None => rest,
        }
    }
}

/// One hypothesis list read from the text between its brackets.
pub open spec fn parse_list(cur: Seq<char>) -> Seq<TypeId> {
    keep_parsed(split_commas(cur))
}

/// The reader's state: bracket depth, the text of the current list, the
/// lists read so far, and whether the outer list has closed.
pub type ScanState = (int, Seq<char>, Seq<Seq<TypeId>>, bool);

pub open spec fn scan_step(st: ScanState, ch: char) -> ScanState {
    let (depth, cur, acc, done) = st;
    if done {
        st
    } else if ch == '[' {
        let d = depth + 1;
        (d, if d == 2 { Seq::empty() } else { cur }, acc, false)
    } else if ch == ']' {
        let acc2 = if depth == 2 { acc.push(parse_list(cur)) } else { acc };
        (depth - 1, cur, acc2, depth - 1 == 0)
    } else if depth == 2 {
        (depth, cur.push(ch), acc, false)
    } else {
        st
    }
}

pub open spec fn scan(s: Seq<char>, st: ScanState) -> ScanState
    decreases s.len(),
{
    if s.len() == 0 { st } else { scan(s.drop_first(), scan_step(st, s[0])) }
}

/// The observer a codex text names, if it names one that reads as a side.
pub open spec fn codex_observer(s: Seq<char>) -> Option<Side> {
    match after_key(s, key_observer()) {
        None => None,
        Some(seg) => parse_u8(trim(cut_at_sep(trim(seg)))),
    }
}

/// The hypothesis lists a codex text holds: the bracketed lists inside the
/// outer list after the candidates key.
pub open spec fn codex_candidates(s: Seq<char>) -> Option<Seq<Seq<TypeId>>> {
    match after_key(s, key_candidates()) {
        None => None,
        Some(seg) => Some(scan(seg, (0, Seq::empty(), Seq::empty(), false)).2),
    }
}


/// The characters of a string, in order.
pub(crate) fn chars_of(json: &str) -> (v: Vec<char>)
    ensures
        v@ == json@,
{
    broadcast use vstd::string::group_string_axioms;
    let mut it = json.chars();
    let mut v: Vec<char> = Vec::new();
    loop
        invariant
            v@ + it.remaining() == json@,
            it.decrease() is Some,
        ensures
            v@ == json@,
        decreases it.decrease()->0,
    {
        let ghost before = it.remaining();
        match it.next() {
            Some(c) => {
                v.push(c);
                assert(v@ + it.remaining() =~= json@);
            },
            None => {
                assert(v@ =~= json@);
                break;
            },
        }
    }
    v
}


pub(crate) fn space(c: char) -> (r: bool)
    ensures
        r == is_space(c),
{
    let u = c as u32;
    (9 <= u && u <= 13) || u == 32 || u == 0x85 || u == 0xA0 || u == 0x1680 || (0x2000 <= u && u <= 0x200A)
        || u == 0x2028 || u == 0x2029 || u == 0x202F || u == 0x205F || u == 0x3000
}

/// Does `pat` occur in `v` at `i`?
fn occurs(v: &Vec<char>, pat: &Vec<char>, i: usize) -> (r: bool)
    requires
        i + pat@.len() <= v@.len(),
    ensures
        r == (v@.subrange(i as int, i + pat@.len()) == pat@),
{
    let vl = v.len();
    let mut k: usize = 0;
    while k < pat.len()
        invariant
            vl == v@.len(),
            i + pat@.len() <= v@.len(),
            k <= pat@.len(),
            forall|m: int| 0 <= m < k ==> v@[i + m] == pat@[m],
        decreases pat@.len() - k,
    {
        let ik = i + k;
        if v[ik] != pat[k] {
            assert(v@.subrange(i as int, i + pat@.len())[k as int] != pat@[k as int]);
            return false;
        }
        k += 1;
    }
    assert(v@.subrange(i as int, i + pat@.len()) =~= pat@);
    true
}

/// The first occurrence of `pat` in `v` at or after `from`.
fn find(v: &Vec<char>, pat: &Vec<char>, from: usize) -> (r: Option<usize>)
    requires
        pat@.len() > 0,
    ensures
        match r {
            Some(i) => find_from(v@, pat@, from as nat) == Some(i as nat),
            None => find_from(v@, pat@, from as nat) is None,
        },
{
    let mut i = from;
    while i <= v.len() && pat.len() <= v.len() - i
        invariant
            pat@.len() > 0,
            find_from(v@, pat@, from as nat) == find_from(v@, pat@, i as nat),
        decreases v@.len() + 1 - i,
    {
        if occurs(v, pat, i) {
            return Some(i);
        }
        i += 1;
    }
    None
}

/// The bounds of `v[lo..hi]` with white space trimmed from both ends.
fn trim_range(v: &Vec<char>, lo: usize, hi: usize) -> (r: (usize, usize))
    requires
        lo <= hi <= v@.len(),
    ensures
        lo <= r.0 <= r.1 <= hi,
        v@.subrange(r.0 as int, r.1 as int) == trim(v@.subrange(lo as int, hi as int)),
{
    let mut a = lo;
    while a < hi && space(v[a])
        invariant
            lo <= a <= hi <= v@.len(),
            trim_start(v@.subrange(lo as int, hi as int)) == trim_start(v@.subrange(a as int, hi as int)),
        decreases hi - a,
    {
        assert(v@.subrange(a as int, hi as int).drop_first() =~= v@.subrange(a + 1, hi as int));
        a += 1;
    }
    let mut b = hi;
    while b > a && space(v[b - 1])
        invariant
            lo <= a <= b <= hi <= v@.len(),
            trim_end(v@.subrange(a as int, hi as int)) == trim_end(v@.subrange(a as int, b as int)),
        decreases b - a,
    {
        assert(v@.subrange(a as int, b as int).drop_last() =~= v@.subrange(a as int, b - 1));
        b -= 1;
    }
    (a, b)
}

/// The end of the text of `v[lo..hi]` before its first comma or newline.
fn cut_range(v: &Vec<char>, lo: usize, hi: usize) -> (c: usize)
    requires
        lo <= hi <= v@.len(),
    ensures
        lo <= c <= hi,
        v@.subrange(lo as int, c as int) == cut_at_sep(v@.subrange(lo as int, hi as int)),
{
    let mut c = lo;
    while c < hi && !(v[c] == ',' || v[c] == '\n')
        invariant
            lo <= c <= hi <= v@.len(),
            cut_at_sep(v@.subrange(lo as int, hi as int)) == v@.subrange(lo as int, c as int) + cut_at_sep(v@.subrange(c as int, hi as int)),
        decreases hi - c,
    {
        let ghost rest = v@.subrange(c as int, hi as int);
        assert(rest.drop_first() =~= v@.subrange(c + 1, hi as int));
        assert(v@.subrange(lo as int, c as int) + seq![v@[c as int]] =~= v@.subrange(lo as int, c + 1));
        c += 1;
    }
    assert(cut_at_sep(v@.subrange(c as int, hi as int)) =~= Seq::<char>::empty());
    assert(v@.subrange(lo as int, c as int) + Seq::<char>::empty() =~= v@.subrange(lo as int, c as int));
    c
}

proof fn lemma_digits_value_grows(s: Seq<char>)
    requires
        s.len() > 0,
        forall|k: int| 0 <= k < s.len() ==> #[trigger] is_digit(s[k]),
    ensures
        digits_value(s) >= digits_value(s.drop_last()),
{
}

/// `v[lo..hi]` read as an unsigned byte.
fn parse_u8_range(v: &Vec<char>, lo: usize, hi: usize) -> (r: Option<u8>)
    requires
        lo <= hi <= v@.len(),
    ensures
        r == parse_u8(v@.subrange(lo as int, hi as int)),
{
    let ghost s = v@.subrange(lo as int, hi as int);
    let d = if lo < hi && v[lo] == '+' { lo + 1 } else { lo };
    let ghost ds = v@.subrange(d as int, hi as int);
    assert(ds =~= unsigned_digits(s));
    if d == hi {
        return None;
    }
    let mut val: u32 = 0;
    let mut big = false;
    let mut k = d;
    while k < hi
        invariant
            d <= k <= hi <= v@.len(),
            ds == v@.subrange(d as int, hi as int),
            s == v@.subrange(lo as int, hi as int),
            ds == unsigned_digits(s),
            forall|m: int| d <= m < k ==> #[trigger] is_digit(v@[m]),
            big ==> digits_value(v@.subrange(d as int, k as int)) > 255,
            !big ==> val == digits_value(v@.subrange(d as int, k as int)) && val <= 255,
        decreases hi - k,
    {
        let c = v[k];
        if !('0' <= c && c <= '9') {
            assert(!is_digit(ds[k - d]));
            assert(!all_digits(ds));
            return None;
        }
        let ghost pre = v@.subrange(d as int, k as int);
        let ghost nxt = v@.subrange(d as int, k + 1);
        assert(nxt.drop_last() =~= pre);
        assert(nxt.last() == c);
        assert forall|m: int| 0 <= m < nxt.len() implies #[trigger] is_digit(nxt[m]) by {
            assert(nxt[m] == v@[d + m]);
        }
        proof { lemma_digits_value_grows(nxt); }
        if !big {
            let nv = val * 10 + (c as u32 - 48);
            if nv > 255 {
                big = true;
            } else {
                val = nv;
            }
        }
        k += 1;
    }
    assert(v@.subrange(d as int, hi as int) =~= ds);
    assert forall|m: int| 0 <= m < ds.len() implies #[trigger] is_digit(ds[m]) by {
        assert(ds[m] == v@[d + m]);
    }
    assert(all_digits(ds));
    if big {
        None
    } else {
        Some(val as u8)
    }
}

/// One hypothesis list read from its text.
fn parse_list_exec(v: &Vec<char>) -> (out: Vec<TypeId>)
    ensures
        out@ == parse_list(v@),
{
    let hi = v.len();
    let mut out: Vec<TypeId> = Vec::new();
    let mut ps: usize = 0;
    let mut k: usize = 0;
    while k < hi
        invariant
            hi == v@.len(),
            ps <= k <= hi,
            split_commas(v@.subrange(0, k as int)).len() >= 1,
            split_commas(v@.subrange(0, k as int)).last() == v@.subrange(ps as int, k as int),
            keep_parsed(split_commas(v@.subrange(0, k as int)).drop_last()) == out@,
        decreases hi - k,
    {
        let ghost pre = v@.subrange(0, k as int);
        let ghost nxt = v@.subrange(0, k + 1);
        assert(nxt.drop_last() =~= pre);
        assert(nxt.last() == v@[k as int]);
        let ghost p = split_commas(pre);
        if v[k] == ',' {
            let (a, b) = trim_range(v, ps, k);
            let x = parse_u8_range(v, a, b);
            assert(split_commas(nxt) == p.push(Seq::empty()));
            assert(split_commas(nxt).drop_last() =~= p);
            assert(p =~= p.drop_last().push(p.last()));
            match x {
                Some(t) => out.push(t),
                None => {},
            }
            ps = k + 1;
            assert(split_commas(nxt).last() =~= v@.subrange(ps as int, k + 1));
        } else {
            assert(split_commas(nxt) == p.update(p.len() - 1, p.last().push(v@[k as int])));
            assert(split_commas(nxt).drop_last() =~= p.drop_last());
            assert(split_commas(nxt).last() =~= v@.subrange(ps as int, k + 1));
        }
        k += 1;
    }
    assert(v@.subrange(0, hi as int) =~= v@);
    let ghost p = split_commas(v@);
    assert(p =~= p.drop_last().push(p.last()));
    let (a, b) = trim_range(v, ps, hi);
    let x = parse_u8_range(v, a, b);
    match x {
        Some(t) => out.push(t),
        None => {},
    }
    out
}


proof fn lemma_find_from_bounds(s: Seq<char>, pat: Seq<char>, from: nat)
    ensures
        find_from(s, pat, from) matches Some(i) ==> from <= i && i + pat.len() <= s.len(),
    decreases s.len() + 1 - from,
{
    if from + pat.len() <= s.len() && s.subrange(from as int, (from + pat.len()) as int) != pat {
        lemma_find_from_bounds(s, pat, from + 1);
    }
}

proof fn lemma_scan_done(s: Seq<char>, st: ScanState)
    requires
        st.3,
    ensures
        scan(s, st) == st,
    decreases s.len(),
{
    if s.len() > 0 {
        lemma_scan_done(s.drop_first(), scan_step(st, s[0]));
    }
}

/// The hypothesis lists held in a vector of vectors.
pub open spec fn lists_view(acc: Seq<Vec<TypeId>>) -> Seq<Seq<TypeId>> {
    Seq::new(acc.len(), |i: int| acc[i]@)
}

fn observer_key() -> (v: Vec<char>)
    ensures
        v@ == key_observer(),
{
    let mut v: Vec<char> = Vec::new();
    v.push('"'); v.push('o'); v.push('b'); v.push('s'); v.push('e'); v.push('r');
    v.push('v'); v.push('e'); v.push('r'); v.push('"'); v.push(':');
    assert(v@ =~= key_observer());
    v
}

fn candidates_key() -> (v: Vec<char>)
    ensures
        v@ == key_candidates(),
{
    let mut v: Vec<char> = Vec::new();
    v.push('"'); v.push('c'); v.push('a'); v.push('n'); v.push('d'); v.push('i'); v.push('d');
    v.push('a'); v.push('t'); v.push('e'); v.push('s'); v.push('"'); v.push(':');
    assert(v@ =~= key_candidates());
    v
}

/// The bounds of the text after the first occurrence of `key` up to the next.
fn after_key_range(v: &Vec<char>, key: &Vec<char>) -> (r: Option<(usize, usize)>)
    requires
        key@.len() > 0,
    ensures
        match r {
            Some((st, en)) => st <= en <= v@.len() && after_key(v@, key@) == Some(v@.subrange(st as int, en as int)),
            None => after_key(v@, key@) is None,
        },
{
    let vl = v.len();
    match find(v, key, 0) {
        None => None,
        Some(i) => {
            proof { lemma_find_from_bounds(v@, key@, 0); }
            let st = i + key.len();
            let en = match find(v, key, st) {
                Some(j) => {
                    proof { lemma_find_from_bounds(v@, key@, st as nat); }
                    j
                },
                None => v.len(),
            };
            Some((st, en))
        },
    }
}

/// Parse a persisted codex. Tolerant and hand-rolled: the observer is the
/// number after the observer key (up to a comma or newline), the lists are
/// the bracketed lists inside the outer list after the candidates key, and
/// list entries that do not read as a type are skipped.
pub fn belief_from_json(json: &str) -> (r: Result<Belief, String>)
    requires
        json@.len() <= i64::MAX,
    ensures
        match r {
            Ok(b) => codex_observer(json@) == Some(b.observer) && codex_candidates(json@) == Some(cands_of(b)),
            Err(e) => (codex_observer(json@) is None && e@ == "missing observer"@)
                || (codex_observer(json@) is Some && codex_candidates(json@) is None && e@ == "missing candidates"@),
        },
{
    let v = chars_of(json);
    let ko = observer_key();
    let obs = match after_key_range(&v, &ko) {
        None => None,
        Some((st, en)) => {
            let (a, b) = trim_range(&v, st, en);
            let c = cut_range(&v, a, b);
            let (a2, b2) = trim_range(&v, a, c);
            parse_u8_range(&v, a2, b2)
        },
    };
    let observer = match obs {
        Some(o) => o,
        None => {
            return Err(String::from_str("missing observer"));
        },
    };
    let kc = candidates_key();
    let (st, en) = match after_key_range(&v, &kc) {
        None => {
            return Err(String::from_str("missing candidates"));
        },
        Some(range) => range,
    };
    let ghost seg = v@.subrange(st as int, en as int);
    let ghost init: ScanState = (0, Seq::empty(), Seq::empty(), false);
    let mut depth: i64 = 0;
    let mut cur: Vec<char> = Vec::new();
    let mut acc: Vec<Vec<TypeId>> = Vec::new();
    let mut finished = false;
    let mut k = st;
    assert(lists_view(acc@) =~= Seq::<Seq<TypeId>>::empty());
    assert(v@.subrange(k as int, en as int) =~= seg);
    while k < en && !finished
        invariant
            st <= k <= en <= v@.len(),
            v@.len() <= i64::MAX,
            seg == v@.subrange(st as int, en as int),
            -(k - st) <= depth <= k - st,
            finished ==> scan(seg, init).2 == lists_view(acc@),
            !finished ==> scan(v@.subrange(k as int, en as int), (depth as int, cur@, lists_view(acc@), false)) == scan(seg, init),
        decreases en - k,
    {
        let ch = v[k];
        let ghost s0: ScanState = (depth as int, cur@, lists_view(acc@), false);
        let ghost rest = v@.subrange(k as int, en as int);
        assert(rest.drop_first() =~= v@.subrange(k + 1, en as int));
        assert(rest[0] == ch);
        if ch == '[' {
            depth = depth + 1;
            if depth == 2 {
                cur = Vec::new();
            }
        } else if ch == ']' {
            if depth == 2 {
                let l = parse_list_exec(&cur);
                acc.push(l);
                assert(lists_view(acc@) =~= s0.2.push(parse_list(s0.1)));
            }
            depth = depth - 1;
            if depth == 0 {
                finished = true;
            }
        } else if depth == 2 {
            cur.push(ch);
        }
        proof {
            let s1 = scan_step(s0, ch);
            assert(s1 == (depth as int, cur@, lists_view(acc@), finished));
            if finished {
                lemma_scan_done(v@.subrange(k + 1, en as int), s1);
            }
        }
        k += 1;
    }
    if !finished {
        assert(v@.subrange(k as int, en as int) =~= Seq::<char>::empty());
    }
    let b = Belief { observer, candidates: acc };
    assert(cands_of(b) =~= lists_view(acc@));
    Ok(b)
}




// ---------------------------------------------------------------------
// What is written reads back
// ---------------------------------------------------------------------

/// The decimal texts of a list of types.
pub open spec fn decimals(c: Seq<TypeId>) -> Seq<Seq<char>> {
    Seq::new(c.len(), |i: int| spec_decimal(c[i] as nat))
}

/// The characters a row of the written form is made of.
pub open spec fn row_char(ch: char) -> bool {
    is_digit(ch) || ch == ',' || ch == ' ' || ch == '\n' || ch == '[' || ch == ']'
}

proof fn lemma_decimal_digits(n: nat)
    ensures
        spec_decimal(n).len() >= 1,
        all_digits(spec_decimal(n)),
        digits_value(spec_decimal(n)) == n,
    decreases n,
{
    let d = spec_decimal(n);
    let c = (48 + n % 10) as char;
    assert(c as u32 == 48 + n % 10);
    assert(n == (n / 10) * 10 + n % 10);
    if n < 10 {
        assert(d.drop_last() =~= Seq::<char>::empty());
        assert(digits_value(d.drop_last()) == 0);
        assert(n % 10 == n);
        assert(d.last() == c);
        assert(digits_value(d) == digits_value(d.drop_last()) * 10 + ((d.last() as u32) - 48) as nat);
    } else {
        lemma_decimal_digits(n / 10);
        assert(d.drop_last() =~= spec_decimal(n / 10));
        assert(d.last() == c);
        assert forall|k: int| 0 <= k < d.len() implies #[trigger] is_digit(d[k]) by {
            if k < d.len() - 1 {
                assert(d[k] == spec_decimal(n / 10)[k]);
            }
        }
    }
}

proof fn lemma_parse_decimal(t: TypeId)
    ensures
        parse_u8(spec_decimal(t as nat)) == Some(t),
        trim(spec_decimal(t as nat)) == spec_decimal(t as nat),
        forall|k: int| 0 <= k < spec_decimal(t as nat).len() ==> #[trigger] is_digit(spec_decimal(t as nat)[k]),
{
    let d = spec_decimal(t as nat);
    lemma_decimal_digits(t as nat);
    assert(is_digit(d[0]));
    assert(unsigned_digits(d) == d);
    assert(trim_start(d) == d);
    assert(is_digit(d.last()));
    assert(trim_end(d) == d);
}

proof fn lemma_join_chars(c: Seq<TypeId>)
    ensures
        forall|k: int| 0 <= k < join_types(c).len() ==> is_digit(#[trigger] join_types(c)[k]) || join_types(c)[k] == ',',
    decreases c.len(),
{
    if c.len() == 1 {
        lemma_parse_decimal(c[0]);
    } else if c.len() > 1 {
        lemma_join_chars(c.drop_last());
        lemma_parse_decimal(c.last());
        let a = join_types(c.drop_last());
        let d = spec_decimal(c.last() as nat);
        assert forall|k: int| 0 <= k < join_types(c).len() implies is_digit(#[trigger] join_types(c)[k]) || join_types(c)[k] == ',' by {
            if k < a.len() {
                assert(join_types(c)[k] == a[k]);
            } else if k > a.len() {
                assert(join_types(c)[k] == d[k - a.len() - 1]);
            }
        }
    }
}

proof fn lemma_rows_chars(cands: Seq<Seq<TypeId>>, k: nat)
    ensures
        forall|m: int| 0 <= m < rows_text(cands, k).len() ==> row_char(#[trigger] rows_text(cands, k)[m]),
    decreases k,
{
    if k > 0 {
        lemma_rows_chars(cands, (k - 1) as nat);
        let c = cands[k - 1];
        lemma_join_chars(c);
        let a = rows_text(cands, (k - 1) as nat);
        let r = row_text(c, k == cands.len());
        let j = join_types(c);
        assert forall|m: int| 0 <= m < r.len() implies row_char(#[trigger] r[m]) by {
            if 5 <= m < 5 + j.len() {
                assert(r[m] == j[m - 5]);
            }
        }
        assert forall|m: int| 0 <= m < rows_text(cands, k).len() implies row_char(#[trigger] rows_text(cands, k)[m]) by {
            if m < a.len() {
                assert(rows_text(cands, k)[m] == a[m]);
            } else {
                assert(rows_text(cands, k)[m] == r[m - a.len()]);
            }
        }
    }
}

proof fn lemma_split_no_comma(x: Seq<char>)
    requires
        forall|k: int| 0 <= k < x.len() ==> x[k] != ',',
    ensures
        split_commas(x) == seq![x],
    decreases x.len(),
{
    if x.len() == 0 {
        assert(x =~= Seq::<char>::empty());
    } else {
        assert(x[x.len() - 1] != ',');
        assert forall|k: int| 0 <= k < x.drop_last().len() implies x.drop_last()[k] != ',' by {
            assert(x.drop_last()[k] == x[k]);
        }
        lemma_split_no_comma(x.drop_last());
        assert(x.drop_last().push(x.last()) =~= x);
        assert(seq![x.drop_last()].update(0, x.drop_last().push(x.last())) =~= seq![x]);
    }
}

proof fn lemma_split_append(a: Seq<char>, x: Seq<char>)
    requires
        forall|k: int| 0 <= k < x.len() ==> x[k] != ',',
    ensures
        split_commas(a + seq![','] + x) == split_commas(a).push(x),
    decreases x.len(),
{
    let s = a + seq![','] + x;
    if x.len() == 0 {
        assert(x =~= Seq::<char>::empty());
        assert(s.drop_last() =~= a);
        assert(s.last() == ',');
    } else {
        let y = x.drop_last();
        assert forall|k: int| 0 <= k < y.len() implies y[k] != ',' by {
            assert(y[k] == x[k]);
        }
        lemma_split_append(a, y);
        assert(s.drop_last() =~= a + seq![','] + y);
        assert(s.last() == x.last());
        assert(x[x.len() - 1] != ',');
        let p = split_commas(a).push(y);
        assert(y.push(x.last()) =~= x);
        assert(p.update(p.len() - 1, p.last().push(s.last())) =~= split_commas(a).push(x));
    }
}

proof fn lemma_split_join(c: Seq<TypeId>)
    requires
        c.len() >= 1,
    ensures
        split_commas(join_types(c)) == decimals(c),
    decreases c.len(),
{
    if c.len() == 1 {
        lemma_parse_decimal(c[0]);
        let d0 = spec_decimal(c[0] as nat);
        assert forall|k: int| 0 <= k < d0.len() implies d0[k] != ',' by {
            assert(is_digit(d0[k]));
        }
        lemma_split_no_comma(d0);
        assert(decimals(c) =~= seq![spec_decimal(c[0] as nat)]);
    } else {
        lemma_split_join(c.drop_last());
        lemma_parse_decimal(c.last());
        let dz = spec_decimal(c.last() as nat);
        assert forall|k: int| 0 <= k < dz.len() implies dz[k] != ',' by {
            assert(is_digit(dz[k]));
        }
        lemma_split_append(join_types(c.drop_last()), dz);
        assert(decimals(c.drop_last()).push(spec_decimal(c.last() as nat)) =~= decimals(c));
    }
}

proof fn lemma_keep_decimals(c: Seq<TypeId>)
    ensures
        keep_parsed(decimals(c)) == c,
    decreases c.len(),
{
    if c.len() > 0 {
        assert(decimals(c).drop_last() =~= decimals(c.drop_last()));
        lemma_keep_decimals(c.drop_last());
        lemma_parse_decimal(c.last());
        assert(c.drop_last().push(c.last()) =~= c);
    }
}

/// A row's list reads back as the list that was written.
proof fn lemma_parse_join(c: Seq<TypeId>)
    ensures
        parse_list(join_types(c)) == c,
{
    if c.len() == 0 {
        let e = Seq::<char>::empty();
        assert(join_types(c) == e);
        assert(split_commas(e) == seq![e]);
        assert(seq![e].drop_last() =~= Seq::<Seq<char>>::empty());
        assert(seq![e].last() == e);
        assert(trim_start(e) == e);
        assert(trim_end(e) == e);
        assert(trim(e) == e);
        assert(unsigned_digits(e) == e);
        assert(parse_u8(e) is None);
        assert(keep_parsed(Seq::<Seq<char>>::empty()) == Seq::<TypeId>::empty());
        assert(keep_parsed(seq![e]) == Seq::<TypeId>::empty());
        assert(c =~= Seq::<TypeId>::empty());
    } else {
        lemma_split_join(c);
        lemma_keep_decimals(c);
    }
}

proof fn lemma_scan_append(a: Seq<char>, b: Seq<char>, st: ScanState)
    ensures
        scan(a + b, st) == scan(b, scan(a, st)),
    decreases a.len(),
{
    if a.len() == 0 {
        assert(a + b =~= b);
    } else {
        assert((a + b).drop_first() =~= a.drop_first() + b);
        assert((a + b)[0] == a[0]);
        lemma_scan_append(a.drop_first(), b, scan_step(st, a[0]));
    }
}

/// Text without brackets inside a list is gathered into the list's text.
proof fn lemma_scan_text(x: Seq<char>, cur: Seq<char>, acc: Seq<Seq<TypeId>>)
    requires
        forall|k: int| 0 <= k < x.len() ==> x[k] != '[' && x[k] != ']',
    ensures
        scan(x, (2, cur, acc, false)) == (2int, cur + x, acc, false),
    decreases x.len(),
{
    if x.len() == 0 {
        assert(cur + x =~= cur);
    } else {
        lemma_scan_text(x.drop_first(), cur.push(x[0]), acc);
        assert(cur.push(x[0]) + x.drop_first() =~= cur + x);
    }
}

/// Text without brackets outside a list changes nothing.
proof fn lemma_scan_flat(x: Seq<char>, st: ScanState)
    requires
        forall|k: int| 0 <= k < x.len() ==> x[k] != '[' && x[k] != ']',
        st.0 != 2,
        !st.3,
    ensures
        scan(x, st) == st,
    decreases x.len(),
{
    if x.len() > 0 {
        lemma_scan_flat(x.drop_first(), st);
    }
}

proof fn lemma_scan_row(c: Seq<TypeId>, last: bool, cur: Seq<char>, acc: Seq<Seq<TypeId>>)
    ensures
        scan(row_text(c, last), (1, cur, acc, false)) == (1int, join_types(c), acc.push(c), false),
{
    let j = join_types(c);
    let sep: Seq<char> = if last { Seq::empty() } else { seq![','] };
    let tail = seq![']'] + sep + seq!['\n'];
    assert(row_text(c, last) =~= lit_row_open() + (j + tail));
    reveal_with_fuel(scan, 6);
    let s1 = scan(lit_row_open(), (1, cur, acc, false));
    assert(s1 == (2int, Seq::<char>::empty(), acc, false));
    lemma_scan_append(lit_row_open(), j + tail, (1, cur, acc, false));
    lemma_scan_append(j, tail, s1);
    lemma_join_chars(c);
    assert forall|k: int| 0 <= k < j.len() implies j[k] != '[' && j[k] != ']' by {
        assert(is_digit(j[k]) || j[k] == ',');
    }
    lemma_scan_text(j, Seq::empty(), acc);
    assert(Seq::<char>::empty() + j =~= j);
    lemma_parse_join(c);
    let s2 = (2int, j, acc, false);
    assert(tail =~= seq![']'] + (sep + seq!['\n']));
    lemma_scan_append(seq![']'], sep + seq!['\n'], s2);
    let s3 = scan(seq![']'], s2);
    assert(s3 == (1int, j, acc.push(c), false));
    lemma_scan_flat(sep + seq!['\n'], s3);
}

proof fn lemma_scan_rows(cands: Seq<Seq<TypeId>>, k: nat, cur: Seq<char>, acc: Seq<Seq<TypeId>>)
    requires
        k <= cands.len(),
    ensures
        ({
            let r = scan(rows_text(cands, k), (1, cur, acc, false));
            &&& r.0 == 1
            &&& r.2 == acc + cands.subrange(0, k as int)
            &&& !r.3
        }),
    decreases k,
{
    if k == 0 {
        assert(acc + cands.subrange(0, 0) =~= acc);
    } else {
        lemma_scan_rows(cands, (k - 1) as nat, cur, acc);
        let r1 = scan(rows_text(cands, (k - 1) as nat), (1, cur, acc, false));
        lemma_scan_append(rows_text(cands, (k - 1) as nat), row_text(cands[k - 1], k == cands.len()), (1, cur, acc, false));
        lemma_scan_row(cands[k - 1], k == cands.len(), r1.1, r1.2);
        assert((acc + cands.subrange(0, k - 1)).push(cands[k - 1]) =~= acc + cands.subrange(0, k as int));
    }
}

proof fn lemma_find_prefix(a: Seq<char>, b: Seq<char>, pat: Seq<char>, from: nat)
    requires
        find_from(a, pat, from) is Some,
    ensures
        find_from(a + b, pat, from) == find_from(a, pat, from),
    decreases a.len() + 1 - from,
{
    lemma_find_from_bounds(a, pat, from);
    assert(from + pat.len() <= a.len()) by {
        lemma_find_from_bounds(a, pat, from);
    }
    assert((a + b).subrange(from as int, (from + pat.len()) as int) =~= a.subrange(from as int, (from + pat.len()) as int));
    if a.subrange(from as int, (from + pat.len()) as int) != pat {
        lemma_find_prefix(a, b, pat, from + 1);
    }
}

proof fn lemma_find_absent(s: Seq<char>, pat: Seq<char>, from: nat, m: int)
    requires
        0 <= m < pat.len(),
        forall|k: int| from + m <= k < s.len() ==> s[k] != pat[m],
    ensures
        find_from(s, pat, from) is None,
    decreases s.len() + 1 - from,
{
    if from + pat.len() <= s.len() {
        assert(s.subrange(from as int, (from + pat.len()) as int)[m] == s[from + m]);
        lemma_find_absent(s, pat, from + 1, m);
    }
}

proof fn lemma_find_first(s: Seq<char>, pat: Seq<char>, from: nat, q: nat)
    requires
        from <= q,
        q + pat.len() <= s.len(),
        s.subrange(q as int, (q + pat.len()) as int) == pat,
        pat.len() >= 2,
        forall|j: int| from <= j < q ==> !(#[trigger] s[j] == pat[0] && s[j + 1] == pat[1]),
    ensures
        find_from(s, pat, from) == Some(q),
    decreases q - from,
{
    if from < q {
        assert(s.subrange(from as int, (from + pat.len()) as int)[0] == s[from as int]);
        assert(s.subrange(from as int, (from + pat.len()) as int)[1] == s[from + 1int]);
        lemma_find_first(s, pat, from + 1, q);
    }
}

proof fn lemma_cut_prefix(a: Seq<char>, b: Seq<char>)
    requires
        forall|k: int| 0 <= k < a.len() ==> !is_sep(#[trigger] a[k]),
        b.len() > 0,
        is_sep(b[0]),
    ensures
        cut_at_sep(a + b) == a,
    decreases a.len(),
{
    if a.len() == 0 {
        assert(a + b =~= b);
        assert(a =~= Seq::<char>::empty());
    } else {
        assert((a + b).drop_first() =~= a.drop_first() + b);
        assert((a + b)[0] == a[0]);
        lemma_cut_prefix(a.drop_first(), b);
        assert(seq![a[0]] + a.drop_first() =~= a);
    }
}

/// Where each part of the written form stands.
proof fn lemma_text_parts(observer: Side, cands: Seq<Seq<TypeId>>)
    ensures
        ({
            let t = codex_text(observer, cands);
            let d = spec_decimal(observer as nat);
            let r = rows_text(cands, cands.len());
            let dl = d.len();
            let rl = r.len();
            &&& t.len() == 32 + dl + 20 + rl + 6
            &&& forall|k: int| 0 <= k < 32 ==> #[trigger] t[k] == lit_head()[k]
            &&& forall|k: int| 32 <= k < 32 + dl ==> #[trigger] t[k] == d[k - 32]
            &&& forall|k: int| 32 + dl <= k < 52 + dl ==> #[trigger] t[k] == lit_mid()[k - 32 - dl]
            &&& forall|k: int| 52 + dl <= k < 52 + dl + rl ==> #[trigger] t[k] == r[k - 52 - dl]
            &&& forall|k: int| 52 + dl + rl <= k < 58 + dl + rl ==> #[trigger] t[k] == lit_tail()[k - 52 - dl - rl]
        }),
{
    let t = codex_text(observer, cands);
    let h = lit_head();
    let d = spec_decimal(observer as nat);
    let m = lit_mid();
    let r = rows_text(cands, cands.len());
    let l = lit_tail();
    let a1 = h + d;
    let a2 = a1 + m;
    let a3 = a2 + r;
    assert(t == a3 + l);
    assert(h.len() == 32 && m.len() == 20 && l.len() == 6);
}

/// The observer's digits are the only thing the observer key leads to.
#[verifier::spinoff_prover]
#[verifier::rlimit(40)]
proof fn lemma_roundtrip_observer(observer: Side, cands: Seq<Seq<TypeId>>)
    ensures
        codex_observer(codex_text(observer, cands)) == Some(observer),
{
    let t = codex_text(observer, cands);
    let h = lit_head();
    let d = spec_decimal(observer as nat);
    let r = rows_text(cands, cands.len());
    let dl = d.len();
    let rl = r.len();
    lemma_text_parts(observer, cands);
    lemma_parse_decimal(observer);
    lemma_rows_chars(cands, cands.len());
    let rest = t.subrange(32, t.len() as int);
    assert(t =~= h + rest);
    reveal_with_fuel(find_from, 22);
    assert(h.subrange(20, 31) =~= key_observer());
    assert(find_from(h, key_observer(), 0) == Some(20nat));
    lemma_find_prefix(h, rest, key_observer(), 0);
    assert forall|k: int| 31 + 2 <= k < t.len() implies t[k] != key_observer()[2] by {
        if 32 + dl <= k < 52 + dl {
            assert(t[k] == lit_mid()[k - 32 - dl]);
        } else if 52 + dl <= k < 52 + dl + rl {
            assert(row_char(r[k - 52 - dl]));
        } else if k >= 52 + dl + rl {
            assert(t[k] == lit_tail()[k - 52 - dl - rl]);
        } else {
            assert(is_digit(d[k - 32]));
        }
    }
    lemma_find_absent(t, key_observer(), 31, 2);
    let seg = t.subrange(31, t.len() as int);
    assert(after_key(t, key_observer()) == Some(seg));
    assert(seg[0] == ' ');
    assert(seg.drop_first() =~= rest);
    assert(is_space(' '));
    assert(trim_start(seg) == trim_start(rest));
    assert(rest[0] == d[0]);
    assert(is_digit(d[0]));
    assert(trim_start(rest) == rest);
    let y = rest.drop_last();
    assert(rest.last() == t[t.len() - 1]);
    assert(trim_end(rest) == trim_end(y));
    assert(y.last() == t[t.len() - 2]);
    assert(trim_end(y) == y);
    let z = y.subrange(dl as int, y.len() as int);
    assert(y =~= d + z);
    assert(z[0] == ',');
    assert forall|k: int| 0 <= k < d.len() implies !is_sep(#[trigger] d[k]) by {
        assert(is_digit(d[k]));
    }
    lemma_cut_prefix(d, z);
}

/// The hypothesis lists are the only thing the candidates key leads to.
proof fn lemma_roundtrip_candidates(observer: Side, cands: Seq<Seq<TypeId>>)
    ensures
        codex_candidates(codex_text(observer, cands)) == Some(cands),
{
    let t = codex_text(observer, cands);
    let h = lit_head();
    let d = spec_decimal(observer as nat);
    let r = rows_text(cands, cands.len());
    let l = lit_tail();
    let dl = d.len();
    let rl = r.len();
    lemma_text_parts(observer, cands);
    lemma_parse_decimal(observer);
    lemma_rows_chars(cands, cands.len());
    let q: nat = (32 + dl + 4) as nat;
    assert(t.subrange(q as int, q + 13int) =~= key_candidates());
    assert forall|j: int| 0 <= j < q implies !(#[trigger] t[j] == key_candidates()[0] && t[j + 1] == key_candidates()[1]) by {
        if j + 1 < 32 {
            assert(t[j + 1] == h[j + 1]);
        } else if j == 31 {
            assert(t[j] == h[j]);
        } else if j < 32 + dl {
            assert(is_digit(d[j - 32]));
        } else {
            assert(t[j] == lit_mid()[j - 32 - dl]);
        }
    }
    lemma_find_first(t, key_candidates(), 0, q);
    assert forall|k: int| q + 13 + 1 <= k < t.len() implies t[k] != key_candidates()[1] by {
        if k < 52 + dl {
            assert(t[k] == lit_mid()[k - 32 - dl]);
        } else if k < 52 + dl + rl {
            assert(row_char(r[k - 52 - dl]));
        } else {
            assert(t[k] == lit_tail()[k - 52 - dl - rl]);
        }
    }
    lemma_find_absent(t, key_candidates(), q + 13, 1);
    let seg2 = t.subrange(q + 13int, t.len() as int);
    assert(after_key(t, key_candidates()) == Some(seg2));
    let open = seq![' ', '[', '\n'];
    assert(seg2 =~= open + r + l);
    let init: ScanState = (0, Seq::empty(), Seq::empty(), false);
    reveal_with_fuel(scan, 4);
    let s1 = scan(open, init);
    assert(s1 == (1int, Seq::<char>::empty(), Seq::<Seq<TypeId>>::empty(), false));
    lemma_scan_append(open + r, l, init);
    lemma_scan_append(open, r, init);
    lemma_scan_rows(cands, cands.len(), Seq::empty(), Seq::empty());
    let s2 = scan(r, s1);
    assert(Seq::<Seq<TypeId>>::empty() + cands.subrange(0, cands.len() as int) =~= cands);
    assert(s2.2 == cands);
    let s3 = scan(seq![' ', ' ', ']'], s2);
    assert(s3 == (0int, s2.1, cands, true));
    assert(l =~= seq![' ', ' ', ']'] + seq!['\n', '}', '\n']);
    lemma_scan_append(seq![' ', ' ', ']'], seq!['\n', '}', '\n'], s2);
    lemma_scan_done(seq!['\n', '}', '\n'], s3);
}

/// The codex round-trips: reading back the text written for a belief gives
/// its observer and its hypothesis lists, exactly.
pub proof fn lemma_codex_roundtrip(observer: Side, cands: Seq<Seq<TypeId>>)
    ensures
        codex_observer(codex_text(observer, cands)) == Some(observer),
        codex_candidates(codex_text(observer, cands)) == Some(cands),
{
    lemma_roundtrip_observer(observer, cands);
    lemma_roundtrip_candidates(observer, cands);
}


// ---------------------------------------------------------------------
// Rematch
// ---------------------------------------------------------------------

/// The entries of `c` that `known` also holds, in order.
pub open spec fn keep_known(c: Seq<TypeId>, known: Seq<TypeId>) -> Seq<TypeId>
    decreases c.len(),
{
    if c.len() == 0 {
        c
    } else {
        let r = keep_known(c.drop_last(), known);
        if known.contains(c.last()) { r.push(c.last()) } else { r }
    }
}

/// The warm-started lists: where a piece still has several hypotheses and
/// the codex knows something of it, keep the hypotheses the codex also
/// holds, unless none would be left.
pub open spec fn warm_cands(cold: Seq<Seq<TypeId>>, codex: Seq<Seq<TypeId>>) -> Seq<Seq<TypeId>> {
    Seq::new(cold.len(), |i: int| {
        let c = cold[i];
        if i < codex.len() && c.len() > 1 && codex[i].len() > 0 && keep_known(c, codex[i]).len() > 0 {
            keep_known(c, codex[i])
        } else {
            c
        }
    })
}

/// Warm-start a rematch: intersect the fresh cold-open belief with the
/// codex learned in earlier encounters. Empty intersections fall back to
/// the cold-open list (the enemy may have changed that piece).
pub fn warm_start(g: &GameDef, pos: &Position, observer: Side, codex: &Belief) -> (b: Belief)
    requires
        pos.wf(*g),
    ensures
        b.observer == observer,
        cands_of(b) == warm_cands(cold_open_cands(*g, pos.pieces@, observer), cands_of(*codex)),
{
    let mut b = Belief::cold_open(g, pos, observer);
    let ghost cold = cands_of(b);
    let ghost known = cands_of(*codex);
    let n = if b.candidates.len() < codex.candidates.len() { b.candidates.len() } else { codex.candidates.len() };
    let mut i: usize = 0;
    while i < n
        invariant
            b.observer == observer,
            cold == cold_open_cands(*g, pos.pieces@, observer),
            known == cands_of(*codex),
            n <= cold.len(),
            n <= known.len(),
            n == cold.len() || n == known.len(),
            i <= n,
            b.candidates@.len() == cold.len(),
            forall|k: int| 0 <= k < i ==> (#[trigger] b.candidates@[k])@ == warm_cands(cold, known)[k],
            forall|k: int| i <= k < cold.len() ==> (#[trigger] b.candidates@[k])@ == cold[k],
        decreases n - i,
    {
        if b.candidates[i].len() > 1 && codex.candidates[i].len() > 0 {
            let ghost c = cold[i as int];
            let ghost kn = known[i as int];
            let mut inter: Vec<TypeId> = Vec::new();
            let mut k: usize = 0;
            while k < b.candidates[i].len()
                invariant
                    i < b.candidates@.len(),
                    i < codex.candidates@.len(),
                    c == b.candidates@[i as int]@,
                    kn == codex.candidates@[i as int]@,
                    k <= c.len(),
                    inter@ == keep_known(c.subrange(0, k as int), kn),
                decreases c.len() - k,
            {
                let t = b.candidates[i][k];
                let ghost sub = c.subrange(0, k + 1);
                assert(sub.drop_last() =~= c.subrange(0, k as int));
                assert(sub.last() == t);
                if contains_type(&codex.candidates[i], t) {
                    inter.push(t);
                }
                k += 1;
            }
            assert(c.subrange(0, c.len() as int) =~= c);
            if inter.len() > 0 {
                b.candidates.set(i, inter);
            }
        }
        i += 1;
    }
    assert forall|k: int| n <= k < cold.len() implies (#[trigger] b.candidates@[k])@ == warm_cands(cold, known)[k] by {
        assert(k >= known.len());
    }
    assert(cands_of(b) =~= warm_cands(cold, known));
    b
}


proof fn lemma_keep_known_sublist(c: Seq<TypeId>, known: Seq<TypeId>) -> (ix: Seq<int>)
    ensures
        sublist_by(keep_known(c, known), c, ix),
        forall|k: int| 0 <= k < ix.len() ==> #[trigger] ix[k] < c.len(),
    decreases c.len(),
{
    if c.len() == 0 {
        Seq::empty()
    } else {
        let ix0 = lemma_keep_known_sublist(c.drop_last(), known);
        if known.contains(c.last()) {
            let ix = ix0.push(c.len() - 1);
            assert(sublist_by(keep_known(c, known), c, ix));
            ix
        } else {
            ix0
        }
    }
}

/// A rematch starts at least as sharp as a cold open: every warm-started
/// list is an order-preserving selection of the cold-open hypotheses, no
/// list that had hypotheses loses them all, and an empty codex changes
/// nothing.
pub proof fn lemma_warm_start_narrows(cold: Seq<Seq<TypeId>>, codex: Seq<Seq<TypeId>>)
    ensures
        warm_cands(cold, codex).len() == cold.len(),
        forall|i: int| 0 <= i < cold.len() ==> is_sublist(#[trigger] warm_cands(cold, codex)[i], cold[i]),
        forall|i: int| 0 <= i < cold.len() && cold[i].len() > 0 ==> #[trigger] warm_cands(cold, codex)[i].len() > 0,
        codex.len() == 0 ==> warm_cands(cold, codex) == cold,
{
    let w = warm_cands(cold, codex);
    assert forall|i: int| 0 <= i < cold.len() implies is_sublist(#[trigger] w[i], cold[i]) by {
        let c = cold[i];
        if i < codex.len() && c.len() > 1 && codex[i].len() > 0 && keep_known(c, codex[i]).len() > 0 {
            let ix = lemma_keep_known_sublist(c, codex[i]);
            assert(sublist_by(w[i], c, ix));
        } else {
            let ix = Seq::new(c.len(), |k: int| k);
            assert(sublist_by(w[i], c, ix));
        }
    }
    if codex.len() == 0 {
        assert(w =~= cold);
    }
}

} // verus!
