//! Chess FEN parsing — the acceptance suite's reference positions.
//! Castling rights map onto the engine's `moved` flags.

use vstd::prelude::*;
use vstd::string::*;
use crate::codex::{chars_of, is_space, space};
use crate::game::{GameDef, Side, TypeId};
use crate::moves::{NO_SQ, push_char};
use crate::position::{Loc, Piece, PosView, Position, claimed_before, piece_ok, view_wf};
use crate::terrain_defs::T_NONE;
use crate::zobrist::keyed;

verus! {

// ---------------------------------------------------------------------
// The format
// ---------------------------------------------------------------------

/// The whitespace-separated words of `s`, as `split_whitespace` yields them.
pub open spec fn words(s: Seq<char>) -> Seq<Seq<char>>
    decreases s.len(),
{
    if s.len() == 0 {
        Seq::empty()
    } else {
        let w = words(s.drop_last());
        let c = s.last();
        if is_space(c) {
            w
        } else if s.len() >= 2 && !is_space(s[s.len() - 2]) {
            w.update(w.len() - 1, w.last().push(c))
        } else {
            w.push(seq![c])
        }
    }
}

/// ASCII upper case.
pub open spec fn upper(c: char) -> char {
    if 'a' <= c && c <= 'z' { ((c as u32) - 32) as char } else { c }
}

/// The first type at or after `t` whose glyph is `c` in upper case.
pub open spec fn glyph_from(g: GameDef, c: char, t: nat) -> Option<TypeId>
    decreases g.types@.len() - t,
{
    if t >= g.types@.len() {
        None
    } else if g.types@[t as int].glyph == upper(c) {
        Some(t as TypeId)
    } else {
        glyph_from(g, c, t + 1)
    }
}

/// The placement reader's state: file, rank, the pieces so far (all
/// flagged as moved), and the error that stopped it, if any.
pub type PlaceState = (int, int, Seq<(TypeId, Side, u16, bool)>, Option<Seq<char>>);

pub open spec fn place_step(g: GameDef, st: PlaceState, c: char) -> PlaceState {
    let (x, y, list, err) = st;
    if err is Some {
        st
    } else if c == '/' {
        (0, y - 1, list, err)
    } else if '1' <= c && c <= '9' {
        (x + ((c as u32) - 48), y, list, err)
    } else {
        match glyph_from(g, c, 0) {
            None => (x, y, list, Some("bad glyph: "@ + seq![c])),
            Some(t) => if x < 0 || y < 0 || x >= g.board.w || y >= g.board.h {
                (x, y, list, Some("placement out of bounds"@))
            } else {
                let side: Side = if 'A' <= c && c <= 'Z' { 0 } else { 1 };
                (x + 1, y, list.push((t, side, g.board.spec_sq(x, y) as u16, true)), err)
            },
        }
    }
}

pub open spec fn place_scan(g: GameDef, s: Seq<char>, st: PlaceState) -> PlaceState
    decreases s.len(),
{
    if s.len() == 0 { st } else { place_scan(g, s.drop_first(), place_step(g, st, s[0])) }
}

/// The placement field read from the top rank down.
pub open spec fn fen_placement(g: GameDef, ws: Seq<Seq<char>>) -> PlaceState {
    place_scan(g, ws[0], (0, g.board.h - 1, Seq::empty(), None))
}

/// The side to move: `w`, `b`, or white when the field is missing.
pub open spec fn fen_stm(ws: Seq<Seq<char>>) -> Option<Side> {
    if ws.len() < 2 {
        Some(0)
    } else if ws[1] == seq!['w'] {
        Some(0)
    } else if ws[1] == seq!['b'] {
        Some(1)
    } else {
        None
    }
}

/// The castling field (nothing when missing).
pub open spec fn fen_castling(ws: Seq<Seq<char>>) -> Seq<char> {
    if ws.len() >= 3 { ws[2] } else { Seq::empty() }
}

/// The en-passant square: `-` or a missing field is none; a file letter
/// and a rank digit on the board name a square (anything after them is
/// ignored); anything else is refused.
pub open spec fn fen_ep(g: GameDef, ws: Seq<Seq<char>>) -> Option<u16> {
    if ws.len() < 4 || ws[3] == seq!['-'] {
        Some(NO_SQ)
    } else {
        let e = ws[3];
        if e.len() >= 2 && (e[0] as u32) >= 97 && ((e[0] as u32) - 97) < g.board.w
            && (e[1] as u32) >= 49 && ((e[1] as u32) - 49) < g.board.h {
            Some(g.board.spec_sq((e[0] as u32) - 97, (e[1] as u32) - 49) as u16)
        } else {
            None
        }
    }
}

/// Is `sq` the square `(x, y)` of the board?
pub open spec fn is_square(g: GameDef, sq: int, x: int, y: int) -> bool {
    x < g.board.w && y < g.board.h && sq == g.board.spec_sq(x, y)
}

/// The squares a castling letter restores: the king's and the rook's home
/// squares on that side's back rank.
pub open spec fn castle_restores(g: GameDef, c: char, sq: int) -> bool {
    let top = g.board.h - 1;
    ||| c == 'K' && (is_square(g, sq, 4, 0) || is_square(g, sq, 7, 0))
    ||| c == 'Q' && (is_square(g, sq, 4, 0) || is_square(g, sq, 0, 0))
    ||| c == 'k' && (is_square(g, sq, 4, top) || is_square(g, sq, 7, top))
    ||| c == 'q' && (is_square(g, sq, 4, top) || is_square(g, sq, 0, top))
}

pub open spec fn castle_restored(g: GameDef, cast: Seq<char>, sq: int) -> bool {
    exists|k: int| 0 <= k < cast.len() && castle_restores(g, #[trigger] cast[k], sq)
}

/// Piece `k` of the placement list: on its square unless an earlier entry
/// took it, unmoved exactly where a castling letter restores its square.
pub open spec fn fen_piece(g: GameDef, list: Seq<(TypeId, Side, u16, bool)>, cast: Seq<char>, k: int) -> Piece {
    let e = list[k];
    let on = !claimed_before(list, k, e.2);
    Piece {
        t: e.0,
        base: e.0,
        side: e.1,
        loc: if on { Loc::Board(e.2) } else { Loc::Dead },
        moved: !(on && castle_restored(g, cast, e.2 as int)),
    }
}

/// Why a FEN is refused, if it is.
pub open spec fn fen_error(g: GameDef, s: Seq<char>) -> Option<Seq<char>> {
    let ws = words(s);
    if ws.len() == 0 {
        Some("empty FEN"@)
    } else if fen_stm(ws) is None {
        Some("bad side: "@ + ws[1])
    } else if fen_placement(g, ws).3 is Some {
        fen_placement(g, ws).3
    } else if fen_ep(g, ws) is None {
        Some("bad en-passant square"@)
    } else {
        None
    }
}

// ---------------------------------------------------------------------
// Reading it
// ---------------------------------------------------------------------

proof fn lemma_place_done(g: GameDef, s: Seq<char>, st: PlaceState)
    requires
        st.3 is Some,
    ensures
        place_scan(g, s, st) == st,
    decreases s.len(),
{
    if s.len() > 0 {
        lemma_place_done(g, s.drop_first(), place_step(g, st, s[0]));
    }
}

/// The word ranges of `v`: `(start, end)` of each maximal run of non-space
/// characters, in order.
fn word_ranges(v: &Vec<char>) -> (r: Vec<(usize, usize)>)
    ensures
        r@.len() == words(v@).len(),
        forall|k: int| 0 <= k < r@.len() ==> (#[trigger] r@[k]).0 < r@[k].1 <= v@.len()
            && words(v@)[k] == v@.subrange(r@[k].0 as int, r@[k].1 as int),
{
    let n = v.len();
    let mut r: Vec<(usize, usize)> = Vec::new();
    let mut i: usize = 0;
    while i < n
        invariant
            n == v@.len(),
            i <= n,
            r@.len() == words(v@.subrange(0, i as int)).len(),
            forall|k: int| 0 <= k < r@.len() ==> (#[trigger] r@[k]).0 < r@[k].1 <= i
                && words(v@.subrange(0, i as int))[k] == v@.subrange(r@[k].0 as int, r@[k].1 as int),
            i > 0 && !is_space(v@[i - 1]) ==> r@.len() > 0 && r@[r@.len() - 1].1 == i,
        decreases n - i,
    {
        let ghost pre = v@.subrange(0, i as int);
        let ghost nxt = v@.subrange(0, i + 1);
        assert(nxt.drop_last() =~= pre);
        assert(nxt.last() == v@[i as int]);
        if space(v[i]) {
        } else if i > 0 && !space(v[i - 1]) {
            assert(nxt[nxt.len() - 2] == v@[i - 1]);
            let last = r.len() - 1;
            let (a, _) = r[last];
            r.set(last, (a, i + 1));
            proof {
                let w = words(pre);
                assert(words(nxt) == w.update(w.len() - 1, w.last().push(v@[i as int])));
                assert(v@.subrange(a as int, i + 1) =~= v@.subrange(a as int, i as int).push(v@[i as int]));
            }
        } else {
            r.push((i, i + 1));
            proof {
                if i > 0 {
                    assert(nxt[nxt.len() - 2] == v@[i - 1]);
                }
                assert(v@.subrange(i as int, i + 1) =~= seq![v@[i as int]]);
            }
        }
        i += 1;
    }
    assert(v@.subrange(0, n as int) =~= v@);
    r
}

/// The type whose glyph is `c` (case-insensitive for ASCII letters).
fn glyph_type(g: &GameDef, c: char) -> (r: Option<TypeId>)
    requires
        g.types@.len() < 256,
    ensures
        r == glyph_from(*g, c, 0),
        r matches Some(t) ==> (t as int) < g.types@.len(),
{
    let up: char = if 'a' <= c && c <= 'z' { (((c as u32) - 32) as u8) as char } else { c };
    assert(up == upper(c));
    let mut t: usize = 0;
    while t < g.types.len()
        invariant
            g.types@.len() < 256,
            t <= g.types@.len(),
            up == upper(c),
            glyph_from(*g, c, 0) == glyph_from(*g, c, t as nat),
        decreases g.types@.len() - t,
    {
        if g.types[t].glyph == up {
            return Some(t as TypeId);
        }
        t += 1;
    }
    None
}

/// The side-to-move word `v[s0..s1]`: `w` is white, `b` is black.
fn read_side(v: &Vec<char>, s0: usize, s1: usize) -> (r: Result<Side, String>)
    requires
        s0 < s1 <= v@.len(),
    ensures
        ({
            let wd = v@.subrange(s0 as int, s1 as int);
            match r {
                Ok(x) => (wd == seq!['w'] && x == 0) || (wd == seq!['b'] && x == 1),
                Err(e) => wd != seq!['w'] && wd != seq!['b'] && e@ == "bad side: "@ + wd,
            }
        }),
{
    let ghost wd = v@.subrange(s0 as int, s1 as int);
    if s1 - s0 == 1 && v[s0] == 'w' {
        assert(wd =~= seq!['w']);
        return Ok(0);
    }
    if s1 - s0 == 1 && v[s0] == 'b' {
        assert(wd =~= seq!['b']);
        return Ok(1);
    }
    assert(wd != seq!['w']) by {
        if wd == seq!['w'] {
            assert(wd.len() == 1 && wd[0] == 'w');
            assert(wd[0] == v@[s0 as int]);
        }
    }
    assert(wd != seq!['b']) by {
        if wd == seq!['b'] {
            assert(wd.len() == 1 && wd[0] == 'b');
            assert(wd[0] == v@[s0 as int]);
        }
    }
    let mut e = String::from_str("bad side: ");
    let mut k = s0;
    assert(v@.subrange(s0 as int, s0 as int) =~= Seq::<char>::empty());
    while k < s1
        invariant
            s0 <= k <= s1 <= v@.len(),
            e@ == "bad side: "@ + v@.subrange(s0 as int, k as int),
        decreases s1 - k,
    {
        push_char(&mut e, v[k]);
        k += 1;
        assert(e@ =~= "bad side: "@ + v@.subrange(s0 as int, k as int));
    }
    Err(e)
}

/// The placement word `v[p0..p1]` read onto the board, or why it is refused.
fn read_placement(g: &GameDef, v: &Vec<char>, p0: usize, p1: usize) -> (r: Result<Vec<(TypeId, Side, u16, bool)>, String>)
    requires
        g.wf(),
        g.sides >= 2,
        p0 <= p1 <= v@.len(),
        v@.len() < 0x7fff_fff0,
    ensures
        ({
            let sc = place_scan(*g, v@.subrange(p0 as int, p1 as int), (0, g.board.h - 1, Seq::empty(), None));
            match r {
                Ok(list) => {
                    &&& sc.3 is None
                    &&& sc.2 == list@
                    &&& list@.len() <= p1 - p0
                    &&& forall|k: int| 0 <= k < list@.len() ==> {
                        let e = #[trigger] list@[k];
                        &&& (e.0 as int) < g.ntypes()
                        &&& e.1 < g.sides
                        &&& (e.2 as int) < g.ncells()
                        &&& e.3
                    }
                },
                Err(e) => sc.3 == Some(e@),
            }
        }),
{
    let w = g.board.w as i64;
    let h = g.board.h as i64;
    let mut list: Vec<(TypeId, Side, u16, bool)> = Vec::new();
    let mut y: i64 = h - 1;
    let mut x: i64 = 0;
    let mut i = p0;
    while i < p1
        invariant
            g.wf(),
            g.sides >= 2,
            p0 <= i <= p1 <= v@.len(),
            v@.len() < 0x7fff_fff0,
            w == g.board.w,
            h == g.board.h,
            -(i - p0) <= y + 1 - h <= 0,
            0 <= x <= 9 * (i - p0),
            list@.len() <= i - p0,
            forall|k: int| 0 <= k < list@.len() ==> {
                let e = #[trigger] list@[k];
                &&& (e.0 as int) < g.ntypes()
                &&& e.1 < g.sides
                &&& (e.2 as int) < g.ncells()
                &&& e.3
            },
            place_scan(*g, v@.subrange(i as int, p1 as int), (x as int, y as int, list@, None))
                == place_scan(*g, v@.subrange(p0 as int, p1 as int), (0, g.board.h - 1, Seq::empty(), None)),
        decreases p1 - i,
    {
        let c = v[i];
        let ghost st: PlaceState = (x as int, y as int, list@, None);
        let ghost rest = v@.subrange(i as int, p1 as int);
        assert(rest.drop_first() =~= v@.subrange(i + 1, p1 as int));
        assert(rest[0] == c);
        if c == '/' {
            y -= 1;
            x = 0;
        } else if '1' <= c && c <= '9' {
            x += (c as u32 - 48) as i64;
        } else {
            let t = match glyph_type(g, c) {
                Some(t) => t,
                None => {
                    let mut e = String::from_str("bad glyph: ");
                    push_char(&mut e, c);
                    proof {
                        let s1 = place_step(*g, st, c);
                        assert(e@ =~= "bad glyph: "@ + seq![c]);
                        assert(s1.3 == Some(e@));
                        assert(place_scan(*g, rest, st) == place_scan(*g, rest.drop_first(), s1));
                        lemma_place_done(*g, v@.subrange(i + 1, p1 as int), s1);
                    }
                    return Err(e);
                },
            };
            let side: u8 = if 'A' <= c && c <= 'Z' { 0 } else { 1 };
            if x < 0 || y < 0 || x >= w || y >= h {
                proof {
                    let s1 = place_step(*g, st, c);
                    assert(s1.3 == Some("placement out of bounds"@));
                    assert(place_scan(*g, rest, st) == place_scan(*g, rest.drop_first(), s1));
                    lemma_place_done(*g, v@.subrange(i + 1, p1 as int), s1);
                }
                return Err(String::from_str("placement out of bounds"));
            }
            proof { crate::game::lemma_sq_in_board(g.board, x as int, y as int); }
            let sq = g.board.sq(x as u8, y as u8);
            list.push((t, side, sq, true));
            x += 1;
        }
        i += 1;
    }
    assert(v@.subrange(i as int, p1 as int) =~= Seq::<char>::empty());
    Ok(list)
}

/// Parse a standard chess FEN against the chess game: piece placement,
/// side to move, castling rights and the en-passant square. Missing trailing
/// fields default to white to move, no castling, no en-passant square.
pub fn chess_from_fen(g: &GameDef, fen: &str) -> (r: Result<Position, String>)
    requires
        g.wf(),
        g.sides >= 2,
        fen@.len() < 0x7fff_fff0,
    ensures
        match r {
            Ok(pos) => {
                let ws = words(fen@);
                let list = fen_placement(*g, ws).2;
                &&& fen_error(*g, fen@) is None
                &&& pos.wf(*g)
                &&& keyed(g.zobrist, pos@)
                &&& pos.stm == fen_stm(ws).unwrap()
                &&& pos.ep == fen_ep(*g, ws).unwrap()
                &&& pos.pieces@ == Seq::new(list.len(), |k: int| fen_piece(*g, list, fen_castling(ws), k))
                &&& pos.hp@ == Seq::new(list.len(), |k: int| g.types@[list[k].0 as int].max_hp)
                &&& forall|sq: int| 0 <= sq < pos.terrain@.len() ==> pos.terrain@[sq] == T_NONE
                &&& forall|s: int, t: int| 0 <= s < g.sides && 0 <= t < g.ntypes() ==> #[trigger] pos@.hands[s][t] == 0
            },
            Err(e) => fen_error(*g, fen@) == Some(e@),
        },
        ({
            let ws = words(fen@);
            (ws.len() >= 4 && ws[3].len() >= 2
                && 97 <= ws[3][0] as u32 && (ws[3][0] as u32) < 97 + g.board.w
                && 49 <= ws[3][1] as u32 && (ws[3][1] as u32) < 49 + g.board.h) ==> match r {
                Ok(pos) => pos.ep as int == g.board.spec_sq(ws[3][0] as u32 - 97, ws[3][1] as u32 - 49),
                Err(_) => fen_stm(ws) is None || fen_placement(*g, ws).3 is Some,
            }
        }),
{
    proof {
        let ws = words(fen@);
        if ws.len() >= 4 && ws[3].len() >= 2
            && 97 <= ws[3][0] as u32 && (ws[3][0] as u32) < 97 + g.board.w
            && 49 <= ws[3][1] as u32 && (ws[3][1] as u32) < 49 + g.board.h {
            law_fen_ep_square(*g, fen@);
            crate::game::lemma_sq_in_board(g.board, ws[3][0] as u32 - 97, ws[3][1] as u32 - 49);
            crate::game::lemma_ncells_bound(g.board);
        }
    }
    let v = chars_of(fen);
    let ghost ws = words(fen@);
    let rs = word_ranges(&v);
    if rs.len() == 0 {
        return Err(String::from_str("empty FEN"));
    }
    let stm: u8 = if rs.len() < 2 {
        0
    } else {
        let (s0, s1) = rs[1];
        assert(ws[1] == v@.subrange(s0 as int, s1 as int));
        assert(seq!['b'][0] != seq!['w'][0]);
        match read_side(&v, s0, s1) {
            Ok(side) => side,
            Err(e) => return Err(e),
        }
    };
    assert(fen_stm(ws) == Some(stm));
    let (p0, p1) = rs[0];
    assert(v@.subrange(p0 as int, p1 as int) == ws[0]);
    let list = match read_placement(g, &v, p0, p1) {
        Ok(list) => list,
        Err(e) => return Err(e),
    };
    let mut pos = Position::from_pieces(g, &list, stm);
    let ghost base = pos@;
    // Castling rights.
    let ghost cast = fen_castling(ws);
    let ghost lv = list@;
    assert(pos.pieces@ =~= Seq::new(lv.len(), |j: int| fen_piece(*g, lv, Seq::empty(), j))) by {
        assert forall|j: int| 0 <= j < lv.len() implies pos.pieces@[j]
            == fen_piece(*g, lv, Seq::empty(), j) by {
            assert(list@[j] == lv[j]);
        }
    }
    if rs.len() >= 3 {
        let (c0, c1) = rs[2];
        let mut k = c0;
        assert(v@.subrange(c0 as int, c1 as int) == cast);
        assert(cast.subrange(0, 0) =~= Seq::<char>::empty());
        while k < c1
            invariant
                g.wf(),
                c0 <= k <= c1 <= v@.len(),
                v@.subrange(c0 as int, c1 as int) == cast,
                view_wf(pos@, *g),
                pos@ == (PosView { pieces: pos@.pieces, ..base }),
                pos.pieces@ == Seq::new(lv.len(), |j: int| fen_piece(*g, lv, cast.subrange(0, k - c0), j)),
            decreases c1 - k,
        {
            let c = v[k];
            let ghost pre = cast.subrange(0, k - c0);
            let ghost nxt = cast.subrange(0, k + 1 - c0);
            let ghost before = pos.pieces@;
            assert(nxt =~= pre.push(c));
            restore_castle(g, &mut pos, c);
            proof {
                assert forall|j: int| 0 <= j < lv.len() implies pos.pieces@[j]
                    == fen_piece(*g, lv, nxt, j) by {
                    let e = lv[j];
                    assert(before[j] == fen_piece(*g, lv, pre, j));
                    if castle_restored(*g, nxt, e.2 as int) && !castle_restored(*g, pre, e.2 as int) {
                        let m = choose|m: int| 0 <= m < nxt.len() && castle_restores(*g, #[trigger] nxt[m], e.2 as int);
                        assert(m == pre.len());
                    }
                    if castle_restored(*g, pre, e.2 as int) {
                        let m = choose|m: int| 0 <= m < pre.len() && castle_restores(*g, #[trigger] pre[m], e.2 as int);
                        assert(nxt[m] == pre[m]);
                    }
                    if castle_restores(*g, c, e.2 as int) {
                        assert(nxt[pre.len() as int] == c);
                    }
                }
                assert(pos.pieces@ =~= Seq::new(lv.len(), |j: int| fen_piece(*g, lv, nxt, j)));
            }
            k += 1;
        }
        assert(cast.subrange(0, c1 - c0) =~= cast);
    } else {
        assert(cast =~= Seq::<char>::empty());
    }
    // En passant.
    if rs.len() >= 4 {
        let (e0, e1) = rs[3];
        let ghost ew = ws[3];
        assert(v@.subrange(e0 as int, e1 as int) == ew);
        if e1 - e0 == 1 && v[e0] == '-' {
            assert(ew =~= seq!['-']);
        } else {
            assert(ew != seq!['-']) by {
                if ew == seq!['-'] { assert(ew[0] == v@[e0 as int]); }
            }
            if e1 - e0 < 2 {
                return Err(String::from_str("bad en-passant square"));
            }
            let file = v[e0] as u32;
            let rank = v[e0 + 1] as u32;
            if file < 97 || rank < 49 {
                return Err(String::from_str("bad en-passant square"));
            }
            let ex = file - 97;
            let ey = rank - 49;
            if ex >= g.board.w as u32 || ey >= g.board.h as u32 {
                return Err(String::from_str("bad en-passant square"));
            }
            proof { crate::game::lemma_sq_in_board(g.board, ex as int, ey as int); }
            pos.ep = g.board.sq(ex as u8, ey as u8);
        }
    }
    proof { crate::zobrist::lemma_wf_fits(pos@, *g); }
    pos.rehash(g);
    proof {
        assert(pos.pieces@ =~= Seq::new(lv.len(), |k: int| fen_piece(*g, lv, cast, k)));
        assert(pos.hp@ =~= Seq::new(lv.len(), |k: int| g.types@[lv[k].0 as int].max_hp));
    }
    Ok(pos)
}

/// Give back the castling right named by `c`: the pieces on its king and
/// rook home squares count as unmoved. Any other character changes nothing.
fn restore_castle(g: &GameDef, pos: &mut Position, c: char)
    requires
        g.wf(),
        view_wf(old(pos)@, *g),
    ensures
        view_wf(final(pos)@, *g),
        final(pos)@ == (PosView { pieces: final(pos)@.pieces, ..old(pos)@ }),
        final(pos).pieces@.len() == old(pos).pieces@.len(),
        forall|j: int| 0 <= j < old(pos).pieces@.len() ==> #[trigger] final(pos).pieces@[j] == (
            if old(pos).pieces@[j].loc matches Loc::Board(q) && castle_restores(*g, c, q as int) {
                Piece { moved: false, ..old(pos).pieces@[j] }
            } else {
                old(pos).pieces@[j]
            }),
{
    let ghost p0 = pos.pieces@;
    let back = g.board.h - 1;
    let (rook, rank): (u8, u8) = if c == 'K' {
        (7, 0)
    } else if c == 'Q' {
        (0, 0)
    } else if c == 'k' {
        (7, back)
    } else if c == 'q' {
        (0, back)
    } else {
        return;
    };
    clear_moved(g, pos, 4, rank);
    let ghost p1 = pos.pieces@;
    clear_moved(g, pos, rook, rank);
    proof {
        assert forall|j: int| 0 <= j < p0.len() implies #[trigger] pos.pieces@[j] == (
            if p0[j].loc matches Loc::Board(q) && castle_restores(*g, c, q as int) {
                Piece { moved: false, ..p0[j] }
            } else {
                p0[j]
            }) by {
            assert(p1[j].loc == p0[j].loc);
        }
    }
}

/// Clear the `moved` flag of the piece standing on `(x, y)`, if any.
fn clear_moved(g: &GameDef, pos: &mut Position, x: u8, y: u8)
    requires
        view_wf(old(pos)@, *g),
    ensures
        view_wf(final(pos)@, *g),
        final(pos)@ == (PosView { pieces: final(pos)@.pieces, ..old(pos)@ }),
        final(pos).pieces@.len() == old(pos).pieces@.len(),
        forall|j: int| 0 <= j < old(pos).pieces@.len() ==> #[trigger] final(pos).pieces@[j] == (
            if old(pos).pieces@[j].loc matches Loc::Board(q) && is_square(*g, q as int, x as int, y as int) {
                Piece { moved: false, ..old(pos).pieces@[j] }
            } else {
                old(pos).pieces@[j]
            }),
{
    let ghost v0 = pos@;
    if x >= g.board.w || y >= g.board.h {
        return;
    }
    proof { crate::game::lemma_sq_in_board(g.board, x as int, y as int); }
    let sq = g.board.sq(x, y);
    let e = pos.board[sq as usize];
    if e >= 0 {
        let i = e as usize;
        let p = pos.pieces[i];
        let q = Piece { moved: false, ..p };
        proof { assert(piece_ok(pos.pieces@[i as int], *g)); }
        pos.pieces.set(i, q);
        proof {
            crate::position::lemma_retag_wf(v0, *g, i as int, q);
            assert(pos@ =~= (PosView { pieces: v0.pieces.update(i as int, q), ..v0 }));
            assert forall|j: int| 0 <= j < v0.pieces.len() implies #[trigger] pos.pieces@[j] == (
                if v0.pieces[j].loc matches Loc::Board(qq) && is_square(*g, qq as int, x as int, y as int) {
                    Piece { moved: false, ..v0.pieces[j] }
                } else {
                    v0.pieces[j]
                }) by {
                assert(crate::position::on_board_at(v0.pieces[j], v0.board, j));
            }
        }
    } else {
        proof {
            assert forall|j: int| 0 <= j < v0.pieces.len() implies !((#[trigger] v0.pieces[j]).loc matches Loc::Board(qq)
                && is_square(*g, qq as int, x as int, y as int)) by {
                assert(crate::position::on_board_at(v0.pieces[j], v0.board, j));
            }
        }
    }
}

/// An en-passant field that starts with a file letter and a rank digit on
/// the board names that square: such a FEN is refused only for its side
/// or its placement, and otherwise its en-passant square is
/// `(letter - 'a', digit - '1')`, whatever the rank.
pub proof fn law_fen_ep_square(g: GameDef, s: Seq<char>)
    requires
        words(s).len() >= 4,
        words(s)[3].len() >= 2,
        97 <= words(s)[3][0] as u32 && (words(s)[3][0] as u32) < 97 + g.board.w,
        49 <= words(s)[3][1] as u32 && (words(s)[3][1] as u32) < 49 + g.board.h,
    ensures
        fen_error(g, s) is None <==> (fen_stm(words(s)) is Some && fen_placement(g, words(s)).3 is None),
        fen_ep(g, words(s)) == Some(g.board.spec_sq(words(s)[3][0] as u32 - 97, words(s)[3][1] as u32 - 49) as u16),
{
    let e = words(s)[3];
    assert(e != seq!['-']) by {
        if e == seq!['-'] {
            assert(e[0] == '-');
        }
    }
}

} // verus!
