//! Zobrist hashing. The key covers ⟨type, square, state-bucket⟩, per-cell
//! terrain code, side-to-move, hands, and the en-passant square. The state
//! bucket quantizes the instance state that affects play — the `moved` flag
//! (castling rights) and HP (hit-count armor).
//!
//! The tables live in `GameDef`; `Position.hash` is maintained
//! incrementally by make/unmake (unmake restores the recorded prior key).

use vstd::prelude::*;
use crate::rng::{Rng, spec_output};
use crate::game::GameDef;
use crate::position::{Loc, PosView, Position, view_wf, piece_ok};

verus! {

pub const MAX_HAND: usize = 20;
/// State buckets: bit 0 = moved flag, bits 1..4 = HP clamped to 0..=7.
pub const BUCKETS: usize = 16;
/// Terrain codes keyed per cell: every `u8` code (the stdlib band, the
/// custom band, and beyond) has its own key; `T_NONE` hashes to nothing.
pub const TERRAIN_CODES: usize = 256;

pub const ZOBRIST_SEED: u64 = 0xB07B0A2D5EED0001u64;

#[derive(Clone, Debug)]
pub struct Zobrist {
    /// [type][side][bucket][square]
    piece: Vec<u64>,
    /// [terrain-code][square]
    terrain: Vec<u64>,
    /// [side][type][count 1..=MAX_HAND]
    hand: Vec<u64>,
    stm: Vec<u64>,
    /// [square] en-passant target marker
    ep: Vec<u64>,
    ncells: usize,
    ntypes: usize,
    nsides: usize,
}

/// The state bucket of a piece: moved flag plus HP clamped to 0..=7.
pub open spec fn spec_bucket(moved: bool, hp: i16) -> int {
    (if moved { 1int } else { 0int }) + 2 * (if hp < 0 { 0int } else if hp > 7 { 7int } else { hp as int })
}

pub open spec fn table_sizes_fit(ncells: int, ntypes: int, nsides: int) -> bool {
    ntypes * nsides * 16 * ncells + 256 * ncells + nsides * ntypes * 20 + nsides + ncells
        <= usize::MAX
}

impl Zobrist {
    pub closed spec fn ncells(self) -> nat {
        self.ncells as nat
    }

    pub closed spec fn ntypes(self) -> nat {
        self.ntypes as nat
    }

    pub closed spec fn nsides(self) -> nat {
        self.nsides as nat
    }

    pub closed spec fn wf(self) -> bool {
        &&& table_sizes_fit(self.ncells as int, self.ntypes as int, self.nsides as int)
        &&& self.piece@.len() == self.ntypes * self.nsides * 16 * self.ncells
        &&& self.terrain@.len() == 256 * self.ncells
        &&& self.hand@.len() == self.nsides * self.ntypes * 20
        &&& self.stm@.len() == self.nsides
        &&& self.ep@.len() == self.ncells
    }

    pub closed spec fn spec_piece_key(self, t: int, side: int, moved: bool, hp: i16, sq: int) -> u64 {
        self.piece@[((t * self.nsides + side) * 16 + spec_bucket(moved, hp)) * self.ncells + sq]
    }

    pub closed spec fn spec_terrain_key(self, terrain: u8, sq: int) -> u64 {
        if terrain == 0 { 0 } else { self.terrain@[terrain as int * self.ncells + sq] }
    }

    pub closed spec fn spec_hand_key(self, side: int, t: int, count: int) -> u64 {
        if count == 0 {
            0
        } else {
            self.hand@[(side * self.ntypes + t) * 20 + (if count - 1 < 19 { count - 1 } else { 19 })]
        }
    }

    pub closed spec fn spec_stm_key(self, side: int) -> u64 {
        self.stm@[side]
    }

    pub closed spec fn spec_ep_key(self, ep: u16) -> u64 {
        if ep == 65535 { 0 } else { self.ep@[ep as int] }
    }

    /// Every key is drawn from the fixed-seed stream, tables in order:
    /// piece, terrain, hand, side-to-move, en passant.
    pub closed spec fn drawn_from_stream(self) -> bool {
        let np = self.piece@.len();
        let nt = self.terrain@.len();
        let nh = self.hand@.len();
        let ns = self.stm@.len();
        &&& forall|k: int| 0 <= k < np ==> self.piece@[k] == spec_output(ZOBRIST_SEED, (k + 1) as nat)
        &&& forall|k: int| 0 <= k < nt ==> self.terrain@[k] == spec_output(ZOBRIST_SEED, (np + k + 1) as nat)
        &&& forall|k: int| 0 <= k < nh ==> self.hand@[k] == spec_output(ZOBRIST_SEED, (np + nt + k + 1) as nat)
        &&& forall|k: int| 0 <= k < ns ==> self.stm@[k] == spec_output(ZOBRIST_SEED, (np + nt + nh + k + 1) as nat)
        &&& forall|k: int| 0 <= k < self.ep@.len() ==> self.ep@[k] == spec_output(ZOBRIST_SEED, (np + nt + nh + ns + k + 1) as nat)
    }

    pub fn for_shape(ncells: usize, ntypes: usize, nsides: u8) -> (z: Self)
        requires
            table_sizes_fit(ncells as int, ntypes as int, nsides as int),
        ensures
            z.wf(),
            z.ncells() == ncells,
            z.ntypes() == ntypes,
            z.nsides() == nsides,
            z.drawn_from_stream(),
    {
        let mut rng = Rng::new(ZOBRIST_SEED);
        let ns = nsides as usize;
        proof {
            assert(ntypes * ns * 16 * ncells <= usize::MAX);
            assert(ntypes * ns >= 0) by (nonlinear_arith) requires ntypes >= 0, ns >= 0;
            assert(ntypes * ns * 16 >= 0) by (nonlinear_arith) requires ntypes * ns >= 0;
            assert(ntypes * ns * 16 * ncells >= 0) by (nonlinear_arith) requires ntypes * ns * 16 >= 0, ncells >= 0;
            assert(256 * ncells >= 0);
            assert(ns * ntypes * 20 >= 0) by (nonlinear_arith) requires ntypes >= 0, ns >= 0;
        }
        let np = ntypes * ns * 16 * ncells;
        let piece = fill(&mut rng, np, 0);
        let nt = 256 * ncells;
        let terrain = fill(&mut rng, nt, np);
        let nh = ns * ntypes * MAX_HAND;
        let hand = fill(&mut rng, nh, np + nt);
        let stm = fill(&mut rng, ns, np + nt + nh);
        let ep = fill(&mut rng, ncells, np + nt + nh + ns);
        proof {
            assert(ns * ntypes * 20 == ntypes * ns * 20) by (nonlinear_arith);
        }
        Zobrist { piece, terrain, hand, stm, ep, ncells, ntypes, nsides: ns }
    }

    pub fn piece_key(&self, t: usize, side: usize, moved: bool, hp: i16, sq: usize) -> (k: u64)
        requires
            self.wf(),
            t < self.ntypes(),
            side < self.nsides(),
            sq < self.ncells(),
        ensures
            k == self.spec_piece_key(t as int, side as int, moved, hp, sq as int),
    {
        let h: usize = if hp < 0 { 0 } else if hp > 7 { 7 } else { hp as usize };
        let b = (if moved { 1usize } else { 0usize }) | (h << 1);
        proof {
            assert(b == spec_bucket(moved, hp)) by {
                if moved {
                    assert((1usize | (h << 1)) == 1 + 2 * h) by (bit_vector) requires h <= 7;
                } else {
                    assert((0usize | (h << 1)) == 2 * h) by (bit_vector) requires h <= 7;
                }
            }
            lemma_index4(t as int, side as int, b as int, sq as int,
                self.ntypes as int, self.nsides as int, self.ncells as int);
            assert(self.piece@.len() <= usize::MAX);
        }
        self.piece[((t * self.nsides + side) * BUCKETS + b) * self.ncells + sq]
    }

    pub fn terrain_key(&self, terrain: u8, sq: usize) -> (k: u64)
        requires
            self.wf(),
            sq < self.ncells(),
        ensures
            k == self.spec_terrain_key(terrain, sq as int),
    {
        if terrain == 0 {
            0
        } else {
            proof {
                assert(terrain as int * self.ncells + sq < 256 * self.ncells) by (nonlinear_arith)
                    requires terrain < 256, sq < self.ncells;
            }
            self.terrain[terrain as usize * self.ncells + sq]
        }
    }

    pub fn hand_key(&self, side: usize, t: usize, count: usize) -> (k: u64)
        requires
            self.wf(),
            side < self.nsides(),
            t < self.ntypes(),
        ensures
            k == self.spec_hand_key(side as int, t as int, count as int),
    {
        if count == 0 {
            0
        } else {
            let c = if count - 1 < MAX_HAND - 1 { count - 1 } else { MAX_HAND - 1 };
            proof {
                assert((side * self.ntypes + t) * 20 + c < self.nsides * self.ntypes * 20) by (nonlinear_arith)
                    requires side < self.nsides, t < self.ntypes, c < 20;
                assert((side * self.ntypes + t) * 20 + c >= 0) by (nonlinear_arith)
                    requires side >= 0, t >= 0, self.ntypes >= 0, c >= 0;
            }
            self.hand[(side * self.ntypes + t) * MAX_HAND + c]
        }
    }

    pub fn stm_key(&self, side: usize) -> (k: u64)
        requires
            self.wf(),
            side < self.nsides(),
        ensures
            k == self.spec_stm_key(side as int),
    {
        self.stm[side]
    }

    pub fn ep_key(&self, ep: u16) -> (k: u64)
        requires
            self.wf(),
            ep == 65535 || (ep as int) < self.ncells(),
        ensures
            k == self.spec_ep_key(ep),
    {
        if ep == 65535 {
            0
        } else {
            self.ep[ep as usize]
        }
    }
}

/// The ground-truth key of a position, folded in a fixed order: the
/// side-to-move key, each piece on the board in list order, each cell's
/// terrain, each side's hand counts, then the en-passant marker.
impl Zobrist {
    pub open spec fn fold_pieces(self, v: PosView, n: int, h0: u64) -> u64
        decreases n,
    {
        if n <= 0 {
            h0
        } else {
            let h = self.fold_pieces(v, n - 1, h0);
            let p = v.pieces[n - 1];
            match p.loc {
                Loc::Board(sq) => h ^ self.spec_piece_key(p.t as int, p.side as int, p.moved, v.hp[n - 1], sq as int),
                _ => h,
            }
        }
    }

    pub open spec fn fold_terrain(self, v: PosView, n: int, h0: u64) -> u64
        decreases n,
    {
        if n <= 0 {
            h0
        } else {
            self.fold_terrain(v, n - 1, h0) ^ self.spec_terrain_key(v.terrain[n - 1], n - 1)
        }
    }

    pub open spec fn fold_hand_row(self, v: PosView, s: int, n: int, h0: u64) -> u64
        decreases n,
    {
        if n <= 0 {
            h0
        } else {
            self.fold_hand_row(v, s, n - 1, h0) ^ self.spec_hand_key(s, n - 1, v.hands[s][n - 1] as int)
        }
    }

    pub open spec fn fold_hands(self, v: PosView, m: int, h0: u64) -> u64
        decreases m,
    {
        if m <= 0 {
            h0
        } else {
            self.fold_hand_row(v, m - 1, self.ntypes() as int, self.fold_hands(v, m - 1, h0))
        }
    }

    pub open spec fn spec_full_hash(self, v0: PosView) -> u64 {
        let v = v0.with_hash(0);
        let hp = self.fold_pieces(v, v.pieces.len() as int, self.spec_stm_key(v.stm as int));
        let ht = self.fold_terrain(v, self.ncells() as int, hp);
        let hh = self.fold_hands(v, self.nsides() as int, ht);
        hh ^ self.spec_ep_key(v.ep)
    }

    /// The position's shape fits the tables.
    pub open spec fn fits(self, v: PosView) -> bool {
        &&& self.wf()
        &&& v.hp.len() == v.pieces.len()
        &&& v.terrain.len() == self.ncells()
        &&& v.hands.len() == self.nsides()
        &&& (forall|s: int| 0 <= s < self.nsides() ==> (#[trigger] v.hands[s]).len() == self.ntypes())
        &&& (v.stm as int) < self.nsides()
        &&& (v.ep == 65535 || (v.ep as int) < self.ncells())
        &&& (forall|i: int| 0 <= i < v.pieces.len() ==> {
            let p = #[trigger] v.pieces[i];
            p.loc is Board ==> ((p.t as int) < self.ntypes() && (p.side as int) < self.nsides()
                && (p.loc->Board_0 as int) < self.ncells())
        })
    }

    /// Full ground-truth hash — the incremental key's reference definition.
    pub fn full_hash(&self, pos: &Position) -> (h: u64)
        requires
            self.fits(pos@),
        ensures
            h == self.spec_full_hash(pos@),
    {
        let ghost v = pos@.with_hash(0);
        let mut h = self.stm_key(pos.stm as usize);
        let mut i: usize = 0;
        while i < pos.pieces.len()
            invariant
                self.fits(v),
                v == pos@.with_hash(0),
                i <= v.pieces.len(),
                h == self.fold_pieces(v, i as int, self.spec_stm_key(v.stm as int)),
            decreases v.pieces.len() - i,
        {
            let p = pos.pieces[i];
            if let Loc::Board(sq) = p.loc {
                let k = self.piece_key(p.t as usize, p.side as usize, p.moved, pos.hp[i], sq as usize);
                h = h ^ k;
            }
            i += 1;
        }
        let mut sq: usize = 0;
        let ghost hp = h;
        while sq < self.ncells
            invariant
                self.fits(v),
                v == pos@.with_hash(0),
                sq <= self.ncells(),
                self.ncells == self.ncells(),
                h == self.fold_terrain(v, sq as int, hp),
            decreases self.ncells - sq,
        {
            let k = self.terrain_key(pos.terrain[sq], sq);
            h = h ^ k;
            sq += 1;
        }
        let ghost ht = h;
        let mut s: usize = 0;
        while s < self.nsides
            invariant
                self.fits(v),
                v == pos@.with_hash(0),
                s <= self.nsides(),
                self.nsides == self.nsides(),
                self.ntypes == self.ntypes(),
                h == self.fold_hands(v, s as int, ht),
            decreases self.nsides - s,
        {
            let ghost hs = h;
            let mut t: usize = 0;
            assert(v.hands[s as int] == pos.hands@[s as int]@);
            while t < self.ntypes
                invariant
                    self.fits(v),
                    v == pos@.with_hash(0),
                    s < self.nsides(),
                    t <= self.ntypes(),
                    self.ntypes == self.ntypes(),
                    v.hands[s as int] == pos.hands@[s as int]@,
                    v.hands[s as int].len() == self.ntypes(),
                    h == self.fold_hand_row(v, s as int, t as int, hs),
                decreases self.ntypes - t,
            {
                let k = self.hand_key(s, t, pos.hands[s][t] as usize);
                h = h ^ k;
                t += 1;
            }
            s += 1;
        }
        let k = self.ep_key(pos.ep);
        h ^ k
    }
}

/// The tables of two key sets agree entry for entry.
pub closed spec fn same_tables(z1: Zobrist, z2: Zobrist) -> bool {
    &&& z1.piece@ == z2.piece@
    &&& z1.terrain@ == z2.terrain@
    &&& z1.hand@ == z2.hand@
    &&& z1.stm@ == z2.stm@
    &&& z1.ep@ == z2.ep@
    &&& z1.ncells == z2.ncells
    &&& z1.ntypes == z2.ntypes
    &&& z1.nsides == z2.nsides
}

proof fn lemma_same_fold_pieces(z1: Zobrist, z2: Zobrist, v: PosView, n: int, h0: u64)
    requires
        same_tables(z1, z2),
    ensures
        z1.fold_pieces(v, n, h0) == z2.fold_pieces(v, n, h0),
    decreases n,
{
    if n > 0 {
        lemma_same_fold_pieces(z1, z2, v, n - 1, h0);
    }
}

proof fn lemma_same_fold_terrain(z1: Zobrist, z2: Zobrist, v: PosView, n: int, h0: u64)
    requires
        same_tables(z1, z2),
    ensures
        z1.fold_terrain(v, n, h0) == z2.fold_terrain(v, n, h0),
    decreases n,
{
    if n > 0 {
        lemma_same_fold_terrain(z1, z2, v, n - 1, h0);
    }
}

proof fn lemma_same_fold_hand_row(z1: Zobrist, z2: Zobrist, v: PosView, s: int, n: int, h0: u64)
    requires
        same_tables(z1, z2),
    ensures
        z1.fold_hand_row(v, s, n, h0) == z2.fold_hand_row(v, s, n, h0),
    decreases n,
{
    if n > 0 {
        lemma_same_fold_hand_row(z1, z2, v, s, n - 1, h0);
    }
}

proof fn lemma_same_fold_hands(z1: Zobrist, z2: Zobrist, v: PosView, m: int, h0: u64)
    requires
        same_tables(z1, z2),
    ensures
        z1.fold_hands(v, m, h0) == z2.fold_hands(v, m, h0),
    decreases m,
{
    if m > 0 {
        lemma_same_fold_hands(z1, z2, v, m - 1, h0);
        lemma_same_fold_hand_row(z1, z2, v, m - 1, z1.ntypes() as int, z1.fold_hands(v, m - 1, h0));
    }
}

/// The keys are a function of the game's shape: two key sets drawn for
/// the same board size, type count and side count hold the same keys, so
/// they give every position the same full key.
pub proof fn law_keys_follow_shape(z1: Zobrist, z2: Zobrist)
    requires
        z1.wf(),
        z2.wf(),
        z1.drawn_from_stream(),
        z2.drawn_from_stream(),
        z1.ncells() == z2.ncells(),
        z1.ntypes() == z2.ntypes(),
        z1.nsides() == z2.nsides(),
    ensures
        forall|t: int, side: int, moved: bool, hp: i16, sq: int|
            #[trigger] z1.spec_piece_key(t, side, moved, hp, sq) == z2.spec_piece_key(t, side, moved, hp, sq),
        forall|terrain: u8, sq: int| #[trigger] z1.spec_terrain_key(terrain, sq) == z2.spec_terrain_key(terrain, sq),
        forall|side: int, t: int, count: int| #[trigger] z1.spec_hand_key(side, t, count) == z2.spec_hand_key(side, t, count),
        forall|side: int| #[trigger] z1.spec_stm_key(side) == z2.spec_stm_key(side),
        forall|ep: u16| #[trigger] z1.spec_ep_key(ep) == z2.spec_ep_key(ep),
        forall|v: PosView| #[trigger] z1.spec_full_hash(v) == z2.spec_full_hash(v),
{
    assert(z1.piece@ =~= z2.piece@);
    assert(z1.terrain@ =~= z2.terrain@);
    assert(z1.hand@ =~= z2.hand@);
    assert(z1.stm@ =~= z2.stm@);
    assert(z1.ep@ =~= z2.ep@);
    assert(same_tables(z1, z2));
    assert forall|v: PosView| #[trigger] z1.spec_full_hash(v) == z2.spec_full_hash(v) by {
        let w = v.with_hash(0);
        let hp = z1.fold_pieces(w, w.pieces.len() as int, z1.spec_stm_key(w.stm as int));
        lemma_same_fold_pieces(z1, z2, w, w.pieces.len() as int, z1.spec_stm_key(w.stm as int));
        let ht = z1.fold_terrain(w, z1.ncells() as int, hp);
        lemma_same_fold_terrain(z1, z2, w, z1.ncells() as int, hp);
        lemma_same_fold_hands(z1, z2, w, z1.nsides() as int, ht);
    }
}

/// A piece's key sees its hit points only through their clamp to `0..=7`.
pub proof fn law_piece_key_hp_saturates(z: Zobrist, t: int, side: int, moved: bool, hp: i16, sq: int)
    ensures
        z.spec_piece_key(t, side, moved, hp, sq)
            == z.spec_piece_key(t, side, moved, if hp < 0 { 0i16 } else if hp > 7 { 7i16 } else { hp }, sq),
{
}

/// An empty hand adds nothing to the key, and hand counts from the
/// table's last row on share a key.
pub proof fn law_hand_key_bounds(z: Zobrist, side: int, t: int, count: int)
    ensures
        z.spec_hand_key(side, t, 0) == 0,
        count >= 20 ==> z.spec_hand_key(side, t, count) == z.spec_hand_key(side, t, 20),
{
}

/// A well-formed position fits its game's tables.
pub proof fn lemma_wf_fits(v: PosView, g: GameDef)
    requires
        view_wf(v, g),
    ensures
        g.zobrist.fits(v),
{
    assert forall|i: int| 0 <= i < v.pieces.len() implies {
        let p = #[trigger] v.pieces[i];
        p.loc is Board ==> ((p.t as int) < g.zobrist.ntypes() && (p.side as int) < g.zobrist.nsides()
            && (p.loc->Board_0 as int) < g.zobrist.ncells())
    } by {
        assert(piece_ok(v.pieces[i], g));
    }
}

proof fn lemma_index4(t: int, side: int, b: int, sq: int, nt: int, ns: int, nc: int)
    requires
        0 <= t < nt,
        0 <= side < ns,
        0 <= b < 16,
        0 <= sq < nc,
    ensures
        0 <= ((t * ns + side) * 16 + b) * nc + sq < nt * ns * 16 * nc,
        0 <= t * ns <= t * ns + side <= (t * ns + side) * 16 <= (t * ns + side) * 16 + b
            <= ((t * ns + side) * 16 + b) * nc <= ((t * ns + side) * 16 + b) * nc + sq,
{
    assert(t * ns + side < nt * ns) by (nonlinear_arith) requires 0 <= t < nt, 0 <= side < ns;
    assert(t * ns + side >= 0) by (nonlinear_arith) requires 0 <= t, 0 <= side, ns >= 0;
    let a = t * ns + side;
    assert(a * 16 + b < nt * ns * 16) by (nonlinear_arith) requires 0 <= a < nt * ns, 0 <= b < 16;
    let c = a * 16 + b;
    assert(c * nc + sq < nt * ns * 16 * nc) by (nonlinear_arith) requires 0 <= c < nt * ns * 16, 0 <= sq < nc;
    assert(c * nc + sq >= 0) by (nonlinear_arith) requires 0 <= c, 0 <= sq, nc >= 0;
    assert(c <= c * nc) by (nonlinear_arith) requires 0 <= c, nc >= 1;
    assert(0 <= t * ns) by (nonlinear_arith) requires 0 <= t, ns >= 0;
}

/// Draw `n` keys from the stream; `done` draws came before.
fn fill(rng: &mut Rng, n: usize, done: usize) -> (v: Vec<u64>)
    requires
        old(rng).state() == crate::rng::spec_state_after(ZOBRIST_SEED, done as nat),
        done + n <= usize::MAX,
    ensures
        v@.len() == n,
        final(rng).state() == crate::rng::spec_state_after(ZOBRIST_SEED, (done + n) as nat),
        forall|k: int| 0 <= k < n ==> v@[k] == spec_output(ZOBRIST_SEED, (done + k + 1) as nat),
{
    let mut v: Vec<u64> = Vec::with_capacity(n);
    let mut k: usize = 0;
    while k < n
        invariant
            k <= n,
            done + n <= usize::MAX,
            v@.len() == k,
            rng.state() == crate::rng::spec_state_after(ZOBRIST_SEED, (done + k) as nat),
            forall|j: int| 0 <= j < k ==> v@[j] == spec_output(ZOBRIST_SEED, (done + j + 1) as nat),
        decreases n - k,
    {
        let x = rng.next_u64();
        v.push(x);
        k += 1;
    }
    v
}


// ---------------------------------------------------------------------
// The key as a sum of parts: one change, one XOR.
// ---------------------------------------------------------------------

/// A position's key is its ground-truth key.
pub open spec fn keyed(z: Zobrist, v: PosView) -> bool {
    v.hash == z.spec_full_hash(v)
}

impl Zobrist {
    /// What piece `i` adds to the key: its piece key while on the board.
    pub open spec fn piece_contrib(self, v: PosView, i: int) -> u64 {
        match v.pieces[i].loc {
            Loc::Board(sq) => self.spec_piece_key(v.pieces[i].t as int, v.pieces[i].side as int, v.pieces[i].moved, v.hp[i], sq as int),
            _ => 0,
        }
    }
}

pub proof fn lemma_xor(a: u64, b: u64, c: u64)
    by (bit_vector)
    ensures
        a ^ 0 == a,
        a ^ b == b ^ a,
        (a ^ b) ^ c == a ^ (b ^ c),
        a ^ a == 0,
{
}

proof fn lemma_fold_pieces_step(z: Zobrist, v: PosView, n: int, h0: u64)
    requires
        n >= 1,
    ensures
        z.fold_pieces(v, n, h0) == z.fold_pieces(v, n - 1, h0) ^ z.piece_contrib(v, n - 1),
{
    lemma_xor(z.fold_pieces(v, n - 1, h0), 0, 0);
}

proof fn lemma_fold_pieces_shift(z: Zobrist, v: PosView, n: int, h0: u64, d: u64)
    ensures
        z.fold_pieces(v, n, h0 ^ d) == z.fold_pieces(v, n, h0) ^ d,
    decreases n,
{
    if n > 0 {
        lemma_fold_pieces_shift(z, v, n - 1, h0, d);
        lemma_fold_pieces_step(z, v, n, h0 ^ d);
        lemma_fold_pieces_step(z, v, n, h0);
        let f = z.fold_pieces(v, n - 1, h0);
        let c = z.piece_contrib(v, n - 1);
        lemma_xor(f, d, c);
        lemma_xor(d, c, 0);
        lemma_xor(f, c, d);
    }
}

proof fn lemma_fold_pieces_update(z: Zobrist, v: PosView, w: PosView, i: int, n: int, h0: u64)
    requires
        w.pieces.len() == v.pieces.len(),
        w.hp.len() == v.hp.len(),
        n <= v.pieces.len(),
        forall|j: int| 0 <= j < v.pieces.len() && j != i ==> w.pieces[j] == v.pieces[j] && w.hp[j] == v.hp[j],
    ensures
        z.fold_pieces(w, n, h0) == z.fold_pieces(v, n, h0)
            ^ (if 0 <= i < n { z.piece_contrib(v, i) ^ z.piece_contrib(w, i) } else { 0 }),
    decreases n,
{
    if n <= 0 {
        lemma_xor(h0, 0, 0);
    } else {
        lemma_fold_pieces_update(z, v, w, i, n - 1, h0);
        lemma_fold_pieces_step(z, v, n, h0);
        lemma_fold_pieces_step(z, w, n, h0);
        let fv = z.fold_pieces(v, n - 1, h0);
        let cv = z.piece_contrib(v, n - 1);
        let cw = z.piece_contrib(w, n - 1);
        if i == n - 1 {
            lemma_xor(fv, 0, 0);
            lemma_xor(fv, cv, cv ^ cw);
            lemma_xor(cv, cv, cw);
            lemma_xor(cw, 0, 0);
            lemma_xor(0, cw, 0);
        } else {
            assert(cv == cw);
            let dd: u64 = if 0 <= i < n - 1 { z.piece_contrib(v, i) ^ z.piece_contrib(w, i) } else { 0 };
            lemma_xor(fv, dd, cv);
            lemma_xor(dd, cv, 0);
            lemma_xor(fv, cv, dd);
        }
    }
}

proof fn lemma_fold_terrain_shift(z: Zobrist, v: PosView, n: int, h0: u64, d: u64)
    ensures
        z.fold_terrain(v, n, h0 ^ d) == z.fold_terrain(v, n, h0) ^ d,
    decreases n,
{
    if n > 0 {
        lemma_fold_terrain_shift(z, v, n - 1, h0, d);
        let f = z.fold_terrain(v, n - 1, h0);
        let c = z.spec_terrain_key(v.terrain[n - 1], n - 1);
        lemma_xor(f, d, c);
        lemma_xor(d, c, 0);
        lemma_xor(f, c, d);
    }
}

proof fn lemma_fold_terrain_update(z: Zobrist, v: PosView, w: PosView, sq: int, n: int, h0: u64)
    requires
        forall|j: int| 0 <= j < n && j != sq ==> w.terrain[j] == v.terrain[j],
    ensures
        z.fold_terrain(w, n, h0) == z.fold_terrain(v, n, h0)
            ^ (if 0 <= sq < n { z.spec_terrain_key(v.terrain[sq], sq) ^ z.spec_terrain_key(w.terrain[sq], sq) } else { 0 }),
    decreases n,
{
    if n <= 0 {
        lemma_xor(h0, 0, 0);
    } else {
        lemma_fold_terrain_update(z, v, w, sq, n - 1, h0);
        let fv = z.fold_terrain(v, n - 1, h0);
        let cv = z.spec_terrain_key(v.terrain[n - 1], n - 1);
        let cw = z.spec_terrain_key(w.terrain[n - 1], n - 1);
        if sq == n - 1 {
            lemma_xor(fv, 0, 0);
            lemma_xor(fv, cv, cv ^ cw);
            lemma_xor(cv, cv, cw);
            lemma_xor(cw, 0, 0);
            lemma_xor(0, cw, 0);
        } else {
            let dd: u64 = if 0 <= sq < n - 1 { z.spec_terrain_key(v.terrain[sq], sq) ^ z.spec_terrain_key(w.terrain[sq], sq) } else { 0 };
            lemma_xor(fv, dd, cv);
            lemma_xor(dd, cv, 0);
            lemma_xor(fv, cv, dd);
        }
    }
}

proof fn lemma_fold_hand_row_shift(z: Zobrist, v: PosView, s: int, n: int, h0: u64, d: u64)
    ensures
        z.fold_hand_row(v, s, n, h0 ^ d) == z.fold_hand_row(v, s, n, h0) ^ d,
    decreases n,
{
    if n > 0 {
        lemma_fold_hand_row_shift(z, v, s, n - 1, h0, d);
        let f = z.fold_hand_row(v, s, n - 1, h0);
        let c = z.spec_hand_key(s, n - 1, v.hands[s][n - 1] as int);
        lemma_xor(f, d, c);
        lemma_xor(d, c, 0);
        lemma_xor(f, c, d);
    }
}

proof fn lemma_fold_hand_row_update(z: Zobrist, v: PosView, w: PosView, s: int, t: int, n: int, h0: u64)
    requires
        forall|j: int| 0 <= j < n && j != t ==> w.hands[s][j] == v.hands[s][j],
    ensures
        z.fold_hand_row(w, s, n, h0) == z.fold_hand_row(v, s, n, h0)
            ^ (if 0 <= t < n { z.spec_hand_key(s, t, v.hands[s][t] as int) ^ z.spec_hand_key(s, t, w.hands[s][t] as int) } else { 0 }),
    decreases n,
{
    if n <= 0 {
        lemma_xor(h0, 0, 0);
    } else {
        lemma_fold_hand_row_update(z, v, w, s, t, n - 1, h0);
        let fv = z.fold_hand_row(v, s, n - 1, h0);
        let cv = z.spec_hand_key(s, n - 1, v.hands[s][n - 1] as int);
        let cw = z.spec_hand_key(s, n - 1, w.hands[s][n - 1] as int);
        if t == n - 1 {
            lemma_xor(fv, 0, 0);
            lemma_xor(fv, cv, cv ^ cw);
            lemma_xor(cv, cv, cw);
            lemma_xor(cw, 0, 0);
            lemma_xor(0, cw, 0);
        } else {
            let dd: u64 = if 0 <= t < n - 1 { z.spec_hand_key(s, t, v.hands[s][t] as int) ^ z.spec_hand_key(s, t, w.hands[s][t] as int) } else { 0 };
            lemma_xor(fv, dd, cv);
            lemma_xor(dd, cv, 0);
            lemma_xor(fv, cv, dd);
        }
    }
}

proof fn lemma_fold_hands_shift(z: Zobrist, v: PosView, m: int, h0: u64, d: u64)
    ensures
        z.fold_hands(v, m, h0 ^ d) == z.fold_hands(v, m, h0) ^ d,
    decreases m,
{
    if m > 0 {
        lemma_fold_hands_shift(z, v, m - 1, h0, d);
        lemma_fold_hand_row_shift(z, v, m - 1, z.ntypes() as int, z.fold_hands(v, m - 1, h0), d);
    }
}

proof fn lemma_fold_hands_update(z: Zobrist, v: PosView, w: PosView, s: int, t: int, m: int, h0: u64)
    requires
        0 <= s < m ==> 0 <= t < z.ntypes(),
        forall|q: int| 0 <= q < m && q != s ==> w.hands[q] == v.hands[q],
        forall|j: int| 0 <= j < z.ntypes() && j != t ==> w.hands[s][j] == v.hands[s][j],
    ensures
        z.fold_hands(w, m, h0) == z.fold_hands(v, m, h0)
            ^ (if 0 <= s < m { z.spec_hand_key(s, t, v.hands[s][t] as int) ^ z.spec_hand_key(s, t, w.hands[s][t] as int) } else { 0 }),
    decreases m,
{
    if m <= 0 {
        lemma_xor(h0, 0, 0);
    } else {
        lemma_fold_hands_update(z, v, w, s, t, m - 1, h0);
        let nt = z.ntypes() as int;
        let fv = z.fold_hands(v, m - 1, h0);
        let dd: u64 = if 0 <= s < m - 1 { z.spec_hand_key(s, t, v.hands[s][t] as int) ^ z.spec_hand_key(s, t, w.hands[s][t] as int) } else { 0 };
        if s == m - 1 {
            lemma_xor(fv, 0, 0);
            lemma_fold_hand_row_update(z, v, w, s, t, nt, fv);
        } else {
            lemma_fold_hand_row_update(z, v, w, m - 1, -1, nt, fv ^ dd);
            lemma_xor(z.fold_hand_row(v, m - 1, nt, fv ^ dd), 0, 0);
            lemma_fold_hand_row_shift(z, v, m - 1, nt, fv, dd);
        }
    }
}

/// Changing piece `i` (and its hit points) changes the key by that
/// piece's contribution before and after.
pub proof fn lemma_full_piece(z: Zobrist, v: PosView, w: PosView, i: int)
    requires
        0 <= i < v.pieces.len(),
        w.pieces.len() == v.pieces.len(),
        w.hp.len() == v.hp.len(),
        forall|j: int| 0 <= j < v.pieces.len() && j != i ==> w.pieces[j] == v.pieces[j] && w.hp[j] == v.hp[j],
        w.terrain == v.terrain,
        w.hands == v.hands,
        w.stm == v.stm,
        w.ep == v.ep,
    ensures
        z.spec_full_hash(w) == z.spec_full_hash(v) ^ (z.piece_contrib(v, i) ^ z.piece_contrib(w, i)),
{
    let v0 = v.with_hash(0);
    let w0 = w.with_hash(0);
    let d = z.piece_contrib(v, i) ^ z.piece_contrib(w, i);
    let k = z.spec_stm_key(v.stm as int);
    lemma_fold_pieces_update(z, v0, w0, i, v.pieces.len() as int, k);
    let hp = z.fold_pieces(v0, v.pieces.len() as int, k);
    lemma_fold_terrain_update(z, v0, w0, -1, z.ncells() as int, hp ^ d);
    lemma_xor(z.fold_terrain(v0, z.ncells() as int, hp ^ d), 0, 0);
    lemma_fold_terrain_shift(z, v0, z.ncells() as int, hp, d);
    let ht = z.fold_terrain(v0, z.ncells() as int, hp);
    lemma_fold_hands_update(z, v0, w0, -1, 0, z.nsides() as int, ht ^ d);
    lemma_xor(z.fold_hands(v0, z.nsides() as int, ht ^ d), 0, 0);
    lemma_fold_hands_shift(z, v0, z.nsides() as int, ht, d);
    let hh = z.fold_hands(v0, z.nsides() as int, ht);
    let e = z.spec_ep_key(v.ep);
    lemma_xor(hh, d, e);
    lemma_xor(d, e, 0);
    lemma_xor(hh, e, d);
}

/// Changing the terrain of one cell changes the key by that cell's
/// terrain key before and after.
pub proof fn lemma_full_terrain(z: Zobrist, v: PosView, w: PosView, sq: int)
    requires
        0 <= sq < z.ncells(),
        w.pieces == v.pieces,
        w.hp == v.hp,
        forall|j: int| 0 <= j < z.ncells() && j != sq ==> w.terrain[j] == v.terrain[j],
        w.hands == v.hands,
        w.stm == v.stm,
        w.ep == v.ep,
    ensures
        z.spec_full_hash(w) == z.spec_full_hash(v)
            ^ (z.spec_terrain_key(v.terrain[sq], sq) ^ z.spec_terrain_key(w.terrain[sq], sq)),
{
    let v0 = v.with_hash(0);
    let w0 = w.with_hash(0);
    let d = z.spec_terrain_key(v.terrain[sq], sq) ^ z.spec_terrain_key(w.terrain[sq], sq);
    let k = z.spec_stm_key(v.stm as int);
    lemma_fold_pieces_update(z, v0, w0, -1, v.pieces.len() as int, k);
    let hp = z.fold_pieces(v0, v.pieces.len() as int, k);
    lemma_xor(hp, 0, 0);
    lemma_fold_terrain_update(z, v0, w0, sq, z.ncells() as int, hp);
    let ht = z.fold_terrain(v0, z.ncells() as int, hp);
    lemma_fold_hands_update(z, v0, w0, -1, 0, z.nsides() as int, ht ^ d);
    lemma_xor(z.fold_hands(v0, z.nsides() as int, ht ^ d), 0, 0);
    lemma_fold_hands_shift(z, v0, z.nsides() as int, ht, d);
    let hh = z.fold_hands(v0, z.nsides() as int, ht);
    let e = z.spec_ep_key(v.ep);
    lemma_xor(hh, d, e);
    lemma_xor(d, e, 0);
    lemma_xor(hh, e, d);
}

/// Changing one hand count changes the key by that count's hand key
/// before and after.
pub proof fn lemma_full_hand(z: Zobrist, v: PosView, w: PosView, s: int, t: int)
    requires
        0 <= s < z.nsides(),
        0 <= t < z.ntypes(),
        w.pieces == v.pieces,
        w.hp == v.hp,
        w.terrain == v.terrain,
        forall|q: int| 0 <= q < z.nsides() && q != s ==> w.hands[q] == v.hands[q],
        forall|j: int| 0 <= j < z.ntypes() && j != t ==> w.hands[s][j] == v.hands[s][j],
        w.stm == v.stm,
        w.ep == v.ep,
    ensures
        z.spec_full_hash(w) == z.spec_full_hash(v)
            ^ (z.spec_hand_key(s, t, v.hands[s][t] as int) ^ z.spec_hand_key(s, t, w.hands[s][t] as int)),
{
    let v0 = v.with_hash(0);
    let w0 = w.with_hash(0);
    let k = z.spec_stm_key(v.stm as int);
    lemma_fold_pieces_update(z, v0, w0, -1, v.pieces.len() as int, k);
    let hp = z.fold_pieces(v0, v.pieces.len() as int, k);
    lemma_xor(hp, 0, 0);
    lemma_fold_terrain_update(z, v0, w0, -1, z.ncells() as int, hp);
    let ht = z.fold_terrain(v0, z.ncells() as int, hp);
    lemma_xor(ht, 0, 0);
    lemma_fold_hands_update(z, v0, w0, s, t, z.nsides() as int, ht);
    let hh = z.fold_hands(v0, z.nsides() as int, ht);
    let d = z.spec_hand_key(s, t, v.hands[s][t] as int) ^ z.spec_hand_key(s, t, w.hands[s][t] as int);
    let e = z.spec_ep_key(v.ep);
    lemma_xor(hh, d, e);
    lemma_xor(d, e, 0);
    lemma_xor(hh, e, d);
}

/// Changing the side to move changes the key by the two sides' keys.
pub proof fn lemma_full_stm(z: Zobrist, v: PosView, w: PosView)
    requires
        w.pieces == v.pieces,
        w.hp == v.hp,
        w.terrain == v.terrain,
        w.hands == v.hands,
        w.ep == v.ep,
    ensures
        z.spec_full_hash(w) == z.spec_full_hash(v)
            ^ (z.spec_stm_key(v.stm as int) ^ z.spec_stm_key(w.stm as int)),
{
    let v0 = v.with_hash(0);
    let w0 = w.with_hash(0);
    let kv = z.spec_stm_key(v.stm as int);
    let kw = z.spec_stm_key(w.stm as int);
    let d = kv ^ kw;
    lemma_xor(kv, kv, kw);
    lemma_xor(kw, 0, 0);
    lemma_xor(0, kw, 0);
    assert(kv ^ d == kw);
    lemma_fold_pieces_update(z, v0, w0, -1, v.pieces.len() as int, kw);
    lemma_xor(z.fold_pieces(v0, v.pieces.len() as int, kw), 0, 0);
    lemma_fold_pieces_shift(z, v0, v.pieces.len() as int, kv, d);
    let hp = z.fold_pieces(v0, v.pieces.len() as int, kv);
    lemma_fold_terrain_update(z, v0, w0, -1, z.ncells() as int, hp ^ d);
    lemma_xor(z.fold_terrain(v0, z.ncells() as int, hp ^ d), 0, 0);
    lemma_fold_terrain_shift(z, v0, z.ncells() as int, hp, d);
    let ht = z.fold_terrain(v0, z.ncells() as int, hp);
    lemma_fold_hands_update(z, v0, w0, -1, 0, z.nsides() as int, ht ^ d);
    lemma_xor(z.fold_hands(v0, z.nsides() as int, ht ^ d), 0, 0);
    lemma_fold_hands_shift(z, v0, z.nsides() as int, ht, d);
    let hh = z.fold_hands(v0, z.nsides() as int, ht);
    let e = z.spec_ep_key(v.ep);
    lemma_xor(hh, d, e);
    lemma_xor(d, e, 0);
    lemma_xor(hh, e, d);
}

/// Changing the en-passant marker changes the key by the two markers' keys.
pub proof fn lemma_full_ep(z: Zobrist, v: PosView, w: PosView)
    requires
        w.pieces == v.pieces,
        w.hp == v.hp,
        w.terrain == v.terrain,
        w.hands == v.hands,
        w.stm == v.stm,
    ensures
        z.spec_full_hash(w) == z.spec_full_hash(v) ^ (z.spec_ep_key(v.ep) ^ z.spec_ep_key(w.ep)),
{
    let v0 = v.with_hash(0);
    let w0 = w.with_hash(0);
    let k = z.spec_stm_key(v.stm as int);
    lemma_fold_pieces_update(z, v0, w0, -1, v.pieces.len() as int, k);
    let hp = z.fold_pieces(v0, v.pieces.len() as int, k);
    lemma_xor(hp, 0, 0);
    lemma_fold_terrain_update(z, v0, w0, -1, z.ncells() as int, hp);
    let ht = z.fold_terrain(v0, z.ncells() as int, hp);
    lemma_xor(ht, 0, 0);
    lemma_fold_hands_update(z, v0, w0, -1, 0, z.nsides() as int, ht);
    let hh = z.fold_hands(v0, z.nsides() as int, ht);
    lemma_xor(hh, 0, 0);
    let ev = z.spec_ep_key(v.ep);
    let ew = z.spec_ep_key(w.ep);
    lemma_xor(hh, ev, ev ^ ew);
    lemma_xor(ev, ev, ew);
    lemma_xor(ew, 0, 0);
    lemma_xor(0, ew, 0);
}


/// No marker, no key.
pub proof fn lemma_ep_key_none(z: Zobrist)
    ensures
        z.spec_ep_key(65535) == 0,
{
}


pub proof fn lemma_xor_swap_middle(h: u64, a: u64, b: u64, c: u64, d: u64)
    by (bit_vector)
    ensures
        (((h ^ a) ^ b) ^ c) ^ d == ((((h ^ a) ^ c) ^ b) ^ d),
{
}

} // verus!
