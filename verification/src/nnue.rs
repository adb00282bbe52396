//! The deterministic grade of the learned evaluator: an NNUE-style
//! accumulator network whose piece features are Bit-derived descriptors,
//! so never-before-seen pieces evaluate sensibly. Per piece, the input is
//! descriptor(type, side) times a positional basis phi(square), summed into
//! a two-perspective accumulator (own/enemy from the mover's view), then
//! one ReLU hidden layer and a scalar value in centipawns. Inference is
//! fixed-point integer arithmetic with defined semantics: the same output
//! on every machine. (Training and quantization are floating point and
//! happen outside this crate; a quantized net arrives as plain integers.)

use vstd::prelude::*;
use crate::game::{GameDef, Side};
use crate::position::{Loc, Piece, PosView, Position, piece_ok};

verus! {

/// Descriptor dimensions per (type, side).
pub const D: usize = 21;
/// Positional basis dimensions.
pub const P: usize = 4;
/// Features per perspective.
pub const F: usize = 84;
/// Inputs: own and enemy perspectives.
pub const IN: usize = 168;
/// Hidden units.
pub const H: usize = 32;
/// Input fixed-point scale (value × 64).
pub const QIN: i32 = 64;
/// Weight fixed-point scale (value × 64).
pub const QW: i32 = 64;

/// A quantized network: descriptors × `QIN`, first-layer weights and
/// biases, output weights and bias, in fixed point.
#[derive(Clone, Debug)]
pub struct QuantNet {
    /// `D` descriptor entries per (type, side), at `(t * nsides + side) * D`.
    pub desc_q: Vec<i32>,
    pub nsides: usize,
    /// Input `i` to hidden unit `j` at `i * H + j` (× `QW`).
    pub w1: Vec<i16>,
    /// Hidden biases (× `QIN·QW`).
    pub b1: Vec<i32>,
    /// Hidden unit `j` to the output (× `QW`).
    pub w2: Vec<i16>,
    /// Output bias (× `QIN·QW·QW`).
    pub b2: i32,
}

/// Positional basis entry `j` of square `sq` for `side` (× `QIN`): a
/// constant, the file, the rank from the side's own edge, and the distance
/// from the centre file.
pub open spec fn phi(g: GameDef, sq: int, side: Side, j: int) -> int {
    let x = g.board.spec_x(sq);
    let y = g.board.spec_y(sq);
    let w: int = if g.board.w >= 2 { g.board.w - 1 } else { 1 };
    let h: int = if g.board.h >= 2 { g.board.h - 1 } else { 1 };
    let xn = (x * 64) / w;
    let yn = if side == 0 { (y * 64) / h } else { 64 - (y * 64) / h };
    if j == 0 {
        64
    } else if j == 1 {
        xn
    } else if j == 2 {
        yn
    } else {
        (if xn >= 32 { xn - 32 } else { 32 - xn }) * 2
    }
}

/// What piece `p` adds to accumulator entry `k`: its descriptor times the
/// basis, in the own block when it belongs to the side to move, else in
/// the enemy block.
pub open spec fn piece_term(net: QuantNet, g: GameDef, stm: Side, p: Piece, k: int) -> int {
    match p.loc {
        Loc::Board(sq) => {
            let base: int = if p.side == stm { 0 } else { F as int };
            if base <= k < base + F {
                net.desc_q@[(p.t * net.nsides + p.side) * D + (k - base) / (P as int)]
                    * phi(g, sq as int, p.side, (k - base) % (P as int))
            } else {
                0
            }
        },
        _ => 0,
    }
}

/// Accumulator entry `k` over the first `n` pieces.
pub open spec fn acc_upto(net: QuantNet, g: GameDef, v: PosView, n: nat, k: int) -> int
    decreases n,
{
    if n == 0 { 0 } else { acc_upto(net, g, v, (n - 1) as nat, k) + piece_term(net, g, v.stm, v.pieces[n - 1], k) }
}

pub open spec fn acc_at(net: QuantNet, g: GameDef, v: PosView, k: int) -> int {
    acc_upto(net, g, v, v.pieces.len(), k)
}

/// Hidden unit `j`'s input over the first `n` accumulator entries (× `QIN²·QW`).
pub open spec fn hidden_sum(net: QuantNet, g: GameDef, v: PosView, j: int, n: nat) -> int
    decreases n,
{
    if n == 0 {
        net.b1@[j] * 64
    } else {
        hidden_sum(net, g, v, j, (n - 1) as nat) + acc_at(net, g, v, n - 1) * net.w1@[(n - 1) * (H as int) + j]
    }
}

/// ReLU after the shift back to × `QIN·QW`.
pub open spec fn relu6(a: int) -> int {
    if a >= 0 { a / 64 } else { 0 }
}

/// The output over the first `n` hidden units (× `QIN·QW·QW`).
pub open spec fn out_sum(net: QuantNet, g: GameDef, v: PosView, n: nat) -> int
    decreases n,
{
    if n == 0 {
        net.b2 as int
    } else {
        out_sum(net, g, v, (n - 1) as nat) + relu6(hidden_sum(net, g, v, n - 1, IN as nat)) * net.w2@[n - 1]
    }
}

/// The network's value in centipawns from the side to move's view.
pub open spec fn net_value(net: QuantNet, g: GameDef, v: PosView) -> i32 {
    ((out_sum(net, g, v, H as nat) * 100) / 262144) as i32
}

proof fn lemma_mul_bound(a: int, b: int, ba: int, bb: int)
    requires
        -ba <= a <= ba,
        -bb <= b <= bb,
    ensures
        -(ba * bb) <= a * b <= ba * bb,
{
    assert(-(ba * bb) <= a * b <= ba * bb) by (nonlinear_arith)
        requires -ba <= a <= ba, -bb <= b <= bb;
}

impl QuantNet {
    /// The net is shaped for `g`: one descriptor block per (type, side) and
    /// full weight tables.
    pub open spec fn fits(self, g: GameDef) -> bool {
        &&& self.nsides == g.sides as usize
        &&& self.desc_q@.len() == g.ntypes() * g.sides * D
        &&& self.w1@.len() == IN * H
        &&& self.b1@.len() == H
        &&& self.w2@.len() == H
    }

    /// Is the net shaped for `g`?
    pub fn fits_game(&self, g: &GameDef) -> (r: bool)
        requires
            g.wf(),
        ensures
            r == self.fits(*g),
    {
        let n = g.types.len() * g.sides as usize;
        proof {
            assert(g.types@.len() * g.sides <= 256 * 256) by (nonlinear_arith)
                requires g.types@.len() <= 256, g.sides <= 255;
        }
        self.nsides == g.sides as usize && self.desc_q.len() == n * D && self.w1.len() == IN * H
            && self.b1.len() == H && self.w2.len() == H
    }

    /// The positional basis entries 1, 2 and 3 of `sq` for `side`.
    fn phi_q(g: &GameDef, sq: u16, side: Side) -> (r: (i32, i32, i32))
        requires
            g.board.valid(),
            (sq as int) < g.ncells(),
        ensures
            r.0 == phi(*g, sq as int, side, 1),
            r.1 == phi(*g, sq as int, side, 2),
            r.2 == phi(*g, sq as int, side, 3),
            0 <= r.0 <= 64,
            0 <= r.1 <= 64,
            0 <= r.2 <= 64,
    {
        let (x, y) = g.board.xy(sq);
        let w: u32 = if g.board.w >= 2 { g.board.w as u32 - 1 } else { 1 };
        let h: u32 = if g.board.h >= 2 { g.board.h as u32 - 1 } else { 1 };
        let xu = x as u32;
        let yu = y as u32;
        proof {
            assert(xu <= w);
            assert(yu <= h);
            assert((xu as int) * 64 / (w as int) <= 64) by (nonlinear_arith)
                requires xu <= w, w >= 1;
            assert((yu as int) * 64 / (h as int) <= 64) by (nonlinear_arith)
                requires yu <= h, h >= 1;
        }
        let xn = (xu * 64 / w) as i32;
        let yq = (yu * 64 / h) as i32;
        let yn = if side == 0 { yq } else { 64 - yq };
        let cx = if xn >= 32 { (xn - 32) * 2 } else { (32 - xn) * 2 };
        (xn, yn, cx)
    }

    /// Bit-exact integer forward pass: the value in centipawns from the
    /// side to move's view. Accumulated in 128 bits, so no input overflows.
    pub fn eval(&self, g: &GameDef, pos: &Position) -> (r: i32)
        requires
            self.fits(*g),
            pos.wf(*g),
        ensures
            r == net_value(*self, *g, pos@),
    {
        let ghost v = pos@;
        let mut acc: Vec<i128> = Vec::new();
        let mut k: usize = 0;
        while k < IN
            invariant
                k <= IN,
                acc@.len() == k,
                forall|m: int| 0 <= m < k ==> acc@[m] == 0,
            decreases IN - k,
        {
            acc.push(0);
            k += 1;
        }
        let n = pos.pieces.len();
        let mut pi: usize = 0;
        while pi < n
            invariant
                self.fits(*g),
                pos.wf(*g),
                v == pos@,
                n == v.pieces.len(),
                pi <= n,
                acc@.len() == IN,
                forall|m: int| 0 <= m < IN ==> #[trigger] acc@[m] == acc_upto(*self, *g, v, pi as nat, m),
                forall|m: int| 0 <= m < IN ==> -(pi * 0x20_0000_0000) <= #[trigger] acc@[m] <= pi * 0x20_0000_0000,
            decreases n - pi,
        {
            let p = pos.pieces[pi];
            assert(piece_ok(p, *g));
            match p.loc {
                Loc::Board(sq) => {
                    let base: usize = if p.side == pos.stm { 0 } else { F };
                    proof {
                        assert((p.t as int) * g.sides + p.side < g.ntypes() * g.sides) by (nonlinear_arith)
                            requires (p.t as int) < g.ntypes(), p.side < g.sides;
                        assert(((p.t as int) * g.sides + p.side) * 21 + 21 <= g.ntypes() * g.sides * 21) by (nonlinear_arith)
                            requires (p.t as int) * g.sides + p.side < g.ntypes() * g.sides;
                        assert(g.ntypes() * g.sides * 21 <= 256 * 256 * 21) by (nonlinear_arith)
                            requires g.ntypes() <= 256, g.sides <= 255;
                    }
                    let db = (p.t as usize * self.nsides + p.side as usize) * D;
                    let dl = self.desc_q.len();
                    let (xn, yn, cx) = Self::phi_q(g, sq, p.side);
                    let mut i: usize = 0;
                    while i < D
                        invariant
                            self.fits(*g),
                            pos.wf(*g),
                            v == pos@,
                            pi < n,
                            n == v.pieces.len(),
                            p == v.pieces[pi as int],
                            p.loc == Loc::Board(sq),
                            base == (if p.side == v.stm { 0int } else { F as int }),
                            db == ((p.t as int) * self.nsides + p.side) * D,
                            db + D <= self.desc_q@.len(),
                            dl == self.desc_q@.len(),
                            xn == phi(*g, sq as int, p.side, 1),
                            yn == phi(*g, sq as int, p.side, 2),
                            cx == phi(*g, sq as int, p.side, 3),
                            0 <= xn <= 64,
                            0 <= yn <= 64,
                            0 <= cx <= 64,
                            i <= D,
                            acc@.len() == IN,
                            forall|m: int| 0 <= m < IN ==> #[trigger] acc@[m] == acc_upto(*self, *g, v, pi as nat, m)
                                + (if base <= m < base + i * P { piece_term(*self, *g, v.stm, p, m) } else { 0 }),
                            forall|m: int| 0 <= m < IN ==> -((pi + 1) * 0x20_0000_0000) <= #[trigger] acc@[m] <= (pi + 1) * 0x20_0000_0000,
                            forall|m: int| 0 <= m < IN && !(base <= m < base + i * P) ==> -(pi * 0x20_0000_0000) <= #[trigger] acc@[m] <= pi * 0x20_0000_0000,
                        decreases D - i,
                    {
                        let di = self.desc_q[db + i] as i128;
                        let mut j: usize = 0;
                        while j < P
                            invariant
                                pi < n,
                                n == v.pieces.len(),
                                p == v.pieces[pi as int],
                                p.loc == Loc::Board(sq),
                                base == (if p.side == v.stm { 0int } else { F as int }),
                                db == ((p.t as int) * self.nsides + p.side) * D,
                                db + D <= self.desc_q@.len(),
                                di == self.desc_q@[db + i],
                                xn == phi(*g, sq as int, p.side, 1),
                                yn == phi(*g, sq as int, p.side, 2),
                                cx == phi(*g, sq as int, p.side, 3),
                                0 <= xn <= 64,
                                0 <= yn <= 64,
                                0 <= cx <= 64,
                                i < D,
                                j <= P,
                                acc@.len() == IN,
                                forall|m: int| 0 <= m < IN ==> #[trigger] acc@[m] == acc_upto(*self, *g, v, pi as nat, m)
                                    + (if base <= m < base + i * P + j { piece_term(*self, *g, v.stm, p, m) } else { 0 }),
                                forall|m: int| 0 <= m < IN ==> -((pi + 1) * 0x20_0000_0000) <= #[trigger] acc@[m] <= (pi + 1) * 0x20_0000_0000,
                                forall|m: int| 0 <= m < IN && !(base <= m < base + i * P + j) ==> -(pi * 0x20_0000_0000) <= #[trigger] acc@[m] <= pi * 0x20_0000_0000,
                            decreases P - j,
                        {
                            let ph: i32 = if j == 0 { 64 } else if j == 1 { xn } else if j == 2 { yn } else { cx };
                            let kk = base + i * P + j;
                            proof {
                                let off = kk - base;
                                assert(off / (P as int) == i && off % (P as int) == j) by (nonlinear_arith)
                                    requires off == i * 4 + j, 0 <= j < 4, i >= 0;
                                assert(ph == phi(*g, sq as int, p.side, j as int));
                                assert(piece_term(*self, *g, v.stm, p, kk as int) == di * ph);
                                lemma_mul_bound(di as int, ph as int, 0x8000_0000, 64);
                            }
                            let cur = acc[kk];
                            acc.set(kk, cur + di * (ph as i128));
                            j += 1;
                        }
                        i += 1;
                    }
                    proof {
                        assert forall|m: int| 0 <= m < IN implies #[trigger] acc@[m] == acc_upto(*self, *g, v, (pi + 1) as nat, m) by {
                        }
                    }
                },
                _ => {
                    proof {
                        assert forall|m: int| 0 <= m < IN implies #[trigger] acc@[m] == acc_upto(*self, *g, v, (pi + 1) as nat, m) by {
                        }
                    }
                },
            }
            pi += 1;
        }
        // Hidden layer and output.
        let mut out: i128 = self.b2 as i128;
        let mut j: usize = 0;
        while j < H
            invariant
                self.fits(*g),
                v == pos@,
                n == v.pieces.len(),
                n < 0x7fff_ffff,
                j <= H,
                acc@.len() == IN,
                forall|m: int| 0 <= m < IN ==> #[trigger] acc@[m] == acc_at(*self, *g, v, m),
                forall|m: int| 0 <= m < IN ==> -(n * 0x20_0000_0000) <= #[trigger] acc@[m] <= n * 0x20_0000_0000,
                out == out_sum(*self, *g, v, j as nat),
                -(0x8000_0000 + j * 0x20_0000_0000_0000_0000_0000_0000) <= out <= 0x8000_0000 + j * 0x20_0000_0000_0000_0000_0000_0000,
            decreases H - j,
        {
            let mut a: i128 = self.b1[j] as i128 * 64;
            let mut i: usize = 0;
            while i < IN
                invariant
                    self.fits(*g),
                    n < 0x7fff_ffff,
                    j < H,
                    i <= IN,
                    acc@.len() == IN,
                    forall|m: int| 0 <= m < IN ==> #[trigger] acc@[m] == acc_at(*self, *g, v, m),
                    forall|m: int| 0 <= m < IN ==> -(n * 0x20_0000_0000) <= #[trigger] acc@[m] <= n * 0x20_0000_0000,
                    a == hidden_sum(*self, *g, v, j as int, i as nat),
                    -(0x20_0000_0000 + i * 0x10_0000_0000_0000_0000_0000) <= a <= 0x20_0000_0000 + i * 0x10_0000_0000_0000_0000_0000,
                decreases IN - i,
            {
                proof {
                    assert(i * H + j < IN * H) by (nonlinear_arith)
                        requires i < 168, j < 32;
                    lemma_mul_bound(acc@[i as int] as int, self.w1@[i * H + j] as int, n * 0x20_0000_0000, 0x8000);
                    assert(n * 0x20_0000_0000 * 0x8000 <= 0x10_0000_0000_0000_0000_0000) by (nonlinear_arith)
                        requires n < 0x7fff_ffff;
                }
                let w = self.w1[i * H + j] as i128;
                a = a + acc[i] * w;
                i += 1;
            }
            let h: i128 = if a >= 0 { a / 64 } else { 0 };
            proof {
                assert(0 <= h <= 0x40_0000_0000_0000_0000_0000);
                lemma_mul_bound(h as int, self.w2@[j as int] as int, 0x40_0000_0000_0000_0000_0000, 0x8000);
            }
            out = out + h * (self.w2[j] as i128);
            j += 1;
        }
        let x: i128 = out * 100;
        let q: i128 = if x >= 0 { x / 262144 } else { -((-x + 262143) / 262144) };
        proof {
            if x < 0 {
                assert(-((-x + 262143) / 262144) == x / 262144) by (nonlinear_arith)
                    requires x < 0;
            }
        }
        q as i32
    }

    /// An independent copy, element by element.
    pub fn duplicate(&self) -> (r: QuantNet)
        ensures
            r.desc_q@ == self.desc_q@,
            r.nsides == self.nsides,
            r.w1@ == self.w1@,
            r.b1@ == self.b1@,
            r.w2@ == self.w2@,
            r.b2 == self.b2,
    {
        QuantNet {
            desc_q: copy_i32(&self.desc_q),
            nsides: self.nsides,
            w1: copy_i16(&self.w1),
            b1: copy_i32(&self.b1),
            w2: copy_i16(&self.w2),
            b2: self.b2,
        }
    }
}

fn copy_i32(v: &Vec<i32>) -> (r: Vec<i32>)
    ensures
        r@ == v@,
{
    let mut r: Vec<i32> = Vec::new();
    let mut k: usize = 0;
    while k < v.len()
        invariant
            k <= v@.len(),
            r@ == v@.subrange(0, k as int),
        decreases v@.len() - k,
    {
        r.push(v[k]);
        k += 1;
        assert(r@ =~= v@.subrange(0, k as int));
    }
    r
}

fn copy_i16(v: &Vec<i16>) -> (r: Vec<i16>)
    ensures
        r@ == v@,
{
    let mut r: Vec<i16> = Vec::new();
    let mut k: usize = 0;
    while k < v.len()
        invariant
            k <= v@.len(),
            r@ == v@.subrange(0, k as int),
        decreases v@.len() - k,
    {
        r.push(v[k]);
        k += 1;
        assert(r@ =~= v@.subrange(0, k as int));
    }
    r
}

} // verus!
