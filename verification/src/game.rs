//! Game definition: board, zones, piece types, policy layer, and the
//! compile step from authoring Bits to runtime kernels.

use vstd::prelude::*;
use crate::bits::{AbilityBit, Geometry, HopMode, Mode, MoveBit, PathRule, SpecialBit, TargetPred};
use crate::effects::CustomAbility;
use crate::geometry::{Delta, spec_symmetric_deltas, symmetric_deltas, lemma_symmetric_in_range, spec_keep};
use crate::move_defs::{DropRef, ScriptRef, SpecialRef, compile_overclock, compile_special, script};
use crate::moves::MoveKind;
use crate::terrain_defs::{CustomTerrain, NT, T_NONE, spec_tiers, spec_erode, is_block, erode};
use crate::zobrist::{Zobrist, table_sizes_fit};

verus! {

pub type Side = u8;

pub type TypeId = u8;

/// Rectangular board shell.
#[derive(Clone, Copy, Debug)]
pub struct BoardDef {
    pub w: u8,
    pub h: u8,
}

impl BoardDef {
    pub open spec fn spec_ncells(self) -> nat {
        (self.w * self.h) as nat
    }

    /// A usable board has at least one file and one rank.
    pub open spec fn valid(self) -> bool {
        self.w >= 1 && self.h >= 1
    }

    pub open spec fn spec_sq(self, x: int, y: int) -> int {
        y * self.w + x
    }

    pub open spec fn spec_x(self, sq: int) -> int {
        sq % (self.w as int)
    }

    pub open spec fn spec_y(self, sq: int) -> int {
        sq / (self.w as int)
    }

    /// The square `(dx,dy)` away from `sq`, if it is on the board.
    pub open spec fn spec_offset(self, sq: int, dx: int, dy: int) -> Option<u16> {
        let nx = self.spec_x(sq) + dx;
        let ny = self.spec_y(sq) + dy;
        if nx < 0 || ny < 0 || nx >= self.w || ny >= self.h {
            None
        } else {
            Some((ny * self.w + nx) as u16)
        }
    }

    pub fn ncells(&self) -> (n: usize)
        ensures
            n == self.spec_ncells(),
    {
        proof {
            assert(self.w * self.h <= 255 * 255) by (nonlinear_arith)
                requires self.w <= 255, self.h <= 255, self.w >= 0, self.h >= 0;
        }
        self.w as usize * self.h as usize
    }

    pub fn sq(&self, x: u8, y: u8) -> (s: u16)
        ensures
            s == self.spec_sq(x as int, y as int),
    {
        proof {
            assert(y * self.w <= 255 * 255) by (nonlinear_arith)
                requires y <= 255, self.w <= 255;
        }
        y as u16 * self.w as u16 + x as u16
    }

    pub fn xy(&self, sq: u16) -> (r: (i16, i16))
        requires
            self.valid(),
            sq < self.spec_ncells(),
        ensures
            r.0 == self.spec_x(sq as int),
            r.1 == self.spec_y(sq as int),
            0 <= r.0 < self.w,
            0 <= r.1 < self.h,
    {
        proof { lemma_xy_bounds(*self, sq as int); }
        ((sq % self.w as u16) as i16, (sq / self.w as u16) as i16)
    }

    /// Apply a delta with bounds check; `None` if off-board.
    pub fn offset(&self, sq: u16, dx: i8, dy: i8) -> (r: Option<u16>)
        requires
            self.valid(),
            sq < self.spec_ncells(),
        ensures
            r == self.spec_offset(sq as int, dx as int, dy as int),
            r matches Some(t) ==> t < self.spec_ncells(),
    {
        let (x, y) = self.xy(sq);
        let nx = x + dx as i16;
        let ny = y + dy as i16;
        if nx < 0 || ny < 0 || nx >= self.w as i16 || ny >= self.h as i16 {
            None
        } else {
            proof {
                lemma_sq_in_board(*self, nx as int, ny as int);
                assert(self.w * self.h <= 255 * 255) by (nonlinear_arith)
                    requires self.w <= 255, self.h <= 255, self.w >= 0, self.h >= 0;
                assert(ny * self.w <= 255 * 255) by (nonlinear_arith)
                    requires 0 <= ny <= 255, self.w <= 255, self.w >= 0;
            }
            Some(ny as u16 * self.w as u16 + nx as u16)
        }
    }
}

pub proof fn lemma_ncells_bound(b: BoardDef)
    ensures
        b.spec_ncells() <= 65025,
{
    assert(b.w * b.h <= 255 * 255) by (nonlinear_arith)
        requires b.w <= 255, b.h <= 255, b.w >= 0, b.h >= 0;
}

pub proof fn lemma_xy_bounds(b: BoardDef, sq: int)
    requires
        b.valid(),
        0 <= sq < b.spec_ncells(),
    ensures
        0 <= b.spec_x(sq) < b.w,
        0 <= b.spec_y(sq) < b.h,
        b.spec_sq(b.spec_x(sq), b.spec_y(sq)) == sq,
{
    let w = b.w as int;
    let h = b.h as int;
    assert(sq / w < h) by (nonlinear_arith)
        requires 0 <= sq < w * h, w >= 1, h >= 1;
    assert(sq / w >= 0) by (nonlinear_arith)
        requires 0 <= sq, w >= 1;
    assert((sq / w) * w + sq % w == sq) by (nonlinear_arith)
        requires w >= 1;
}

/// A step on the board moves the file and rank by exactly the step.
pub proof fn lemma_offset_xy(b: BoardDef, sq: int, dx: int, dy: int)
    requires
        b.valid(),
        0 <= sq < b.spec_ncells(),
        b.spec_offset(sq, dx, dy) is Some,
    ensures
        ({
            let n = b.spec_offset(sq, dx, dy)->0 as int;
            &&& 0 <= n < b.spec_ncells()
            &&& b.spec_x(n) == b.spec_x(sq) + dx
            &&& b.spec_y(n) == b.spec_y(sq) + dy
        }),
{
    let nx = b.spec_x(sq) + dx;
    let ny = b.spec_y(sq) + dy;
    lemma_sq_in_board(b, nx, ny);
    let n = ny * b.w + nx;
    lemma_ncells_bound(b);
    assert(n == (n as u16) as int);
    vstd::arithmetic::div_mod::lemma_fundamental_div_mod_converse(n, b.w as int, ny, nx);
}

/// Stepping back undoes a step on the board.
pub proof fn lemma_offset_back(b: BoardDef, sq: int, dx: int, dy: int)
    requires
        b.valid(),
        0 <= sq < b.spec_ncells(),
        b.spec_offset(sq, dx, dy) is Some,
    ensures
        b.spec_offset(b.spec_offset(sq, dx, dy)->0 as int, -dx, -dy) == Some(sq as u16),
{
    lemma_offset_xy(b, sq, dx, dy);
    lemma_xy_bounds(b, sq);
    vstd::arithmetic::div_mod::lemma_fundamental_div_mod(sq, b.w as int);
    assert(b.spec_y(sq) * b.w == b.w * b.spec_y(sq)) by (nonlinear_arith);
}

pub proof fn lemma_sq_in_board(b: BoardDef, x: int, y: int)
    requires
        b.valid(),
        0 <= x < b.w,
        0 <= y < b.h,
    ensures
        0 <= b.spec_sq(x, y) < b.spec_ncells(),
        b.spec_x(b.spec_sq(x, y)) == x,
        b.spec_y(b.spec_sq(x, y)) == y,
{
    let w = b.w as int;
    let h = b.h as int;
    assert(y * w + x < w * h) by (nonlinear_arith)
        requires 0 <= x < w, 0 <= y < h;
    assert(0 <= y * w) by (nonlinear_arith)
        requires 0 <= y, w >= 1;
    assert((y * w + x) / w == y && (y * w + x) % w == x) by (nonlinear_arith)
        requires 0 <= x < w, 0 <= y, w >= 1;
}

/// One bit of a u128 mask.
pub open spec fn mask_bit(m: u128, q: u16) -> bool {
    (m >> q) & 1u128 == 1u128
}

proof fn lemma_or_bit(m: u128, s: u16, q: u16)
    requires
        s < 128,
        q < 128,
    ensures
        mask_bit(m | (1u128 << s), q) == (mask_bit(m, q) || q == s),
{
    assert(((m | (1u128 << s)) >> q) & 1u128 == 1u128 <==> (((m >> q) & 1u128 == 1u128) || q == s))
        by (bit_vector)
        requires s < 128u16, q < 128u16;
}

/// A named board region, per side (palace, river halves, promotion ranks…).
/// Boards with zones are ≤ 128 cells, so one u128 mask per side suffices.
#[derive(Clone, Debug)]
pub struct Zone {
    masks: Vec<u128>,
}

impl Zone {
    /// Does the zone hold `sq` for `side`? Sides without a mask and squares
    /// past the 128-cell mask width are outside every zone.
    pub closed spec fn spec_contains(self, side: Side, sq: u16) -> bool {
        &&& (side as int) < self.masks@.len()
        &&& sq < 128
        &&& mask_bit(self.masks@[side as int], sq)
    }

    pub closed spec fn nsides(self) -> nat {
        self.masks@.len()
    }

    pub fn new(sides: u8) -> (z: Self)
        ensures
            z.nsides() == sides,
            forall|s: Side, q: u16| !z.spec_contains(s, q),
    {
        let z = Zone { masks: vec![0u128; sides as usize] };
        assert forall|s: Side, q: u16| !z.spec_contains(s, q) by {
            if (s as int) < z.masks@.len() && q < 128 {
                assert(((0u128 >> q) & 1u128) == 0u128) by (bit_vector);
            }
        }
        z
    }

    pub fn add(&mut self, side: Side, sq: u16)
        requires
            (side as int) < old(self).nsides(),
            sq < 128,
        ensures
            final(self).nsides() == old(self).nsides(),
            forall|s: Side, q: u16|
                #[trigger] final(self).spec_contains(s, q) == (old(self).spec_contains(s, q) || (
                s == side && q == sq)),
    {
        let m = self.masks[side as usize] | (1u128 << sq);
        self.masks.set(side as usize, m);
        assert forall|s: Side, q: u16|
            #[trigger] self.spec_contains(s, q) == (old(self).spec_contains(s, q) || (s == side
                && q == sq)) by {
            if s == side && q < 128 {
                lemma_or_bit(old(self).masks@[side as int], sq, q);
            }
        }
    }

    /// Add the rectangle `[x0,x1] × [y0,y1]` for `side`.
    pub fn add_rect(&mut self, side: Side, board: &BoardDef, x0: u8, y0: u8, x1: u8, y1: u8)
        requires
            (side as int) < old(self).nsides(),
            x0 <= x1,
            y0 <= y1,
            board.spec_sq(x1 as int, y1 as int) < 128,
        ensures
            final(self).nsides() == old(self).nsides(),
            forall|s: Side, q: u16|
                #[trigger] final(self).spec_contains(s, q) == (old(self).spec_contains(s, q) || (
                s == side && exists|x: int, y: int|
                    x0 <= x <= x1 && y0 <= y <= y1 && q == board.spec_sq(x, y))),
    {
        let ghost orig = *self;
        let mut y: u16 = y0 as u16;
        while y <= y1 as u16
            invariant
                y0 <= y <= y1 + 1,
                (side as int) < self.nsides(),
                self.nsides() == orig.nsides(),
                x0 <= x1,
                y0 <= y1,
                board.spec_sq(x1 as int, y1 as int) < 128,
                forall|s: Side, q: u16|
                    #[trigger] self.spec_contains(s, q) == (orig.spec_contains(s, q) || (s == side
                        && exists|xx: int, yy: int|
                        x0 <= xx <= x1 && y0 <= yy < y && q == board.spec_sq(xx, yy))),
            decreases y1 + 1 - y,
        {
            let ghost row_start = *self;
            let mut x: u16 = x0 as u16;
            while x <= x1 as u16
                invariant
                    x0 <= x <= x1 + 1,
                    y0 <= y <= y1,
                    (side as int) < self.nsides(),
                    self.nsides() == orig.nsides(),
                    board.spec_sq(x1 as int, y1 as int) < 128,
                    forall|s: Side, q: u16|
                        #[trigger] self.spec_contains(s, q) == (row_start.spec_contains(s, q) || (s
                            == side && exists|xx: int| x0 <= xx < x && q == board.spec_sq(xx, y as int))),
                decreases x1 + 1 - x,
            {
                proof {
                    assert(board.spec_sq(x as int, y as int) <= board.spec_sq(x1 as int, y1 as int)) by (nonlinear_arith)
                        requires x <= x1, y <= y1, board.w >= 0;
                }
                let q = board.sq(x as u8, y as u8);
                let ghost before = *self;
                self.add(side, q);
                assert forall|s: Side, qq: u16|
                    #[trigger] self.spec_contains(s, qq) == (row_start.spec_contains(s, qq) || (s
                        == side && exists|xx: int| x0 <= xx < x + 1 && qq == board.spec_sq(xx, y as int))) by {
                    assert(before.spec_contains(s, qq) == (row_start.spec_contains(s, qq) || (s == side
                        && exists|xx: int| x0 <= xx < x && qq == board.spec_sq(xx, y as int))));
                    if s == side && qq == q {
                        assert(x0 <= x as int && (x as int) < x + 1 && qq == board.spec_sq(x as int, y as int));
                    }
                    if s == side && (exists|xx: int| x0 <= xx < x + 1 && qq == board.spec_sq(xx, y as int)) {
                        let xx = choose|xx: int| x0 <= xx < x + 1 && qq == board.spec_sq(xx, y as int);
                        if xx < x {
                            assert(exists|xw: int| x0 <= xw < x && qq == board.spec_sq(xw, y as int));
                        }
                    }
                }
                x += 1;
            }
            assert forall|s: Side, q: u16|
                #[trigger] self.spec_contains(s, q) == (orig.spec_contains(s, q) || (s == side
                    && exists|xx: int, yy: int|
                    x0 <= xx <= x1 && y0 <= yy < y + 1 && q == board.spec_sq(xx, yy))) by {
                assert(row_start.spec_contains(s, q) == (orig.spec_contains(s, q) || (s == side
                    && exists|xx: int, yy: int|
                    x0 <= xx <= x1 && y0 <= yy < y && q == board.spec_sq(xx, yy))));
                if s == side && (exists|xx: int, yy: int|
                    x0 <= xx <= x1 && y0 <= yy < y + 1 && q == board.spec_sq(xx, yy)) {
                    let (xx, yy) = choose|xx: int, yy: int|
                        x0 <= xx <= x1 && y0 <= yy < y + 1 && q == board.spec_sq(xx, yy);
                    if yy < y {
                        assert(exists|xw: int, yw: int|
                            x0 <= xw <= x1 && y0 <= yw < y && q == board.spec_sq(xw, yw));
                    } else {
                        assert(x0 <= xx < x && q == board.spec_sq(xx, y as int));
                    }
                }
                if s == side && (exists|xx: int| x0 <= xx < x && q == board.spec_sq(xx, y as int)) {
                    let xx = choose|xx: int| x0 <= xx < x && q == board.spec_sq(xx, y as int);
                    assert(x0 <= xx <= x1 && y0 <= y as int && (y as int) < y + 1 && q == board.spec_sq(xx, y as int));
                }
                if s == side && (exists|xx: int, yy: int|
                    x0 <= xx <= x1 && y0 <= yy < y && q == board.spec_sq(xx, yy)) {
                    let (xx, yy) = choose|xx: int, yy: int|
                        x0 <= xx <= x1 && y0 <= yy < y && q == board.spec_sq(xx, yy);
                    assert(x0 <= xx <= x1 && y0 <= yy < y + 1 && q == board.spec_sq(xx, yy));
                }
            }
            y += 1;
        }
    }

    pub fn contains(&self, side: Side, sq: u16) -> (r: bool)
        ensures
            r == self.spec_contains(side, sq),
    {
        if (side as usize) < self.masks.len() && sq < 128 {
            (self.masks[side as usize] >> sq) & 1u128 == 1u128
        } else {
            false
        }
    }
}


// ---------------------------------------------------------------------------
// Policy layer: where composition stops.
// ---------------------------------------------------------------------------

#[derive(Clone, Copy, PartialEq, Eq, Debug, Structural)]
pub enum StalematePolicy {
    /// Chess: no legal moves and not in check is a draw.
    Draw,
    /// Xiangqi/shogi: the stuck player loses.
    Loss,
}

#[derive(Clone, Copy, PartialEq, Eq, Debug, Structural)]
pub enum CaptureFate {
    Destroy,
    /// Shogi: captured piece banked to the capturer's hand as its base type.
    ToHand,
}

/// Turn policy: one turn = one action, strict rotation.
#[derive(Clone, Copy, Debug)]
pub enum TurnPolicy {
    Alternate,
}

/// Pass policy: passing is illegal by default.
#[derive(Clone, Copy, Debug)]
pub enum PassPolicy {
    Forbidden,
}

#[derive(Clone, Debug)]
pub struct Policy {
    pub stalemate: StalematePolicy,
    pub capture_fate: CaptureFate,
    pub turn: TurnPolicy,
    pub pass: PassPolicy,
}

// ---------------------------------------------------------------------------
// Piece types
// ---------------------------------------------------------------------------

#[derive(Clone, Copy, PartialEq, Eq, Debug, Structural)]
pub enum PromoTrigger {
    /// Chess: promotion triggers when the destination is in the zone.
    Dest,
    /// Shogi: triggers when origin or destination is in the zone.
    FromOrDest,
}

/// Transformation rule. `optional` promotions still become forced when the
/// unpromoted piece could never act from its destination (shogi's
/// forced-if-immobile tier); that reachability is precomputed per square.
#[derive(Clone, Debug)]
pub struct PromoRule {
    pub zone: usize,
    pub choices: Vec<TypeId>,
    pub trigger: PromoTrigger,
    pub optional: bool,
}

#[derive(Clone, Debug)]
pub struct PieceTypeDef {
    pub name: &'static str,
    pub glyph: char,
    pub bits: Vec<MoveBit>,
    pub specials: Vec<SpecialBit>,
    pub abilities: Vec<AbilityBit>,
    pub royal: bool,
    pub promo: Option<PromoRule>,
    /// May be the rook half of a castling compound.
    pub castle_partner: bool,
    pub droppable: bool,
    /// Named legality predicate *nifu*: no drop where the file already holds
    /// an unpromoted piece of this type and side.
    pub drop_no_dup_file: bool,
    /// Named legality predicate *uchifuzume*: no drop that delivers
    /// immediate checkmate.
    pub drop_no_mate: bool,
    /// Hit-count armor: captures strike for 1 HP; the piece falls at 0.
    pub max_hp: i16,
    /// Multi-action Bit: compiles into ⟨move, move, self −1 HP⟩ compound
    /// moves — piece-local, atomic.
    pub overclock: bool,
    /// Decoy: moves but cannot capture or give check.
    pub hologram: bool,
    /// Concealed presence: hidden from opponents until revealed (masking
    /// lives at the battle layer).
    pub stealth: bool,
    /// Terrain permission: hovers over pits.
    pub flight: bool,
    /// Terrain permission: passes through walls and destructible blocks.
    pub drill: bool,
    /// EMP aura radius (0 = none): enemy ability Bits inside it are dead.
    pub emp_aura: u8,
}

/// The defaults of a freshly declared piece type.
pub open spec fn fresh_type(name: &'static str, glyph: char, bits: Vec<MoveBit>, d: PieceTypeDef) -> bool {
    &&& d.name == name
    &&& d.glyph == glyph
    &&& d.bits == bits
    &&& d.specials@.len() == 0
    &&& d.abilities@.len() == 0
    &&& !d.royal
    &&& d.promo.is_none()
    &&& !d.castle_partner
    &&& !d.droppable
    &&& !d.drop_no_dup_file
    &&& !d.drop_no_mate
    &&& d.max_hp == 1
    &&& !d.overclock
    &&& !d.hologram
    &&& !d.stealth
    &&& !d.flight
    &&& !d.drill
    &&& d.emp_aura == 0
}

impl PieceTypeDef {
    pub fn new(name: &'static str, glyph: char, bits: Vec<MoveBit>) -> (d: Self)
        ensures
            fresh_type(name, glyph, bits, d),
    {
        PieceTypeDef {
            name,
            glyph,
            bits,
            specials: Vec::new(),
            abilities: Vec::new(),
            royal: false,
            promo: None,
            castle_partner: false,
            droppable: false,
            drop_no_dup_file: false,
            drop_no_mate: false,
            max_hp: 1,
            overclock: false,
            hologram: false,
            stealth: false,
            flight: false,
            drill: false,
            emp_aura: 0,
        }
    }

    pub fn specials(self, s: Vec<SpecialBit>) -> (d: Self)
        ensures
            d == (PieceTypeDef { specials: s, ..self }),
    {
        let mut d = self;
        d.specials = s;
        d
    }

    pub fn abilities(self, a: Vec<AbilityBit>) -> (d: Self)
        ensures
            d == (PieceTypeDef { abilities: a, ..self }),
    {
        let mut d = self;
        d.abilities = a;
        d
    }

    pub fn hp(self, hp: i16) -> (d: Self)
        ensures
            d == (PieceTypeDef { max_hp: hp, ..self }),
    {
        let mut d = self;
        d.max_hp = hp;
        d
    }

    pub fn overclock(self) -> (d: Self)
        ensures
            d == (PieceTypeDef { overclock: true, ..self }),
    {
        let mut d = self;
        d.overclock = true;
        d
    }

    pub fn hologram(self) -> (d: Self)
        ensures
            d == (PieceTypeDef { hologram: true, ..self }),
    {
        let mut d = self;
        d.hologram = true;
        d
    }

    pub fn stealth(self) -> (d: Self)
        ensures
            d == (PieceTypeDef { stealth: true, ..self }),
    {
        let mut d = self;
        d.stealth = true;
        d
    }

    pub fn flight(self) -> (d: Self)
        ensures
            d == (PieceTypeDef { flight: true, ..self }),
    {
        let mut d = self;
        d.flight = true;
        d
    }

    pub fn drill(self) -> (d: Self)
        ensures
            d == (PieceTypeDef { drill: true, ..self }),
    {
        let mut d = self;
        d.drill = true;
        d
    }

    pub fn emp(self, radius: u8) -> (d: Self)
        ensures
            d == (PieceTypeDef { emp_aura: radius, ..self }),
    {
        let mut d = self;
        d.emp_aura = radius;
        d
    }

    pub fn royal(self) -> (d: Self)
        ensures
            d == (PieceTypeDef { royal: true, ..self }),
    {
        let mut d = self;
        d.royal = true;
        d
    }

    pub fn promo(self, p: PromoRule) -> (d: Self)
        ensures
            d == (PieceTypeDef { promo: Some(p), ..self }),
    {
        let mut d = self;
        d.promo = Some(p);
        d
    }

    pub fn castle_partner(self) -> (d: Self)
        ensures
            d == (PieceTypeDef { castle_partner: true, ..self }),
    {
        let mut d = self;
        d.castle_partner = true;
        d
    }

    pub fn droppable(self) -> (d: Self)
        ensures
            d == (PieceTypeDef { droppable: true, ..self }),
    {
        let mut d = self;
        d.droppable = true;
        d
    }

    pub fn nifu(self) -> (d: Self)
        ensures
            d == (PieceTypeDef { drop_no_dup_file: true, ..self }),
    {
        let mut d = self;
        d.drop_no_dup_file = true;
        d
    }

    pub fn no_drop_mate(self) -> (d: Self)
        ensures
            d == (PieceTypeDef { drop_no_mate: true, ..self }),
    {
        let mut d = self;
        d.drop_no_mate = true;
        d
    }
}


// ---------------------------------------------------------------------------
// Compiled runtime kernels: Bits are the authoring format, not the runtime
// format.
// ---------------------------------------------------------------------------

#[derive(Clone, Debug)]
pub struct LeapK {
    pub d: Delta,
    pub mode: Mode,
    /// Cells (relative to origin) that must be empty — lame leapers.
    pub blockers: Vec<Delta>,
    pub from_zone: Option<usize>,
    pub to_zone: Option<usize>,
    pub target: TargetPred,
    pub min_hp: i16,
    pub max_hp: i16,
}

#[derive(Clone, Debug)]
pub struct RideK {
    pub d: Delta,
    pub mode: Mode,
    pub from_zone: Option<usize>,
    pub to_zone: Option<usize>,
    pub target: TargetPred,
    pub min_hp: i16,
    pub max_hp: i16,
    /// Range limit in steps along the ray (0 = unlimited).
    pub max_steps: u8,
}

/// One-screen hopper (cannon, grasshopper, locust).
#[derive(Clone, Debug)]
pub struct HopK {
    pub d: Delta,
    pub mode: Mode,
    pub landing: HopMode,
    pub from_zone: Option<usize>,
    pub to_zone: Option<usize>,
    pub target: TargetPred,
    pub min_hp: i16,
    pub max_hp: i16,
}

#[derive(Clone, Debug)]
pub struct Compiled {
    pub leaps: Vec<LeapK>,
    pub rides: Vec<RideK>,
    pub hops: Vec<HopK>,
    /// Per square: could this type ever act from here on an empty board?
    /// Drives drop legality and forced-if-immobile promotion.
    pub can_act_from: Vec<bool>,
    /// Compiled special-move script references.
    pub specials: Vec<SpecialRef>,
    /// The overclock compound, when the type carries it.
    pub overclock: Option<ScriptRef>,
    /// The drop row, when the type is droppable.
    pub drop: Option<DropRef>,
}

pub open spec fn delta_ok(d: Delta) -> bool {
    d.dx != i8::MIN && d.dy != i8::MIN && !(d.dx == 0 && d.dy == 0)
}

pub open spec fn leaps_ok(v: Seq<LeapK>) -> bool {
    forall|k: int| 0 <= k < v.len() ==> delta_ok(#[trigger] v[k].d)
}

pub open spec fn rides_ok(v: Seq<RideK>) -> bool {
    forall|k: int| 0 <= k < v.len() ==> delta_ok(#[trigger] v[k].d)
}

pub open spec fn hops_ok(v: Seq<HopK>) -> bool {
    forall|k: int| 0 <= k < v.len() ==> delta_ok(#[trigger] v[k].d)
}

// ---------------------------------------------------------------------------
// The compile step, stated
// ---------------------------------------------------------------------------

/// The `(m, n)` a Bit's geometry is built on.
pub open spec fn geom_mn(g: Geometry) -> (i8, i8) {
    match g {
        Geometry::Leaper(m, n) => (m, n),
        Geometry::Rider(m, n) => (m, n),
        Geometry::Hopper(m, n) => (m, n),
    }
}

/// Which kernel list a Bit compiles into: leaps, rides or hops.
pub open spec fn geom_kind(g: Geometry) -> nat {
    match g {
        Geometry::Leaper(..) => 0,
        Geometry::Rider(..) => 1,
        Geometry::Hopper(..) => 2,
    }
}

/// A step in a side's frame: side 0 as authored, every other side with
/// `dy` flipped.
pub open spec fn side_frame(d: Delta, s: Side) -> Delta {
    if s == 0 { d } else { Delta { dx: d.dx, dy: (-d.dy) as i8 } }
}

/// Half a step component, rounded toward zero.
pub open spec fn half_toward_zero(x: i8) -> i8 {
    if x >= 0 { (x / 2) as i8 } else { (-((-x) / 2)) as i8 }
}

/// The cells a lame leaper's path rule requires empty, relative to the
/// origin, for a leap along `d`: none, the midpoint, or one orthogonal step
/// along the dominant axis.
pub open spec fn leg_cells(p: PathRule, d: Delta) -> Seq<Delta> {
    match p {
        PathRule::Free => Seq::empty(),
        PathRule::Midpoint => seq![Delta { dx: half_toward_zero(d.dx), dy: half_toward_zero(d.dy) }],
        PathRule::Leg => if d.dx == 2 || d.dx == -2 {
            seq![Delta { dx: spec_signum(d.dx), dy: 0 }]
        } else {
            seq![Delta { dx: 0, dy: spec_signum(d.dy) }]
        },
    }
}

/// The `(bit, step)` pairs of the steps in `ds` that pass the bit's
/// direction mask, each in side `s`'s frame, in order.
pub open spec fn kept_pairs(ds: Seq<Delta>, b: MoveBit, s: Side) -> Seq<(MoveBit, Delta)>
    decreases ds.len(),
{
    if ds.len() == 0 {
        Seq::empty()
    } else {
        let prev = kept_pairs(ds.drop_last(), b, s);
        if spec_keep(b.dirs, ds.last()) { prev.push((b, side_frame(ds.last(), s))) } else { prev }
    }
}

/// The `(bit, step)` pairs behind the kernels of one kind for side `s`:
/// bit by bit, each bit's symmetric steps that pass its mask.
pub open spec fn kernel_sources(bits: Seq<MoveBit>, s: Side, kind: nat) -> Seq<(MoveBit, Delta)>
    decreases bits.len(),
{
    if bits.len() == 0 {
        Seq::empty()
    } else {
        let prev = kernel_sources(bits.drop_last(), s, kind);
        let b = bits.last();
        if geom_kind(b.geom) == kind {
            prev + kept_pairs(spec_symmetric_deltas(geom_mn(b.geom).0, geom_mn(b.geom).1), b, s)
        } else {
            prev
        }
    }
}

/// Leap kernel `k` is bit `b` along `d`.
pub open spec fn leap_of(b: MoveBit, d: Delta, k: LeapK) -> bool {
    &&& k.d == d
    &&& k.mode == b.mode
    &&& k.blockers@ == leg_cells(b.path, d)
    &&& k.from_zone == b.from_zone
    &&& k.to_zone == b.to_zone
    &&& k.target == b.target
    &&& k.min_hp == b.min_hp
    &&& k.max_hp == b.max_hp
}

/// Ride kernel `k` is bit `b` along `d`.
pub open spec fn ride_of(b: MoveBit, d: Delta, k: RideK) -> bool {
    &&& k.d == d
    &&& k.mode == b.mode
    &&& k.from_zone == b.from_zone
    &&& k.to_zone == b.to_zone
    &&& k.target == b.target
    &&& k.min_hp == b.min_hp
    &&& k.max_hp == b.max_hp
    &&& k.max_steps == b.max_steps
}

/// Hop kernel `k` is bit `b` along `d`.
pub open spec fn hop_of(b: MoveBit, d: Delta, k: HopK) -> bool {
    &&& k.d == d
    &&& k.mode == b.mode
    &&& k.landing == b.landing
    &&& k.from_zone == b.from_zone
    &&& k.to_zone == b.to_zone
    &&& k.target == b.target
    &&& k.min_hp == b.min_hp
    &&& k.max_hp == b.max_hp
}

pub open spec fn leaps_match(ks: Seq<LeapK>, src: Seq<(MoveBit, Delta)>) -> bool {
    &&& ks.len() == src.len()
    &&& forall|j: int| 0 <= j < ks.len() ==> #[trigger] leap_of(src[j].0, src[j].1, ks[j])
}

pub open spec fn rides_match(ks: Seq<RideK>, src: Seq<(MoveBit, Delta)>) -> bool {
    &&& ks.len() == src.len()
    &&& forall|j: int| 0 <= j < ks.len() ==> #[trigger] ride_of(src[j].0, src[j].1, ks[j])
}

pub open spec fn hops_match(ks: Seq<HopK>, src: Seq<(MoveBit, Delta)>) -> bool {
    &&& ks.len() == src.len()
    &&& forall|j: int| 0 <= j < ks.len() ==> #[trigger] hop_of(src[j].0, src[j].1, ks[j])
}

/// The kernels compiled for a type's Bits, for side `s`: one leap, ride or
/// hop kernel per kept step of each Bit, in Bit order.
pub open spec fn kernels_from(bits: Seq<MoveBit>, s: Side, ck: Compiled) -> bool {
    &&& leaps_match(ck.leaps@, kernel_sources(bits, s, 0))
    &&& rides_match(ck.rides@, kernel_sources(bits, s, 1))
    &&& hops_match(ck.hops@, kernel_sources(bits, s, 2))
}

/// Zone membership with an optional zone id over a zone table.
pub open spec fn zone_ok_in(zones: Seq<Zone>, z: Option<usize>, side: Side, at: u16) -> bool {
    match z {
        None => true,
        Some(zi) => zi < zones.len() && zones[zi as int].spec_contains(side, at),
    }
}

/// A kernel with these zones along `d` can act from `q` on an empty
/// board: the origin passes its zone and the target is on the board and
/// passes its zone.
pub open spec fn acts_from_in(board: BoardDef, zones: Seq<Zone>, s: Side, q: u16, from_zone: Option<usize>,
    to_zone: Option<usize>, d: Delta) -> bool {
    &&& zone_ok_in(zones, from_zone, s, q)
    &&& match board.spec_offset(q as int, d.dx as int, d.dy as int) {
        Some(to) => zone_ok_in(zones, to_zone, s, to),
        None => false,
    }
}

/// Some leap or ride kernel can act from `q` on an empty board (hops need
/// a screen, so they never can).
pub open spec fn acts_somewhere_in(board: BoardDef, zones: Seq<Zone>, leaps: Seq<LeapK>, rides: Seq<RideK>, s: Side,
    q: u16) -> bool {
    ||| exists|j: int| 0 <= j < leaps.len()
        && #[trigger] acts_from_in(board, zones, s, q, leaps[j].from_zone, leaps[j].to_zone, leaps[j].d)
    ||| exists|j: int| 0 <= j < rides.len()
        && #[trigger] acts_from_in(board, zones, s, q, rides[j].from_zone, rides[j].to_zone, rides[j].d)
}

/// What the compile step makes of type `k / sides` for side `k % sides`:
/// its Bits' kernels, and where on an empty board the type could act.
pub open spec fn compiled_for(board: BoardDef, sides: u8, types: Seq<PieceTypeDef>, zones: Seq<Zone>, k: int,
    ck: Compiled) -> bool {
    let t = k / (sides as int);
    let s = (k % (sides as int)) as Side;
    &&& kernels_from(types[t].bits@, s, ck)
    &&& forall|q: int| 0 <= q < board.spec_ncells() ==> #[trigger] ck.can_act_from@[q]
        == acts_somewhere_in(board, zones, ck.leaps@, ck.rides@, s, q as u16)
}

impl Compiled {
    pub open spec fn wf(self, ncells: nat) -> bool {
        &&& self.can_act_from@.len() == ncells
        &&& leaps_ok(self.leaps@)
        &&& rides_ok(self.rides@)
        &&& hops_ok(self.hops@)
        &&& forall|k: int| 0 <= k < self.specials@.len() ==> crate::move_defs::row_facts(
            #[trigger] self.specials@[k].kind, self.specials@[k].script)
            && self.specials@[k].kind != MoveKind::Drop && self.specials@[k].kind != MoveKind::Ability
            && self.specials@[k].kind != MoveKind::Normal
        &&& (self.drop matches Some(dr) ==> crate::move_defs::row_facts(MoveKind::Drop, dr.script))
    }
}

// ---------------------------------------------------------------------------
// GameDef
// ---------------------------------------------------------------------------

#[derive(Debug)]
pub struct GameDef {
    pub board: BoardDef,
    pub sides: u8,
    pub types: Vec<PieceTypeDef>,
    pub zones: Vec<Zone>,
    pub policy: Policy,
    /// Initial setup: (type, side, x, y).
    pub start: Vec<(TypeId, Side, u8, u8)>,
    /// Per (type, side) compiled kernels, `t * sides + s`.
    pub compiled: Vec<Compiled>,
    /// Ground-truth hashing tables, deterministic per game shape.
    pub zobrist: Zobrist,
    /// Representation switch for the board-class comparison; the mailbox
    /// path serves both settings.
    pub use_bitboards: bool,
    /// Game-owned custom ability rows (`AbilityBit::Custom(i)`).
    pub custom_effects: Vec<CustomAbility>,
    /// Game-owned custom terrain rows (terrain code `NT + i`).
    pub custom_terrains: Vec<CustomTerrain>,
}

/// Every Bit's geometry stays clear of the `i8` edge (its negation fits).
pub open spec fn bit_ok(b: MoveBit) -> bool {
    match b.geom {
        Geometry::Leaper(m, n) | Geometry::Rider(m, n) | Geometry::Hopper(m, n) => m != i8::MIN && n != i8::MIN,
    }
}

/// What a piece-type table must satisfy to compile: geometry clear of the
/// `i8` edge and promotion choices naming real types.
pub open spec fn types_ok(types: Seq<PieceTypeDef>) -> bool {
    forall|t: int| 0 <= t < types.len() ==> type_ok(#[trigger] types[t], types.len())
}

pub open spec fn type_ok(d: PieceTypeDef, ntypes: nat) -> bool {
    &&& forall|k: int| 0 <= k < d.bits@.len() ==> #[trigger] bit_ok(d.bits@[k])
    &&& (d.promo matches Some(pr) ==> forall|c: int|
        0 <= c < pr.choices@.len() ==> (#[trigger] pr.choices@[c] as int) < ntypes)
}

/// The construction requirements: a usable board, at least one side, type
/// ids that fit a `TypeId`, hashing tables that fit the address space,
/// custom terrain codes that fit a `u8`, and a compilable type table.
pub open spec fn config_ok(board: BoardDef, sides: u8, types: Seq<PieceTypeDef>, ncustom_terrains: nat) -> bool {
    &&& board.valid()
    &&& sides >= 1
    &&& types.len() < 256
    &&& table_sizes_fit(board.spec_ncells() as int, types.len() as int, sides as int)
    &&& ncustom_terrains + NT <= 256
    &&& types_ok(types)
}

impl GameDef {
    pub closed spec fn compiled_ok(self) -> bool {
        &&& self.compiled@.len() == self.types@.len() * self.sides
        &&& forall|k: int| 0 <= k < self.compiled@.len() ==> (#[trigger] self.compiled@[k]).wf(self.board.spec_ncells())
        &&& forall|k: int| 0 <= k < self.compiled@.len() ==> #[trigger] self.compiled_as(k, self.compiled@[k])
    }

    /// Entry `k` of the compiled table is what the compile step makes of
    /// type `k / sides` for side `k % sides`.
    pub open spec fn compiled_as(self, k: int, ck: Compiled) -> bool {
        compiled_for(self.board, self.sides, self.types@, self.zones@, k, ck)
    }

    pub open spec fn wf(self) -> bool {
        &&& config_ok(self.board, self.sides, self.types@, self.custom_terrains@.len())
        &&& self.zobrist.wf()
        &&& self.zobrist.ncells() == self.board.spec_ncells()
        &&& self.zobrist.ntypes() == self.types@.len()
        &&& self.zobrist.nsides() == self.sides
        &&& self.compiled_ok()
    }

    pub open spec fn ncells(self) -> nat {
        self.board.spec_ncells()
    }

    pub open spec fn ntypes(self) -> nat {
        self.types@.len()
    }

    /// The start list names real types, sides and squares.
    pub open spec fn start_ok(self) -> bool {
        &&& self.start@.len() < 0x7fff_ffff
        &&& forall|k: int| 0 <= k < self.start@.len() ==> {
            let e = #[trigger] self.start@[k];
            &&& (e.0 as int) < self.types@.len()
            &&& e.1 < self.sides
            &&& e.2 < self.board.w
            &&& e.3 < self.board.h
        }
    }

    pub fn new(
        board: BoardDef,
        sides: u8,
        types: Vec<PieceTypeDef>,
        zones: Vec<Zone>,
        policy: Policy,
        start: Vec<(TypeId, Side, u8, u8)>,
    ) -> (g: Self)
        requires
            config_ok(board, sides, types@, 0),
        ensures
            g.wf(),
            g.board == board,
            g.sides == sides,
            g.types == types,
            g.zones == zones,
            g.policy == policy,
            g.start == start,
            g.custom_effects@.len() == 0,
            g.custom_terrains@.len() == 0,
            !g.use_bitboards,
    {
        Self::with_customs(board, sides, types, zones, policy, start, Vec::new(), Vec::new())
    }

    /// A game definition owning custom ability and terrain rows.
    pub fn with_customs(
        board: BoardDef,
        sides: u8,
        types: Vec<PieceTypeDef>,
        zones: Vec<Zone>,
        policy: Policy,
        start: Vec<(TypeId, Side, u8, u8)>,
        custom_effects: Vec<CustomAbility>,
        custom_terrains: Vec<CustomTerrain>,
    ) -> (g: Self)
        requires
            config_ok(board, sides, types@, custom_terrains@.len()),
        ensures
            g.wf(),
            g.board == board,
            g.sides == sides,
            g.types == types,
            g.zones == zones,
            g.policy == policy,
            g.start == start,
            g.custom_effects == custom_effects,
            g.custom_terrains == custom_terrains,
            !g.use_bitboards,
    {
        let zobrist = Zobrist::for_shape(board.ncells(), types.len(), sides);
        let mut g = GameDef {
            board,
            sides,
            types,
            zones,
            policy,
            start,
            compiled: Vec::new(),
            zobrist,
            use_bitboards: false,
            custom_effects,
            custom_terrains,
        };
        g.compile();
        g
    }

    pub fn compiled(&self, t: TypeId, s: Side) -> (c: &Compiled)
        requires
            self.wf(),
            (t as int) < self.ntypes(),
            s < self.sides,
        ensures
            c.wf(self.ncells()),
            *c == self.compiled@[(t as int) * self.sides + s],
    {
        proof {
            assert((t as int) * self.sides + s < self.types@.len() * self.sides) by (nonlinear_arith)
                requires (t as int) < self.types@.len(), s < self.sides;
            assert((t as int) * self.sides + s >= 0) by (nonlinear_arith)
                requires t >= 0, s >= 0, self.sides >= 0;
        }
        &self.compiled[t as usize * self.sides as usize + s as usize]
    }

    /// The custom terrain row of code `t`, when `t` is in the custom band.
    pub open spec fn spec_custom_terrain(self, t: u8) -> Option<CustomTerrain> {
        if (t as int) >= NT && (t as int) - NT < self.custom_terrains@.len() {
            Some(self.custom_terrains@[(t as int) - NT])
        } else {
            None
        }
    }

    pub fn custom_terrain(&self, t: u8) -> (r: Option<&CustomTerrain>)
        ensures
            r matches Some(c) ==> self.spec_custom_terrain(t) == Some(*c),
            r is None ==> self.spec_custom_terrain(t) is None,
    {
        if (t as usize) >= NT && (t as usize) - NT < self.custom_terrains.len() {
            Some(&self.custom_terrains[(t as usize) - NT])
        } else {
            None
        }
    }

    /// Is code `t` a destructible block: a stdlib block tier, or a custom
    /// row with tiers?
    pub open spec fn spec_terrain_is_block(self, t: u8) -> bool {
        match self.spec_custom_terrain(t) {
            Some(c) => c.tiers > 0,
            None => spec_tiers(t) > 0,
        }
    }

    /// One erosion step: a stdlib block steps down its band; a custom block
    /// clears to floor; anything else stays.
    pub open spec fn spec_terrain_erode(self, t: u8) -> u8 {
        match self.spec_custom_terrain(t) {
            Some(c) => if c.tiers > 0 { T_NONE } else { t },
            None => if spec_tiers(t) > 0 { spec_erode(t) } else { t },
        }
    }

    pub fn terrain_is_block(&self, t: u8) -> (r: bool)
        ensures
            r == self.spec_terrain_is_block(t),
    {
        match self.custom_terrain(t) {
            Some(c) => c.tiers > 0,
            None => is_block(t),
        }
    }

    pub fn terrain_erode(&self, t: u8) -> (r: u8)
        ensures
            r == self.spec_terrain_erode(t),
    {
        match self.custom_terrain(t) {
            Some(c) => if c.tiers > 0 { T_NONE } else { t },
            None => if is_block(t) { erode(t) } else { t },
        }
    }

    /// Zone membership with an optional zone id: no zone always passes; an
    /// id naming no zone never does.
    pub open spec fn spec_zone_ok(self, z: Option<usize>, side: Side, at: u16) -> bool {
        match z {
            None => true,
            Some(zi) => zi < self.zones@.len() && self.zones@[zi as int].spec_contains(side, at),
        }
    }

    pub fn zone_ok(&self, z: Option<usize>, side: Side, at: u16) -> (r: bool)
        ensures
            r == self.spec_zone_ok(z, side, at),
    {
        match z {
            None => true,
            Some(zi) => zi < self.zones.len() && self.zones[zi].contains(side, at),
        }
    }

    /// The compile step: expand each Bit's symmetric deltas, apply the
    /// direction mask in the mover's frame, then flip `dy` into each side's
    /// frame; lame-leaper blockers are derived per flipped delta.
    fn compile(&mut self)
        requires
            config_ok(old(self).board, old(self).sides, old(self).types@, old(self).custom_terrains@.len()),
        ensures
            final(self).compiled_ok(),
            final(self).board == old(self).board,
            final(self).sides == old(self).sides,
            final(self).types == old(self).types,
            final(self).zones == old(self).zones,
            final(self).policy == old(self).policy,
            final(self).start == old(self).start,
            final(self).zobrist == old(self).zobrist,
            final(self).use_bitboards == old(self).use_bitboards,
            final(self).custom_effects == old(self).custom_effects,
            final(self).custom_terrains == old(self).custom_terrains,
    {
        let mut all: Vec<Compiled> = Vec::new();
        let n = self.types.len();
        let mut t: usize = 0;
        while t < n
            invariant
                n == self.types@.len(),
                t <= n,
                config_ok(self.board, self.sides, self.types@, self.custom_terrains@.len()),
                all@.len() == t * self.sides,
                forall|k: int| 0 <= k < all@.len() ==> (#[trigger] all@[k]).wf(self.board.spec_ncells()),
                forall|k: int| 0 <= k < all@.len() ==> #[trigger] self.compiled_as(k, all@[k]),
            decreases n - t,
        {
            let mut s: u8 = 0;
            while s < self.sides
                invariant
                    n == self.types@.len(),
                    t < n,
                    s <= self.sides,
                    config_ok(self.board, self.sides, self.types@, self.custom_terrains@.len()),
                    all@.len() == t * self.sides + s,
                    forall|k: int| 0 <= k < all@.len() ==> (#[trigger] all@[k]).wf(self.board.spec_ncells()),
                    forall|k: int| 0 <= k < all@.len() ==> #[trigger] self.compiled_as(k, all@[k]),
                decreases self.sides - s,
            {
                let c = self.compile_one(t as TypeId, s);
                proof {
                    let k = t * self.sides + s;
                    vstd::arithmetic::div_mod::lemma_fundamental_div_mod_converse(k, self.sides as int, t as int, s as int);
                    assert(self.compiled_as(k, c));
                }
                all.push(c);
                s += 1;
            }
            proof {
                assert((t + 1) * self.sides == t * self.sides + self.sides) by (nonlinear_arith);
            }
            t += 1;
        }
        let ghost pre = *self;
        self.compiled = all;
        proof {
            assert forall|k: int| 0 <= k < self.compiled@.len() implies #[trigger] self.compiled_as(k, self.compiled@[k]) by {
                assert(pre.compiled_as(k, all@[k]));
            }
        }
    }

    pub open spec fn acts_from(self, s: Side, q: u16, from_zone: Option<usize>, to_zone: Option<usize>, d: Delta) -> bool {
        acts_from_in(self.board, self.zones@, s, q, from_zone, to_zone, d)
    }

    pub open spec fn acts_somewhere(self, leaps: Seq<LeapK>, rides: Seq<RideK>, s: Side, q: u16) -> bool {
        acts_somewhere_in(self.board, self.zones@, leaps, rides, s, q)
    }

    fn compile_one(&self, t: TypeId, s: Side) -> (ck: Compiled)
        requires
            config_ok(self.board, self.sides, self.types@, self.custom_terrains@.len()),
            (t as int) < self.types@.len(),
        ensures
            ck.wf(self.board.spec_ncells()),
            kernels_from(self.types@[t as int].bits@, s, ck),
            forall|q: int| 0 <= q < self.board.spec_ncells() ==> #[trigger] ck.can_act_from@[q]
                == self.acts_somewhere(ck.leaps@, ck.rides@, s, q as u16),
    {
        let ty = &self.types[t as usize];
        let ghost bits = ty.bits@;
        let mut leaps: Vec<LeapK> = Vec::new();
        let mut rides: Vec<RideK> = Vec::new();
        let mut hops: Vec<HopK> = Vec::new();
        let mut bi: usize = 0;
        while bi < ty.bits.len()
            invariant
                ty == self.types@[t as int],
                bits == ty.bits@,
                (t as int) < self.types@.len(),
                config_ok(self.board, self.sides, self.types@, self.custom_terrains@.len()),
                bi <= ty.bits@.len(),
                leaps_ok(leaps@),
                rides_ok(rides@),
                hops_ok(hops@),
                leaps_match(leaps@, kernel_sources(bits.subrange(0, bi as int), s, 0)),
                rides_match(rides@, kernel_sources(bits.subrange(0, bi as int), s, 1)),
                hops_match(hops@, kernel_sources(bits.subrange(0, bi as int), s, 2)),
            decreases ty.bits@.len() - bi,
        {
            let bit = &ty.bits[bi];
            assert(bit_ok(ty.bits@[bi as int]));
            let (m, n) = match bit.geom {
                Geometry::Leaper(m, n) => (m, n),
                Geometry::Rider(m, n) => (m, n),
                Geometry::Hopper(m, n) => (m, n),
            };
            assert((m, n) == geom_mn(bit.geom));
            let ghost kind = geom_kind(bit.geom);
            let ghost pre = bits.subrange(0, bi as int);
            let ghost l0 = kernel_sources(pre, s, 0);
            let ghost r0 = kernel_sources(pre, s, 1);
            let ghost h0 = kernel_sources(pre, s, 2);
            let deltas = symmetric_deltas(m, n);
            let mut di: usize = 0;
            while di < deltas.len()
                invariant
                    di <= deltas@.len(),
                    deltas@ == spec_symmetric_deltas(m, n),
                    m != i8::MIN,
                    n != i8::MIN,
                    leaps_ok(leaps@),
                    rides_ok(rides@),
                    hops_ok(hops@),
                    kind == geom_kind(bit.geom),
                    leaps_match(leaps@, l0 + (if kind == 0 { kept_pairs(deltas@.subrange(0, di as int), *bit, s) } else { Seq::empty() })),
                    rides_match(rides@, r0 + (if kind == 1 { kept_pairs(deltas@.subrange(0, di as int), *bit, s) } else { Seq::empty() })),
                    hops_match(hops@, h0 + (if kind == 2 { kept_pairs(deltas@.subrange(0, di as int), *bit, s) } else { Seq::empty() })),
                decreases deltas@.len() - di,
            {
                let d0 = deltas[di];
                proof {
                    assert(deltas@.contains(d0));
                    lemma_symmetric_in_range(m, n, d0);
                    assert(deltas@.subrange(0, di + 1).drop_last() =~= deltas@.subrange(0, di as int));
                    assert(deltas@.subrange(0, di + 1).last() == d0);
                }
                let ghost kp = kept_pairs(deltas@.subrange(0, di as int), *bit, s);
                if bit.dirs.keep(d0) {
                    let d = if s == 0 { d0 } else { Delta::new(d0.dx, -d0.dy) };
                    assert(d == side_frame(d0, s));
                    let ghost kp2 = kp.push((*bit, d));
                    assert(kept_pairs(deltas@.subrange(0, di + 1), *bit, s) == kp2);
                    match bit.geom {
                        Geometry::Leaper(..) => {
                            let blockers = match bit.path {
                                PathRule::Free => Vec::new(),
                                PathRule::Midpoint => vec![Delta::new(d.dx / 2, d.dy / 2)],
                                PathRule::Leg => {
                                    if d.dx == 2 || d.dx == -2 {
                                        vec![Delta::new(signum(d.dx), 0)]
                                    } else {
                                        vec![Delta::new(0, signum(d.dy))]
                                    }
                                },
                            };
                            assert(blockers@ =~= leg_cells(bit.path, d));
                            let ghost before = leaps@;
                            leaps.push(LeapK {
                                d,
                                mode: bit.mode,
                                blockers,
                                from_zone: bit.from_zone,
                                to_zone: bit.to_zone,
                                target: bit.target,
                                min_hp: bit.min_hp,
                                max_hp: bit.max_hp,
                            });
                            proof {
                                assert(l0 + kp2 =~= (l0 + kp).push((*bit, d)));
                                let src = l0 + kp2;
                                assert forall|j: int| 0 <= j < leaps@.len() implies #[trigger] leap_of(src[j].0, src[j].1, leaps@[j]) by {
                                    if j < before.len() {
                                        assert(leaps@[j] == before[j]);
                                        assert(src[j] == (l0 + kp)[j]);
                                    }
                                }
                            }
                        },
                        Geometry::Rider(..) => {
                            let ghost before = rides@;
                            rides.push(RideK {
                                d,
                                mode: bit.mode,
                                from_zone: bit.from_zone,
                                to_zone: bit.to_zone,
                                target: bit.target,
                                min_hp: bit.min_hp,
                                max_hp: bit.max_hp,
                                max_steps: bit.max_steps,
                            });
                            proof {
                                assert(r0 + kp2 =~= (r0 + kp).push((*bit, d)));
                                let src = r0 + kp2;
                                assert forall|j: int| 0 <= j < rides@.len() implies #[trigger] ride_of(src[j].0, src[j].1, rides@[j]) by {
                                    if j < before.len() {
                                        assert(rides@[j] == before[j]);
                                        assert(src[j] == (r0 + kp)[j]);
                                    }
                                }
                            }
                        },
                        Geometry::Hopper(..) => {
                            let ghost before = hops@;
                            hops.push(HopK {
                                d,
                                mode: bit.mode,
                                landing: bit.landing,
                                from_zone: bit.from_zone,
                                to_zone: bit.to_zone,
                                target: bit.target,
                                min_hp: bit.min_hp,
                                max_hp: bit.max_hp,
                            });
                            proof {
                                assert(h0 + kp2 =~= (h0 + kp).push((*bit, d)));
                                let src = h0 + kp2;
                                assert forall|j: int| 0 <= j < hops@.len() implies #[trigger] hop_of(src[j].0, src[j].1, hops@[j]) by {
                                    if j < before.len() {
                                        assert(hops@[j] == before[j]);
                                        assert(src[j] == (h0 + kp)[j]);
                                    }
                                }
                            }
                        },
                    }
                } else {
                    assert(kept_pairs(deltas@.subrange(0, di + 1), *bit, s) == kp);
                }
                di += 1;
            }
            proof {
                assert(deltas@.subrange(0, deltas@.len() as int) =~= deltas@);
                let post = bits.subrange(0, bi + 1);
                assert(post.drop_last() =~= pre);
                assert(post.last() == *bit);
                if kind != 0 { assert(l0 + Seq::<(MoveBit, Delta)>::empty() =~= l0); }
                if kind != 1 { assert(r0 + Seq::<(MoveBit, Delta)>::empty() =~= r0); }
                if kind != 2 { assert(h0 + Seq::<(MoveBit, Delta)>::empty() =~= h0); }
            }
            bi += 1;
        }
        proof { assert(bits.subrange(0, bits.len() as int) =~= bits); }

        // Reachability on an empty board. Hoppers need a screen, so they
        // cannot contribute here.
        let ncells = self.board.ncells();
        proof {
            assert(self.board.w * self.board.h <= 255 * 255) by (nonlinear_arith)
                requires self.board.w <= 255, self.board.h <= 255, self.board.w >= 0, self.board.h >= 0;
        }
        let mut can_act_from: Vec<bool> = Vec::with_capacity(ncells);
        let mut sq: usize = 0;
        while sq < ncells
            invariant
                ncells == self.board.spec_ncells(),
                ncells <= 65025,
                self.board.valid(),
                sq <= ncells,
                can_act_from@.len() == sq,
                forall|q: int| 0 <= q < sq ==> #[trigger] can_act_from@[q] == self.acts_somewhere(leaps@, rides@, s, q as u16),
            decreases ncells - sq,
        {
            let q = sq as u16;
            let mut any = false;
            let mut k: usize = 0;
            while k < leaps.len() && !any
                invariant
                    self.board.valid(),
                    (q as int) < self.board.spec_ncells(),
                    k <= leaps@.len(),
                    any == exists|j: int| 0 <= j < k && #[trigger] acts_from_in(self.board, self.zones@, s, q, leaps@[j].from_zone, leaps@[j].to_zone, leaps@[j].d),
                decreases leaps.len() - k,
            {
                let lk = &leaps[k];
                if self.zone_ok(lk.from_zone, s, q) {
                    if let Some(to) = self.board.offset(q, lk.d.dx, lk.d.dy) {
                        if self.zone_ok(lk.to_zone, s, to) {
                            any = true;
                        }
                    }
                }
                assert(any == (exists|j: int| 0 <= j < k && #[trigger] acts_from_in(self.board, self.zones@, s, q, leaps@[j].from_zone, leaps@[j].to_zone, leaps@[j].d))
                    || acts_from_in(self.board, self.zones@, s, q, leaps@[k as int].from_zone, leaps@[k as int].to_zone, leaps@[k as int].d));
                k += 1;
            }
            let ghost any_leap = any;
            assert(any_leap == exists|j: int| 0 <= j < leaps@.len() && #[trigger] acts_from_in(self.board, self.zones@, s, q, leaps@[j].from_zone, leaps@[j].to_zone, leaps@[j].d));
            let mut k: usize = 0;
            while k < rides.len() && !any
                invariant
                    self.board.valid(),
                    (q as int) < self.board.spec_ncells(),
                    k <= rides@.len(),
                    any == (any_leap || exists|j: int| 0 <= j < k && #[trigger] acts_from_in(self.board, self.zones@, s, q, rides@[j].from_zone, rides@[j].to_zone, rides@[j].d)),
                decreases rides.len() - k,
            {
                let rk = &rides[k];
                if self.zone_ok(rk.from_zone, s, q) {
                    if let Some(to) = self.board.offset(q, rk.d.dx, rk.d.dy) {
                        if self.zone_ok(rk.to_zone, s, to) {
                            any = true;
                        }
                    }
                }
                assert(any == (any_leap || (exists|j: int| 0 <= j < k && #[trigger] acts_from_in(self.board, self.zones@, s, q, rides@[j].from_zone, rides@[j].to_zone, rides@[j].d))
                    || acts_from_in(self.board, self.zones@, s, q, rides@[k as int].from_zone, rides@[k as int].to_zone, rides@[k as int].d)));
                k += 1;
            }
            assert(any == self.acts_somewhere(leaps@, rides@, s, q));
            can_act_from.push(any);
            sq += 1;
        }

        let mut specials: Vec<SpecialRef> = Vec::new();
        let mut si: usize = 0;
        while si < ty.specials.len()
            invariant
                si <= ty.specials@.len(),
                forall|k: int| 0 <= k < specials@.len() ==> crate::move_defs::row_facts(
                    #[trigger] specials@[k].kind, specials@[k].script)
                    && specials@[k].kind != MoveKind::Drop && specials@[k].kind != MoveKind::Ability
                    && specials@[k].kind != MoveKind::Normal,
            decreases ty.specials@.len() - si,
        {
            specials.push(compile_special(&ty.specials[si]));
            si += 1;
        }
        let overclock = if ty.overclock { Some(compile_overclock()) } else { None };
        let drop = if ty.droppable {
            Some(DropRef { script: script(MoveKind::Drop), no_dup_file: ty.drop_no_dup_file, no_mate: ty.drop_no_mate })
        } else {
            None
        };
        Compiled { leaps, rides, hops, can_act_from, specials, overclock, drop }
    }
}

/// The compiled table holds, for type `t` and side `s`, exactly the kernels
/// of the type's Bits: one per kept step in the side's frame, in Bit order;
/// and the type can act from a cell on an empty board exactly when one of
/// those leap or ride kernels can.
pub proof fn lemma_compiled_kernels(g: GameDef, t: int, s: Side)
    requires
        g.wf(),
        0 <= t < g.types@.len(),
        s < g.sides,
    ensures
        t * g.sides + s < g.compiled@.len(),
        kernels_from(g.types@[t].bits@, s, g.compiled@[t * g.sides + s]),
        forall|q: int| 0 <= q < g.ncells() ==> #[trigger] g.compiled@[t * g.sides + s].can_act_from@[q]
            == g.acts_somewhere(g.compiled@[t * g.sides + s].leaps@, g.compiled@[t * g.sides + s].rides@, s, q as u16),
{
    let k = t * g.sides + s;
    assert(k < g.types@.len() * g.sides) by (nonlinear_arith)
        requires k == t * g.sides + s, 0 <= t < g.types@.len(), s < g.sides;
    assert(k >= 0) by (nonlinear_arith)
        requires k == t * g.sides + s, 0 <= t, s >= 0;
    vstd::arithmetic::div_mod::lemma_fundamental_div_mod_converse(k, g.sides as int, t, s as int);
    assert(g.compiled_as(k, g.compiled@[k]));
}

/// Entry `t * sides + s` of the compiled table exists.
pub proof fn lemma_compiled_index(g: GameDef, t: int, s: Side)
    requires
        g.wf(),
        0 <= t < g.types@.len(),
        s < g.sides,
    ensures
        0 <= t * g.sides + s < g.compiled@.len(),
{
    lemma_compiled_kernels(g, t, s);
    assert(t * g.sides + s >= 0) by (nonlinear_arith)
        requires 0 <= t, s >= 0, g.sides >= 0;
}

pub open spec fn spec_signum(v: i8) -> i8 {
    if v > 0 { 1 } else if v < 0 { -1i8 } else { 0 }
}

pub fn signum(v: i8) -> (r: i8)
    ensures
        r == spec_signum(v),
{
    if v > 0 { 1 } else if v < 0 { -1 } else { 0 }
}

} // verus!
