//! Bits: atomic, typed, parameterized rule fragments.
//!
//! Bits are the *authoring* format; `game::Compiled` is the runtime format
//! produced by the compile step.

use vstd::prelude::*;
use crate::geometry::DirFilter;

verus! {

/// Axis-A geometry primitives. The hopper is the one-screen family member,
/// parameterized by landing mode (`HopMode`).
#[derive(Clone, Copy, Debug)]
pub enum Geometry {
    Leaper(i8, i8),
    Rider(i8, i8),
    Hopper(i8, i8),
}

/// Hopper landing modes (screen count is fixed at one).
#[derive(Clone, Copy, PartialEq, Eq, Debug, Structural)]
pub enum HopMode {
    /// Xiangqi cannon: after exactly one screen, capture at any distance
    /// beyond it. Capture-only by geometry.
    CannonAtRange,
    /// Grasshopper: land on the square immediately beyond the screen —
    /// onto empty (if the Bit can move) or capturing an enemy there (if
    /// the Bit can capture).
    BeyondScreen,
    /// Locust (the checkers atom): capture the screen itself — which must
    /// be an enemy — landing on the empty square immediately beyond it.
    Locust,
}

#[derive(Clone, Copy, PartialEq, Eq, Debug, Structural)]
pub enum Mode {
    Move,
    Capture,
    Both,
}

impl Mode {
    pub open spec fn spec_can_move(self) -> bool {
        self is Move || self is Both
    }

    pub open spec fn spec_can_capture(self) -> bool {
        self is Capture || self is Both
    }

    pub fn can_move(self) -> (r: bool)
        ensures
            r == self.spec_can_move(),
    {
        match self {
            Mode::Move | Mode::Both => true,
            Mode::Capture => false,
        }
    }

    pub fn can_capture(self) -> (r: bool)
        ensures
            r == self.spec_can_capture(),
    {
        match self {
            Mode::Capture | Mode::Both => true,
            Mode::Move => false,
        }
    }
}

/// Path interaction for lame leapers: cells that must be empty.
/// `Midpoint` = xiangqi elephant (blocker at d/2); `Leg` = xiangqi horse
/// (blocker one orthogonal step along the dominant axis).
#[derive(Clone, Copy, Debug)]
pub enum PathRule {
    Free,
    Midpoint,
    Leg,
}

/// Target predicate: gates on the piece being captured. `EnemyRoyal` is
/// xiangqi's flying general.
#[derive(Clone, Copy, PartialEq, Eq, Debug, Structural)]
pub enum TargetPred {
    Any,
    EnemyRoyal,
}

/// One Axis-A movement Bit. Zone conditions gate the origin and/or the
/// destination square. The HP gates are the state condition: the kernel only
/// activates while the mover's current HP is inside `[min_hp, max_hp]`
/// (0 = unbounded on that end).
#[derive(Clone, Debug)]
pub struct MoveBit {
    pub geom: Geometry,
    pub dirs: DirFilter,
    pub mode: Mode,
    pub path: PathRule,
    pub from_zone: Option<usize>,
    pub to_zone: Option<usize>,
    pub target: TargetPred,
    /// State gate: kernel active only when hp ≥ min_hp (0 = no bound).
    pub min_hp: i16,
    /// State gate: kernel active only when hp ≤ max_hp (0 = no bound).
    pub max_hp: i16,
    /// Hopper landing mode; ignored by leapers and riders.
    pub landing: HopMode,
    /// Range limit for riders in steps along the ray (0 = unlimited).
    pub max_steps: u8,
}

/// The defaults every fresh Bit starts from.
pub open spec fn fresh_bit(geom: Geometry, b: MoveBit) -> bool {
    &&& b.geom == geom
    &&& b.dirs == DirFilter::All
    &&& b.path == PathRule::Free
    &&& b.from_zone.is_none()
    &&& b.to_zone.is_none()
    &&& b.target == TargetPred::Any
    &&& b.min_hp == 0
    &&& b.max_hp == 0
    &&& b.landing == HopMode::CannonAtRange
    &&& b.max_steps == 0
}

impl MoveBit {
    fn new(geom: Geometry) -> (b: Self)
        ensures
            fresh_bit(geom, b),
            b.mode == Mode::Both,
    {
        MoveBit {
            geom,
            dirs: DirFilter::All,
            mode: Mode::Both,
            path: PathRule::Free,
            from_zone: None,
            to_zone: None,
            target: TargetPred::Any,
            min_hp: 0,
            max_hp: 0,
            landing: HopMode::CannonAtRange,
            max_steps: 0,
        }
    }

    pub fn leaper(m: i8, n: i8) -> (b: Self)
        ensures
            fresh_bit(Geometry::Leaper(m, n), b),
            b.mode == Mode::Both,
    {
        Self::new(Geometry::Leaper(m, n))
    }

    pub fn rider(m: i8, n: i8) -> (b: Self)
        ensures
            fresh_bit(Geometry::Rider(m, n), b),
            b.mode == Mode::Both,
    {
        Self::new(Geometry::Rider(m, n))
    }

    /// A hopper defaults to capture-only (the cannon).
    pub fn hopper(m: i8, n: i8) -> (b: Self)
        ensures
            fresh_bit(Geometry::Hopper(m, n), b),
            b.mode == Mode::Capture,
    {
        let mut b = Self::new(Geometry::Hopper(m, n));
        b.mode = Mode::Capture;
        b
    }

    pub fn dirs(self, d: DirFilter) -> (b: Self)
        ensures
            b == (MoveBit { dirs: d, ..self }),
    {
        let mut s = self;
        s.dirs = d;
        s
    }

    pub fn mode(self, m: Mode) -> (b: Self)
        ensures
            b == (MoveBit { mode: m, ..self }),
    {
        let mut s = self;
        s.mode = m;
        s
    }

    pub fn path(self, p: PathRule) -> (b: Self)
        ensures
            b == (MoveBit { path: p, ..self }),
    {
        let mut s = self;
        s.path = p;
        s
    }

    pub fn from_zone(self, z: usize) -> (b: Self)
        ensures
            b == (MoveBit { from_zone: Some(z), ..self }),
    {
        let mut s = self;
        s.from_zone = Some(z);
        s
    }

    pub fn to_zone(self, z: usize) -> (b: Self)
        ensures
            b == (MoveBit { to_zone: Some(z), ..self }),
    {
        let mut s = self;
        s.to_zone = Some(z);
        s
    }

    pub fn target(self, t: TargetPred) -> (b: Self)
        ensures
            b == (MoveBit { target: t, ..self }),
    {
        let mut s = self;
        s.target = t;
        s
    }

    pub fn min_hp(self, hp: i16) -> (b: Self)
        ensures
            b == (MoveBit { min_hp: hp, ..self }),
    {
        let mut s = self;
        s.min_hp = hp;
        s
    }

    pub fn max_hp(self, hp: i16) -> (b: Self)
        ensures
            b == (MoveBit { max_hp: hp, ..self }),
    {
        let mut s = self;
        s.max_hp = hp;
        s
    }

    /// Set the hopper landing mode. `BeyondScreen` (the grasshopper) also
    /// widens the hopper's default capture-only mode to `Both`.
    pub fn landing(self, l: HopMode) -> (b: Self)
        ensures
            b == (MoveBit {
                landing: l,
                mode: if l == HopMode::BeyondScreen { Mode::Both } else { self.mode },
                ..self
            }),
    {
        let mut s = self;
        s.landing = l;
        if l == HopMode::BeyondScreen {
            s.mode = Mode::Both;
        }
        s
    }

    /// Cap a rider at `n` steps along each ray (0 = unlimited).
    pub fn max_steps(self, n: u8) -> (b: Self)
        ensures
            b == (MoveBit { max_steps: n, ..self }),
    {
        let mut s = self;
        s.max_steps = n;
        s
    }
}

/// Special-move generators: history-dependent or two-piece compounds that
/// are first-class generators, not geometry.
#[derive(Clone, Debug)]
pub enum SpecialBit {
    /// Pawn double-step from its start zone; sets the en-passant square.
    DoubleStep { start_zone: usize },
    /// Capture onto the en-passant square (victim is on the passed-over file).
    EnPassant,
    /// Standard castling with an unmoved `castle_partner` rook on the same rank.
    Castling,
}

/// Axis-B ability Bits: effects invoked *as* the turn's single action.
/// Ranges are chebyshev for point-targeted effects; the laser targets along
/// rays like a bounded rider, capturing without vacating the origin.
/// `retreat` is the coupled nerf: a forced 1-step retreat away from the
/// target, and the whole compound is illegal if that square is blocked.
#[derive(Clone, Copy, Debug, PartialEq, Eq, Structural)]
pub enum AbilityBit {
    Heal { amount: i16, range: u8 },
    CreateWall { range: u8 },
    DigPit { range: u8 },
    Laser { range: u8, retreat: bool, pierce: bool },
    /// Revive a dead friendly non-royal piece onto an empty in-range square
    /// at 1 HP.
    Resurrect { range: u8 },
    /// Flip an in-range non-royal enemy at exactly 1 HP to the caster's side.
    Hack { range: u8 },
    /// Lay an owner-tagged mine on an empty in-range square: passable,
    /// non-blocking; an enemy landing takes 1 HP (lethal at 1) and the mine
    /// is spent.
    MineLayer { range: u8 },
    /// Exchange the caster with a friendly piece within chebyshev range.
    Swap { range: u8 },
    /// Shove an in-range enemy one square directly away from the caster;
    /// generated only when that square is open and empty.
    Push { range: u8 },
    /// Reference to a custom ability row (`GameDef::custom_effects[index]`);
    /// the row is the whole definition.
    Custom(u16),
}

} // verus!
