//! The move-script registry: the generation side of moves as data. Every
//! special move is a stdlib row of generation-time gates (predicates), a
//! binding (second-piece selection), a source pool, and an op script over
//! the micro-op set. `MoveKind` survives as the stable display code
//! recording which row generated a move; make/unmake and search consult
//! the row — the one `MoveKind` branch left is [`script`].

use vstd::prelude::*;
use crate::bits::SpecialBit;
use crate::moves::{Move, MoveKind};
use crate::game::GameDef;
use crate::position::{PosView, Position, spec_hp_gate_ok, hp_gate_ok};
use crate::moves::NO_SQ;
use crate::ops::{OpLog, op_step};
use crate::ops::{HpAmt, MicroOp, Pool, SqRef};

verus! {

/// Predicates checked while listing moves (the row conditions).
#[derive(Clone, Copy, PartialEq, Eq, Debug, Structural)]
pub enum Gate {
    /// Origin lies in the row's zone parameter (per side).
    Zone,
    /// Mover HP within [min, max] (0 = unbounded).
    HpBand { min: i16, max: i16 },
    /// The acting piece's `moved` history flag (castle king).
    MovedFlag { must_be_unmoved: bool },
    /// The destination must equal the live ephemeral one-ply marker.
    EphemeralMatch,
    /// The squares strictly between the compound's endpoints must be
    /// unobstructed.
    PathClear,
    /// The actor's origin, crossing, and landing squares must not be
    /// attacked by the enemy.
    PathSafe,
    /// The hopper screen rule (realized by the compiled hop kernels).
    ScreenRule,
    /// Named predicate *nifu*: no drop onto a file already holding an
    /// unpromoted piece of the same type and side.
    NoDupFile,
    /// Named predicate *uchifuzume*: no drop delivering immediate
    /// checkmate (interpreted in the legality filter).
    NoDropMate,
}

/// Which piece-type flag a partner binding selects on.
#[derive(Clone, Copy, PartialEq, Eq, Debug, Structural)]
pub enum PartnerFlag {
    /// `PieceTypeDef::castle_partner` (the rook half of the compound).
    CastlePartner,
}

/// Second-piece selection for two-piece compound scripts.
#[derive(Clone, Copy, PartialEq, Eq, Debug, Structural)]
pub enum Binding {
    Solo,
    /// Select a friendly piece carrying `flag`, optionally required to be on
    /// the actor's rank and unmoved. Its square rides the move's `aux`.
    Partner { flag: PartnerFlag, same_rank: bool, unmoved: bool },
}

/// Where the acting piece comes from.
#[derive(Clone, Copy, PartialEq, Eq, Debug, Structural)]
pub enum Source {
    Board,
    /// Shogi-style hand (drops).
    Hand,
    /// The dead pool (resurrect).
    DeadPool,
}

/// How make/unmake applies the row.
#[derive(Clone, Debug)]
pub enum ApplyShape {
    /// The dominant mover shape: `CaptureAt(victim)` then `Relocate(From→To)`
    /// with any promotion fused in, the landing-hazard hook, then the row's
    /// trailing ops. `strike_stops_mover`: a strike leaves the mover in place.
    Mover { victim: Option<SqRef>, strike_stops_mover: bool, trailing: Vec<MicroOp> },
    /// Interpret `ops` in order (drop).
    Ops,
    /// The move's `Effect` names an ability registry row.
    EffectRow,
    /// Overclock ⟨move, move, self −1 HP⟩.
    Sequenced,
}

/// One stdlib move script.
#[derive(Clone, Debug)]
pub struct MoveScript {
    pub id: &'static str,
    /// The display code stamped on generated moves.
    pub kind: MoveKind,
    pub source: Source,
    pub binding: Binding,
    pub gates: Vec<Gate>,
    /// The application script over the micro-op set.
    pub ops: Vec<MicroOp>,
    pub apply: ApplyShape,
    /// Actor travel distance for stepped generators.
    pub gen_steps: u8,
    /// Search treats this row's moves as captures even though `to` is empty
    /// (locust: the victim stands on `aux`).
    pub capture_class: bool,
    /// Ability/compound rows.
    pub effectful: bool,
}

impl MoveScript {
    pub fn has_gate(&self, gate: Gate) -> (r: bool)
        ensures
            r == self.gates@.contains(gate),
    {
        let mut i: usize = 0;
        while i < self.gates.len()
            invariant
                i <= self.gates@.len(),
                forall|j: int| 0 <= j < i ==> self.gates@[j] != gate,
            decreases self.gates.len() - i,
        {
            if self.gates[i] == gate {
                return true;
            }
            i += 1;
        }
        false
    }
}

/// The mover's relocation: from → to, landing hazards bite.
pub open spec fn reloc_mover() -> MicroOp {
    MicroOp::Relocate { who: SqRef::From, dest: SqRef::To, hazard: true }
}

/// The partner's relocation: aux → midpoint (castle rook); no hazards.
pub open spec fn reloc_partner() -> MicroOp {
    MicroOp::Relocate { who: SqRef::Aux, dest: SqRef::Mid, hazard: false }
}

/// The stdlib row facts each script carries.
pub open spec fn row_facts(k: MoveKind, s: MoveScript) -> bool {
    &&& s.kind == k
    &&& s.capture_class == (k == MoveKind::Locust)
    &&& s.effectful == (k == MoveKind::Ability || k == MoveKind::Compound)
    &&& s.source == (if k == MoveKind::Drop { Source::Hand } else { Source::Board })
    &&& (k == MoveKind::Castle) == (s.binding is Partner)
    &&& s.gates@ == spec_gates(k)
    &&& s.gen_steps == (if k == MoveKind::DoubleStep || k == MoveKind::Castle { 2u8 } else { 0u8 })
}

pub open spec fn spec_gates(k: MoveKind) -> Seq<Gate> {
    match k {
        MoveKind::DoubleStep => seq![Gate::Zone, Gate::PathClear],
        MoveKind::EnPassant => seq![Gate::EphemeralMatch],
        MoveKind::Castle => seq![Gate::MovedFlag { must_be_unmoved: true }, Gate::PathClear, Gate::PathSafe],
        MoveKind::Drop => seq![Gate::NoDupFile, Gate::NoDropMate],
        MoveKind::Compound => seq![Gate::HpBand { min: 2, max: 0 }],
        MoveKind::Locust => seq![Gate::ScreenRule],
        _ => Seq::empty(),
    }
}

/// The kind→row lookup — the one place `MoveKind` selects behavior.
pub fn script(k: MoveKind) -> (s: MoveScript)
    ensures
        row_facts(k, s),
{
    let s = match k {
        MoveKind::Normal => MoveScript {
            id: "normal",
            kind: MoveKind::Normal,
            source: Source::Board,
            binding: Binding::Solo,
            gates: vec![],
            ops: vec![MicroOp::CaptureAt { at: SqRef::To }, MicroOp::Relocate { who: SqRef::From, dest: SqRef::To, hazard: true }],
            apply: ApplyShape::Mover { victim: Some(SqRef::To), strike_stops_mover: true, trailing: vec![] },
            gen_steps: 0,
            capture_class: false,
            effectful: false,
        },
        MoveKind::DoubleStep => MoveScript {
            id: "double_step",
            kind: MoveKind::DoubleStep,
            source: Source::Board,
            binding: Binding::Solo,
            gates: vec![Gate::Zone, Gate::PathClear],
            ops: vec![MicroOp::Relocate { who: SqRef::From, dest: SqRef::To, hazard: true }, MicroOp::SetEphemeral { at: SqRef::Mid }],
            apply: ApplyShape::Mover { victim: Some(SqRef::To), strike_stops_mover: true, trailing: vec![MicroOp::SetEphemeral { at: SqRef::Mid }] },
            gen_steps: 2,
            capture_class: false,
            effectful: false,
        },
        MoveKind::EnPassant => MoveScript {
            id: "en_passant",
            kind: MoveKind::EnPassant,
            source: Source::Board,
            binding: Binding::Solo,
            gates: vec![Gate::EphemeralMatch],
            ops: vec![MicroOp::CaptureAt { at: SqRef::Aux }, MicroOp::Relocate { who: SqRef::From, dest: SqRef::To, hazard: true }],
            apply: ApplyShape::Mover { victim: Some(SqRef::Aux), strike_stops_mover: false, trailing: vec![] },
            gen_steps: 0,
            capture_class: false,
            effectful: false,
        },
        MoveKind::Castle => MoveScript {
            id: "castle",
            kind: MoveKind::Castle,
            source: Source::Board,
            binding: Binding::Partner { flag: PartnerFlag::CastlePartner, same_rank: true, unmoved: true },
            gates: vec![Gate::MovedFlag { must_be_unmoved: true }, Gate::PathClear, Gate::PathSafe],
            ops: vec![MicroOp::Relocate { who: SqRef::From, dest: SqRef::To, hazard: true }, MicroOp::Relocate { who: SqRef::Aux, dest: SqRef::Mid, hazard: false }],
            apply: ApplyShape::Mover { victim: None, strike_stops_mover: true, trailing: vec![MicroOp::Relocate { who: SqRef::Aux, dest: SqRef::Mid, hazard: false }] },
            gen_steps: 2,
            capture_class: false,
            effectful: false,
        },
        MoveKind::Drop => MoveScript {
            id: "drop",
            kind: MoveKind::Drop,
            source: Source::Hand,
            binding: Binding::Solo,
            gates: vec![Gate::NoDupFile, Gate::NoDropMate],
            ops: vec![MicroOp::PlaceFrom { pool: Pool::Hand, hazard: true }],
            apply: ApplyShape::Ops,
            gen_steps: 0,
            capture_class: false,
            effectful: false,
        },
        MoveKind::Ability => MoveScript {
            id: "ability",
            kind: MoveKind::Ability,
            source: Source::Board,
            binding: Binding::Solo,
            gates: vec![],
            ops: vec![],
            apply: ApplyShape::EffectRow,
            gen_steps: 0,
            capture_class: false,
            effectful: true,
        },
        MoveKind::Compound => MoveScript {
            id: "overclock",
            kind: MoveKind::Compound,
            source: Source::Board,
            binding: Binding::Solo,
            gates: vec![Gate::HpBand { min: 2, max: 0 }],
            ops: vec![
                MicroOp::Relocate { who: SqRef::From, dest: SqRef::To, hazard: false },
                MicroOp::CaptureAt { at: SqRef::Aux },
                MicroOp::Relocate { who: SqRef::To, dest: SqRef::Aux, hazard: false },
                MicroOp::HpAdd { n: HpAmt::Lit(-1), cap: false },
            ],
            apply: ApplyShape::Sequenced,
            gen_steps: 0,
            capture_class: false,
            effectful: true,
        },
        MoveKind::Locust => MoveScript {
            id: "locust",
            kind: MoveKind::Locust,
            source: Source::Board,
            binding: Binding::Solo,
            gates: vec![Gate::ScreenRule],
            ops: vec![MicroOp::CaptureAt { at: SqRef::Aux }, MicroOp::Relocate { who: SqRef::From, dest: SqRef::To, hazard: true }],
            apply: ApplyShape::Mover { victim: Some(SqRef::Aux), strike_stops_mover: true, trailing: vec![] },
            gen_steps: 0,
            capture_class: true,
            effectful: false,
        },
    };
    assert(s.gates@ =~= spec_gates(k));
    s
}

/// Generation shape, derived from a row's data.
#[derive(Clone, Copy, PartialEq, Eq, Debug, Structural)]
pub enum GenShape {
    /// Stepped quiet advance laying the ephemeral marker (double-step).
    TwoStepEphemeral,
    /// Kernel-shaped capture onto the live marker (en passant).
    EphemeralCapture,
    /// Two-piece compound over a partner binding (castle).
    PartnerCompound,
}

/// No zone gate.
pub const NO_ZONE: u32 = 4294967295u32;

/// A row's origin-checkable gates folded into straight-line fields.
#[derive(Clone, Copy, Debug)]
pub struct OriginGates {
    /// `Gate::Zone` with its resolved zone parameter (`NO_ZONE` = none).
    pub zone: u32,
    /// `Gate::HpBand` (0 = unbounded).
    pub hp_min: i16,
    pub hp_max: i16,
    /// `Gate::MovedFlag { must_be_unmoved: true }`.
    pub must_be_unmoved: bool,
    /// `Gate::EphemeralMatch` precondition: a marker must be live.
    pub needs_ephemeral: bool,
}

/// The folding of a gate list (the last gate of each class wins).
pub open spec fn fold_gates(gates: Seq<Gate>, zone: Option<usize>) -> OriginGates
    decreases gates.len(),
{
    if gates.len() == 0 {
        OriginGates { zone: NO_ZONE, hp_min: 0, hp_max: 0, must_be_unmoved: false, needs_ephemeral: false }
    } else {
        let og = fold_gates(gates.drop_last(), zone);
        match gates.last() {
            Gate::Zone => OriginGates {
                zone: match zone { Some(z) => if z < NO_ZONE { z as u32 } else { NO_ZONE }, None => NO_ZONE },
                ..og
            },
            Gate::HpBand { min, max } => OriginGates { hp_min: min, hp_max: max, ..og },
            Gate::MovedFlag { must_be_unmoved } => OriginGates { must_be_unmoved, ..og },
            Gate::EphemeralMatch => OriginGates { needs_ephemeral: true, ..og },
            _ => og,
        }
    }
}

impl OriginGates {
    /// Fold a row's gate list (plus its resolved zone parameter) into the
    /// compiled form. A zone id past the `u32` range folds to "no zone".
    pub fn compile(gates: &Vec<Gate>, zone: Option<usize>) -> (og: Self)
        ensures
            og == fold_gates(gates@, zone),
    {
        let mut og = OriginGates {
            zone: NO_ZONE,
            hp_min: 0,
            hp_max: 0,
            must_be_unmoved: false,
            needs_ephemeral: false,
        };
        let mut i: usize = 0;
        while i < gates.len()
            invariant
                i <= gates@.len(),
                og == fold_gates(gates@.take(i as int), zone),
            decreases gates.len() - i,
        {
            proof {
                assert(gates@.take(i as int + 1).drop_last() =~= gates@.take(i as int));
            }
            match gates[i] {
                Gate::Zone => {
                    og.zone = match zone {
                        Some(z) => if z < NO_ZONE as usize { z as u32 } else { NO_ZONE },
                        None => NO_ZONE,
                    };
                },
                Gate::HpBand { min, max } => {
                    og.hp_min = min;
                    og.hp_max = max;
                },
                Gate::MovedFlag { must_be_unmoved } => og.must_be_unmoved = must_be_unmoved,
                Gate::EphemeralMatch => og.needs_ephemeral = true,
                _ => {},
            }
            i += 1;
        }
        assert(gates@.take(gates@.len() as int) =~= gates@);
        og
    }
}

impl OriginGates {
    /// Do the acting piece and position pass these origin gates? A zone id
    /// naming no zone never passes.
    pub open spec fn spec_pass(self, g: GameDef, v: PosView, from: u16, moved: bool, hp: i16) -> bool {
        &&& !(self.must_be_unmoved && moved)
        &&& !(self.needs_ephemeral && v.ep == NO_SQ)
        &&& (self.zone == NO_ZONE || ((self.zone as int) < g.zones@.len()
            && g.zones@[self.zone as int].spec_contains(v.stm, from)))
        &&& spec_hp_gate_ok(self.hp_min, self.hp_max, hp)
    }

    pub fn pass(&self, g: &GameDef, pos: &Position, from: u16, moved: bool, hp: i16) -> (r: bool)
        ensures
            r == self.spec_pass(*g, pos@, from, moved, hp),
    {
        if self.must_be_unmoved && moved {
            return false;
        }
        if self.needs_ephemeral && pos.ep == NO_SQ {
            return false;
        }
        if self.zone != NO_ZONE {
            if (self.zone as usize) >= g.zones.len() || !g.zones[self.zone as usize].contains(pos.stm, from) {
                return false;
            }
        }
        hp_gate_ok(self.hp_min, self.hp_max, hp)
    }
}

impl MoveScript {
    /// Quiet for search purposes: lands on an empty square, is not from a
    /// hand, and carries no aux-victim capture class.
    pub fn is_quiet(&self, pos: &Position, mv: &Move) -> (r: bool)
        ensures
            r == (!self.capture_class && self.source != Source::Hand && pos.spec_piece_at(mv.to as int) is None),
    {
        !self.capture_class && self.source != Source::Hand && !pos.occupied(mv.to)
    }

    /// Counts as a capture for quiescence: aux-victim capture class, or an
    /// enemy on the destination (and not a hand move).
    pub fn counts_as_capture(&self, pos: &Position, mv: &Move) -> (r: bool)
        ensures
            r == (self.capture_class || (self.source != Source::Hand
                && (pos.spec_piece_at(mv.to as int) matches Some(p) && p.side != pos.stm))),
    {
        if self.capture_class {
            return true;
        }
        if self.source == Source::Hand {
            return false;
        }
        match pos.piece_at(mv.to) {
            Some(p) => p.side != pos.stm,
            None => false,
        }
    }
}

/// One compiled special: the stdlib row, its compiled origin gates, and the
/// derived generation shape.
#[derive(Clone, Debug)]
pub struct SpecialRef {
    pub script: MoveScript,
    pub gates: OriginGates,
    pub shape: GenShape,
    /// Copy of `script.kind` (the display code stamped on moves).
    pub kind: MoveKind,
    /// Copy of `script.gen_steps` (stepped-walker travel distance).
    pub gen_steps: u8,
}

/// A compiled script reference with origin gates but no generation shape
/// (the overclock compound).
#[derive(Clone, Debug)]
pub struct ScriptRef {
    pub script: MoveScript,
    pub gates: OriginGates,
}

/// Compiled drop reference: the drop row plus which of its named predicate
/// gates the piece type activates.
#[derive(Clone, Debug)]
pub struct DropRef {
    pub script: MoveScript,
    /// *nifu* participation.
    pub no_dup_file: bool,
    /// *uchifuzume* participation.
    pub no_mate: bool,
}

/// The special row an authoring bit compiles to.
pub open spec fn special_kind(s: SpecialBit) -> MoveKind {
    match s {
        SpecialBit::DoubleStep { .. } => MoveKind::DoubleStep,
        SpecialBit::EnPassant => MoveKind::EnPassant,
        SpecialBit::Castling => MoveKind::Castle,
    }
}

pub open spec fn special_shape(s: SpecialBit) -> GenShape {
    match s {
        SpecialBit::DoubleStep { .. } => GenShape::TwoStepEphemeral,
        SpecialBit::EnPassant => GenShape::EphemeralCapture,
        SpecialBit::Castling => GenShape::PartnerCompound,
    }
}

/// Compile one authoring `SpecialBit` into its stdlib script reference.
pub fn compile_special(s: &SpecialBit) -> (r: SpecialRef)
    ensures
        r.kind == special_kind(*s),
        r.shape == special_shape(*s),
        row_facts(r.kind, r.script),
        r.gen_steps == r.script.gen_steps,
        r.gates == fold_gates(r.script.gates@, match *s {
            SpecialBit::DoubleStep { start_zone } => Some(start_zone),
            _ => None,
        }),
{
    let (k, zone, shape) = match s {
        SpecialBit::DoubleStep { start_zone } => (MoveKind::DoubleStep, Some(*start_zone), GenShape::TwoStepEphemeral),
        SpecialBit::EnPassant => (MoveKind::EnPassant, None, GenShape::EphemeralCapture),
        SpecialBit::Castling => (MoveKind::Castle, None, GenShape::PartnerCompound),
    };
    let sc = script(k);
    let gates = OriginGates::compile(&sc.gates, zone);
    let gen_steps = sc.gen_steps;
    SpecialRef { script: sc, gates, shape, kind: k, gen_steps }
}

/// Compile the overclock script reference (HP-band gate folded).
pub fn compile_overclock() -> (r: ScriptRef)
    ensures
        row_facts(MoveKind::Compound, r.script),
        r.gates == fold_gates(r.script.gates@, None),
{
    let sc = script(MoveKind::Compound);
    let gates = OriginGates::compile(&sc.gates, None);
    ScriptRef { script: sc, gates }
}



/// What a move's application script does, by the move's kind.
pub open spec fn spec_apply_script(g: GameDef, w: PosView, mv: Move) -> PosView {
    match mv.kind {
        MoveKind::Normal => crate::position::spec_mover(g, w, mv, Some(SqRef::To), true, None),
        MoveKind::DoubleStep => crate::position::spec_mover(g, w, mv, Some(SqRef::To), true,
            Some(MicroOp::SetEphemeral { at: SqRef::Mid })),
        MoveKind::EnPassant => crate::position::spec_mover(g, w, mv, Some(SqRef::Aux), false, None),
        MoveKind::Castle => crate::position::spec_mover(g, w, mv, None, true,
            Some(MicroOp::Relocate { who: SqRef::Aux, dest: SqRef::Mid, hazard: false })),
        MoveKind::Locust => crate::position::spec_mover(g, w, mv, Some(SqRef::Aux), true, None),
        MoveKind::Drop => crate::position::spec_move_ops(g, w, mv, seq![MicroOp::PlaceFrom { pool: Pool::Hand, hazard: true }]),
        MoveKind::Ability => crate::position::spec_effect_row(g, w, mv),
        MoveKind::Compound => crate::position::spec_sequenced(g, w, mv),
    }
}

/// Apply the generating script row of `mv` — the one `MoveKind` branch in
/// make: each arm runs its row's apply shape with the row's parameters.
pub fn apply_script(pos: &mut Position, g: &GameDef, mv: &Move, log: &mut OpLog)
    requires
        old(pos).wf(*g),
    ensures
        final(pos)@.plain() == spec_apply_script(*g, old(pos)@.plain(), *mv),
        op_step(*g, old(pos)@, final(pos)@, old(log)@, final(log)@),
{
    match mv.kind {
        MoveKind::Normal => pos.mover_apply(g, mv, Some(SqRef::To), true, None, log),
        MoveKind::DoubleStep => pos.mover_apply(g, mv, Some(SqRef::To), true,
            Some(MicroOp::SetEphemeral { at: SqRef::Mid }), log),
        MoveKind::EnPassant => pos.mover_apply(g, mv, Some(SqRef::Aux), false, None, log),
        MoveKind::Castle => pos.mover_apply(g, mv, None, true,
            Some(MicroOp::Relocate { who: SqRef::Aux, dest: SqRef::Mid, hazard: false }), log),
        MoveKind::Locust => pos.mover_apply(g, mv, Some(SqRef::Aux), true, None, log),
        MoveKind::Drop => {
            let ops = vec![MicroOp::PlaceFrom { pool: Pool::Hand, hazard: true }];
            assert(ops@ =~= seq![MicroOp::PlaceFrom { pool: Pool::Hand, hazard: true }]);
            pos.apply_move_ops(g, mv, &ops, log)
        },
        MoveKind::Ability => pos.apply_effect_row(g, mv, log),
        MoveKind::Compound => pos.apply_sequenced(g, mv, log),
    }
}

/// The last `MovedFlag` gate of a list, if any: whether it asks for an
/// unmoved piece.
pub open spec fn last_moved_flag(gates: Seq<Gate>) -> Option<bool>
    decreases gates.len(),
{
    if gates.len() == 0 {
        None
    } else {
        match gates.last() {
            Gate::MovedFlag { must_be_unmoved } => Some(must_be_unmoved),
            _ => last_moved_flag(gates.drop_last()),
        }
    }
}

/// The last `HpBand` gate of a list, if any.
pub open spec fn last_hp_band(gates: Seq<Gate>) -> Option<(i16, i16)>
    decreases gates.len(),
{
    if gates.len() == 0 {
        None
    } else {
        match gates.last() {
            Gate::HpBand { min, max } => Some((min, max)),
            _ => last_hp_band(gates.drop_last()),
        }
    }
}

/// Whether the list holds a gate `Zone` and a gate `EphemeralMatch`.
pub open spec fn lists_gates(gates: Seq<Gate>) -> (bool, bool)
    decreases gates.len(),
{
    if gates.len() == 0 {
        (false, false)
    } else {
        let p = lists_gates(gates.drop_last());
        (p.0 || gates.last() is Zone, p.1 || gates.last() is EphemeralMatch)
    }
}

proof fn lemma_fold_gates(gates: Seq<Gate>, zone: Option<usize>)
    ensures
        fold_gates(gates, zone).must_be_unmoved == (last_moved_flag(gates) == Some(true)),
        fold_gates(gates, zone).needs_ephemeral == lists_gates(gates).1,
        fold_gates(gates, zone).zone == (if lists_gates(gates).0 {
            match zone { Some(z) => if z < NO_ZONE { z as u32 } else { NO_ZONE }, None => NO_ZONE }
        } else {
            NO_ZONE
        }),
        (fold_gates(gates, zone).hp_min, fold_gates(gates, zone).hp_max) == (match last_hp_band(gates) {
            Some(b) => b,
            None => (0i16, 0i16),
        }),
    decreases gates.len(),
{
    if gates.len() > 0 {
        lemma_fold_gates(gates.drop_last(), zone);
    }
}

/// A compiled gate list passes a piece exactly when: the last `MovedFlag`
/// gate, if it asks for an unmoved piece, sees one; an `EphemeralMatch`
/// gate sees a live marker; a `Zone` gate sees the origin in the row's
/// zone for the side to move (no zone, or one past the `u32` range, lets
/// every origin pass); and the HP lies in the last `HpBand` gate's band
/// (unbounded without one). Other gates do not enter.
pub proof fn law_gates_pass(gates: Seq<Gate>, zone: Option<usize>, g: GameDef, v: PosView, from: u16, moved: bool,
    hp: i16)
    ensures
        fold_gates(gates, zone).spec_pass(g, v, from, moved, hp) == {
            &&& !(last_moved_flag(gates) == Some(true) && moved)
            &&& !(lists_gates(gates).1 && v.ep == NO_SQ)
            &&& (!lists_gates(gates).0 || match zone {
                Some(z) => z >= NO_ZONE || (z < g.zones@.len() && g.zones@[z as int].spec_contains(v.stm, from)),
                None => true,
            })
            &&& match last_hp_band(gates) {
                Some(b) => spec_hp_gate_ok(b.0, b.1, hp),
                None => spec_hp_gate_ok(0, 0, hp),
            }
        },
{
    lemma_fold_gates(gates, zone);
}

} // verus!
