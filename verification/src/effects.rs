//! The ability registry: every shipped Axis-B ability is a data row over the
//! closed micro-op set; make's ability arm is one interpreter loop over the
//! row's `ops` then `self_ops`.
//!
//! `AbilityBit` stays the authoring surface (ranges, amounts, pierce,
//! retreat) and each bit compiles to a registry row via [`ability_row`];
//! `Effect` on a generated move is the id of the row that applies it
//! ([`row`] maps it 1:1). Games may also own custom rows
//! ([`CustomAbility`]), referenced by `AbilityBit::Custom(index)`.

use vstd::prelude::*;
use crate::bits::AbilityBit;
use crate::moves::Effect;
use crate::ops::{HpAmt, MicroOp, Pool, SqRef, TerrainKind};

verus! {

/// Who an ability may target.
#[derive(Clone, Copy, PartialEq, Eq, Debug, Structural)]
pub enum Who {
    Friendly,
    Enemy,
    /// An empty, bare-floor cell (terrain construction).
    EmptyCell,
    /// An enemy piece or an unoccupied destructible-block cell.
    EnemyOrBlockCell,
    /// A dead friendly type (resurrect); the landing cell is `to`.
    DeadFriendly,
}

/// Target reach shape.
#[derive(Clone, Copy, PartialEq, Eq, Debug, Structural)]
pub enum Reach {
    /// Chebyshev ball around the caster.
    Point,
    /// Queen-line ray from the caster.
    Ray,
}

/// Generation-time target predicates.
#[derive(Clone, Copy, PartialEq, Eq, Debug, Structural)]
pub enum Pred {
    /// Target HP below its type max (heal).
    Damaged,
    /// Target HP exactly 1 — defenses down (hack).
    HpEq1,
    /// Royals excluded.
    NonRoyal,
    /// Bare floor: no terrain, no piece, not the caster's square.
    BareCell,
    /// Landing square empty and terrain-open.
    OpenLanding,
    /// Retreat coupling: illegal when the retreat square is blocked.
    RetreatFree,
}

/// Cost-model hint in thousandths: a flat prior and a utility multiplier.
#[derive(Clone, Copy, PartialEq, Eq, Debug, Structural)]
pub struct CostHint {
    pub flat_milli: i32,
    pub mult_milli: i32,
}

/// Target selector row.
#[derive(Clone, Debug)]
pub struct Selector {
    pub who: Who,
    pub reach: Reach,
    pub preds: Vec<Pred>,
}

/// "No NNUE descriptor dim".
pub const NO_SLOT: u8 = 255u8;

/// One ability as data: id, target selector, op script, self-op script, cost
/// hint, and the network descriptor dim it feeds.
#[derive(Clone, Debug)]
pub struct AbilityDef {
    pub id: &'static str,
    pub selector: Selector,
    /// Applied atomically, in order, against the target.
    pub ops: Vec<MicroOp>,
    /// Applied after `ops`, against the caster.
    pub self_ops: Vec<MicroOp>,
    pub cost: CostHint,
    pub descriptor_slot: u8,
}

/// Reach of a custom ability row.
#[derive(Clone, Copy, PartialEq, Eq, Debug, Structural)]
pub enum CustomReach {
    /// Chebyshev ball of the given radius.
    Point { range: u8 },
    /// Queen-line rays of the given length; `pierce` passes through pieces.
    Ray { max: u8, pierce: bool },
}

/// A game-owned custom ability row (`GameDef::custom_effects[index]`).
#[derive(Clone, Debug)]
pub struct CustomAbility {
    pub id: String,
    pub who: Who,
    pub reach: CustomReach,
    pub preds: Vec<Pred>,
    pub ops: Vec<MicroOp>,
    pub self_ops: Vec<MicroOp>,
    pub cost: CostHint,
    pub descriptor_slot: u8,
}

/// The target ops of each stdlib ability row.
pub open spec fn spec_effect_ops(e: Effect) -> Seq<MicroOp> {
    match e {
        Effect::Heal(_) => seq![MicroOp::HpAdd { n: HpAmt::FromMove, cap: true }],
        Effect::Wall => seq![MicroOp::SetTerrain { kind: TerrainKind::Wall }],
        Effect::Pit => seq![MicroOp::SetTerrain { kind: TerrainKind::Pit }],
        Effect::Mine => seq![MicroOp::SetTerrain { kind: TerrainKind::OwnerMine }],
        Effect::Laser => seq![MicroOp::TerrainStep, MicroOp::CaptureAt { at: SqRef::To }],
        Effect::Resurrect => seq![MicroOp::PlaceFrom { pool: Pool::Dead, hazard: false }],
        Effect::Hack => seq![MicroOp::FlipSide],
        Effect::Swap => seq![MicroOp::SwapWithCaster],
        Effect::Push => seq![MicroOp::Relocate { who: SqRef::To, dest: SqRef::Aux, hazard: true }],
        _ => Seq::empty(),
    }
}

/// The caster (self) ops of each stdlib ability row.
pub open spec fn spec_effect_self_ops(e: Effect) -> Seq<MicroOp> {
    match e {
        Effect::Laser => seq![MicroOp::Relocate { who: SqRef::From, dest: SqRef::Aux, hazard: true }],
        _ => Seq::empty(),
    }
}

fn mk(
    id: &'static str,
    who: Who,
    reach: Reach,
    preds: Vec<Pred>,
    ops: Vec<MicroOp>,
    self_ops: Vec<MicroOp>,
    flat_milli: i32,
    descriptor_slot: u8,
) -> (d: AbilityDef)
    ensures
        d.id == id,
        d.selector.who == who,
        d.selector.reach == reach,
        d.selector.preds@ == preds@,
        d.ops@ == ops@,
        d.self_ops@ == self_ops@,
        d.cost == (CostHint { flat_milli, mult_milli: 1000 }),
        d.descriptor_slot == descriptor_slot,
{
    AbilityDef {
        id,
        selector: Selector { who, reach, preds },
        ops,
        self_ops,
        cost: CostHint { flat_milli, mult_milli: 1000 },
        descriptor_slot,
    }
}

/// Registry lookup for a move's effect id: which stdlib row applies it.
/// (`NoEffect`, `Twice` and custom ids map to the empty row; custom rows
/// live on the game definition.)
pub fn row(e: Effect) -> (d: AbilityDef)
    ensures
        d.ops@ == spec_effect_ops(e),
        d.self_ops@ == spec_effect_self_ops(e),
{
    match e {
        Effect::Heal(_) => mk("heal", Who::Friendly, Reach::Point, vec![Pred::Damaged],
            vec![MicroOp::HpAdd { n: HpAmt::FromMove, cap: true }], vec![], 0, 10),
        Effect::Wall => mk("wall", Who::EmptyCell, Reach::Point, vec![Pred::BareCell],
            vec![MicroOp::SetTerrain { kind: TerrainKind::Wall }], vec![], 0, 12),
        Effect::Pit => mk("pit", Who::EmptyCell, Reach::Point, vec![Pred::BareCell],
            vec![MicroOp::SetTerrain { kind: TerrainKind::Pit }], vec![], 0, 12),
        Effect::Mine => mk("mine", Who::EmptyCell, Reach::Point, vec![Pred::BareCell],
            vec![MicroOp::SetTerrain { kind: TerrainKind::OwnerMine }], vec![], 2000, 13),
        Effect::Laser => mk("laser", Who::EnemyOrBlockCell, Reach::Ray, vec![Pred::RetreatFree],
            vec![MicroOp::TerrainStep, MicroOp::CaptureAt { at: SqRef::To }],
            vec![MicroOp::Relocate { who: SqRef::From, dest: SqRef::Aux, hazard: true }], 0, 11),
        Effect::Resurrect => mk("rez", Who::DeadFriendly, Reach::Point,
            vec![Pred::NonRoyal, Pred::OpenLanding],
            vec![MicroOp::PlaceFrom { pool: Pool::Dead, hazard: false }], vec![], 4000, 14),
        Effect::Hack => mk("hack", Who::Enemy, Reach::Point, vec![Pred::HpEq1, Pred::NonRoyal],
            vec![MicroOp::FlipSide], vec![], 5000, 15),
        Effect::Swap => mk("swap", Who::Friendly, Reach::Point, vec![Pred::OpenLanding],
            vec![MicroOp::SwapWithCaster], vec![], 1500, NO_SLOT),
        Effect::Push => mk("push", Who::Enemy, Reach::Point, vec![Pred::OpenLanding],
            vec![MicroOp::Relocate { who: SqRef::To, dest: SqRef::Aux, hazard: true }], vec![],
            2000, NO_SLOT),
        _ => mk("none", Who::EmptyCell, Reach::Point, vec![], vec![], vec![], 0, NO_SLOT),
    }
}

/// The effect id an authoring ability Bit generates moves with.
pub open spec fn spec_bit_effect(a: AbilityBit) -> Effect {
    match a {
        AbilityBit::Heal { amount, .. } => Effect::Heal(amount),
        AbilityBit::CreateWall { .. } => Effect::Wall,
        AbilityBit::DigPit { .. } => Effect::Pit,
        AbilityBit::Laser { .. } => Effect::Laser,
        AbilityBit::Resurrect { .. } => Effect::Resurrect,
        AbilityBit::Hack { .. } => Effect::Hack,
        AbilityBit::MineLayer { .. } => Effect::Mine,
        AbilityBit::Swap { .. } => Effect::Swap,
        AbilityBit::Push { .. } => Effect::Push,
        AbilityBit::Custom(ci) => Effect::Custom(ci),
    }
}

/// Compile step for the authoring surface: which registry row an
/// `AbilityBit` generates moves for.
pub fn ability_row(a: &AbilityBit) -> (d: AbilityDef)
    ensures
        d.ops@ == spec_effect_ops(spec_bit_effect(*a)),
        d.self_ops@ == spec_effect_self_ops(spec_bit_effect(*a)),
{
    let e = match *a {
        AbilityBit::Heal { amount, .. } => Effect::Heal(amount),
        AbilityBit::CreateWall { .. } => Effect::Wall,
        AbilityBit::DigPit { .. } => Effect::Pit,
        AbilityBit::Laser { .. } => Effect::Laser,
        AbilityBit::Resurrect { .. } => Effect::Resurrect,
        AbilityBit::Hack { .. } => Effect::Hack,
        AbilityBit::MineLayer { .. } => Effect::Mine,
        AbilityBit::Swap { .. } => Effect::Swap,
        AbilityBit::Push { .. } => Effect::Push,
        AbilityBit::Custom(ci) => Effect::Custom(ci),
    };
    row(e)
}

} // verus!
