//! The terrain registry: every shipped terrain kind is a data row over six
//! properties — blocking (per movement-permission class), an on-land hazard
//! script over the micro-op set, a carry rule (destination rewriting), a
//! concealment class, destructible tiers, and the owner-band flag.
//!
//! The hot-path predicates are contiguous-code-range compares; each is
//! proved equal to the row table it is derived from.
//!
//! Internal codes (the values in `Position::terrain` and the Zobrist
//! terrain keys) are frozen; mines keep their owner-band encoding
//! `T_MINE0 + side`. The `code` field is the row's stable wire id.

use vstd::prelude::*;
use crate::game::Side;
use crate::ops::{HpAmt, MicroOp};

verus! {

pub const T_NONE: u8 = 0;
pub const T_WALL: u8 = 1;
pub const T_PIT: u8 = 2;
/// Owner-tagged mines: T_MINE0 + side, codes 3..=6.
pub const T_MINE0: u8 = 3;
pub const T_ICE: u8 = 7;
pub const T_GRASS: u8 = 8;
pub const T_ACID: u8 = 9;
pub const T_BLOCK1: u8 = 10;
pub const T_BLOCK2: u8 = 11;
pub const T_BLOCK3: u8 = 12;
/// Conveyors: N is +y (side 0's forward), E is +x, S is −y, W is −x.
pub const T_CONV_N: u8 = 13;
pub const T_CONV_E: u8 = 14;
pub const T_CONV_S: u8 = 15;
pub const T_CONV_W: u8 = 16;

/// Number of internal stdlib terrain codes (rows). Codes from `NT` on are
/// the custom band (`GameDef::custom_terrains[code - NT]`).
pub const NT: usize = 17;

/// Per-permission-class blocking: does this terrain stop entry, rays,
/// screens, and lame-leaper legs for a piece moving in that class? A piece
/// passes if ANY class it holds passes.
#[derive(Clone, Copy, PartialEq, Eq, Debug, Structural)]
pub struct Blocks {
    pub ground: bool,
    pub flight: bool,
    pub drill: bool,
}

/// Who a landing-hazard script bites.
#[derive(Clone, Copy, PartialEq, Eq, Debug, Structural)]
pub enum LandGate {
    /// Every lander (acid).
    Anyone,
    /// Only landers hostile to the terrain's owner (mines).
    EnemyOfOwner,
}

/// The on-land hazard script: ops applied to the landing piece.
#[derive(Clone, Debug)]
pub struct OnLand {
    pub ops: Vec<MicroOp>,
    pub gate: LandGate,
    /// The hazard is spent on trigger (cleared before its ops run).
    pub consumed: bool,
}

/// Carry: quiet landings on this terrain are rewritten at generation time.
#[derive(Clone, Copy, PartialEq, Eq, Debug, Structural)]
pub enum Carry {
    Still,
    /// Ice: keep sliding along the entry vector; `riders_only`: only a
    /// piece riding in exactly the entry direction skids.
    Slide { riders_only: bool },
    /// Conveyor: carried one square per belt in the belt's direction.
    Belt { dx: i8, dy: i8 },
}

/// Concealment class (drives the battle-layer presence masks).
#[derive(Clone, Copy, PartialEq, Eq, Debug, Structural)]
pub enum Conceal {
    Visible,
    /// A piece standing here is hidden from observers with nobody adjacent.
    Standing,
    /// The tile is secret to everyone but its owner until it triggers.
    OwnerSecret,
}

/// One terrain kind as data.
#[derive(Clone, Debug)]
pub struct TerrainDef {
    pub id: &'static str,
    /// Stable wire code; all owner-band rows share their kind's one code.
    pub code: u8,
    pub blocks: Blocks,
    pub on_land: Option<OnLand>,
    pub carry: Carry,
    pub conceal: Conceal,
    /// Destructible-block tier (0 = not destructible).
    pub tiers: u8,
    /// This row lives in an owner code band (code = band base + side).
    pub owner_banded: bool,
}

/// A game-owned custom terrain row (code `NT + index`).
#[derive(Clone, Debug)]
pub struct CustomOnLand {
    pub ops: Vec<MicroOp>,
    pub gate: LandGate,
    pub consumed: bool,
}

#[derive(Clone, Debug)]
pub struct CustomTerrain {
    pub id: String,
    pub blocks: Blocks,
    pub on_land: Option<CustomOnLand>,
    pub carry: Carry,
    pub conceal: Conceal,
    /// The fixed authored owner (`EnemyOfOwner` resolves against it).
    pub owner: Option<Side>,
    pub tiers: u8,
}

// -- the row table, as spec -------------------------------------------------

pub open spec fn spec_blocks(t: u8) -> Blocks {
    if t == T_WALL || (T_BLOCK1 <= t <= T_BLOCK3) {
        Blocks { ground: true, flight: true, drill: false }
    } else if t == T_PIT {
        Blocks { ground: true, flight: false, drill: true }
    } else {
        Blocks { ground: false, flight: false, drill: false }
    }
}

pub open spec fn spec_tiers(t: u8) -> u8 {
    if T_BLOCK1 <= t <= T_BLOCK3 { (t - T_BLOCK1 + 1) as u8 } else { 0 }
}

pub open spec fn spec_carry(t: u8) -> Carry {
    if t == T_ICE {
        Carry::Slide { riders_only: true }
    } else if t == T_CONV_N {
        Carry::Belt { dx: 0, dy: 1 }
    } else if t == T_CONV_E {
        Carry::Belt { dx: 1, dy: 0 }
    } else if t == T_CONV_S {
        Carry::Belt { dx: 0, dy: -1i8 }
    } else if t == T_CONV_W {
        Carry::Belt { dx: -1i8, dy: 0 }
    } else {
        Carry::Still
    }
}

pub open spec fn spec_is_mine(t: u8) -> bool {
    T_MINE0 <= t <= T_MINE0 + 3
}

pub open spec fn spec_has_on_land(t: u8) -> bool {
    spec_is_mine(t) || t == T_ACID
}

pub open spec fn spec_conceal(t: u8) -> Conceal {
    if t == T_GRASS {
        Conceal::Standing
    } else if spec_is_mine(t) {
        Conceal::OwnerSecret
    } else {
        Conceal::Visible
    }
}

pub open spec fn spec_code(t: u8) -> u8 {
    if t <= T_PIT {
        t
    } else if spec_is_mine(t) {
        3
    } else if (t as usize) < NT {
        (t - 3) as u8
    } else {
        0
    }
}

/// The registry row for an internal terrain code (codes past the stdlib
/// table read as bare floor).
pub fn row(t: u8) -> (r: TerrainDef)
    ensures
        r.id@ == spec_row_id(t),
        r.blocks == spec_blocks(t),
        r.tiers == spec_tiers(t),
        r.carry == spec_carry(t),
        r.conceal == spec_conceal(t),
        r.code == spec_code(t),
        r.owner_banded == spec_is_mine(t),
        r.on_land.is_some() == spec_has_on_land(t),
        r.on_land matches Some(ol) ==> (
            ol.ops@ == seq![MicroOp::HpAdd { n: HpAmt::Lit(-1i16), cap: false }]
            && ol.gate == (if spec_is_mine(t) { LandGate::EnemyOfOwner } else { LandGate::Anyone })
            && ol.consumed == spec_is_mine(t)),
{
    proof {
        reveal_strlit("none");
        assert("none"@ =~= seq!['n', 'o', 'n', 'e']);
        reveal_strlit("wall");
        assert("wall"@ =~= seq!['w', 'a', 'l', 'l']);
        reveal_strlit("pit");
        assert("pit"@ =~= seq!['p', 'i', 't']);
        reveal_strlit("mine");
        assert("mine"@ =~= seq!['m', 'i', 'n', 'e']);
        reveal_strlit("ice");
        assert("ice"@ =~= seq!['i', 'c', 'e']);
        reveal_strlit("grass");
        assert("grass"@ =~= seq!['g', 'r', 'a', 's', 's']);
        reveal_strlit("acid");
        assert("acid"@ =~= seq!['a', 'c', 'i', 'd']);
        reveal_strlit("block1");
        assert("block1"@ =~= seq!['b', 'l', 'o', 'c', 'k', '1']);
        reveal_strlit("block2");
        assert("block2"@ =~= seq!['b', 'l', 'o', 'c', 'k', '2']);
        reveal_strlit("block3");
        assert("block3"@ =~= seq!['b', 'l', 'o', 'c', 'k', '3']);
        reveal_strlit("conv_n");
        assert("conv_n"@ =~= seq!['c', 'o', 'n', 'v', '_', 'n']);
        reveal_strlit("conv_e");
        assert("conv_e"@ =~= seq!['c', 'o', 'n', 'v', '_', 'e']);
        reveal_strlit("conv_s");
        assert("conv_s"@ =~= seq!['c', 'o', 'n', 'v', '_', 's']);
        reveal_strlit("conv_w");
        assert("conv_w"@ =~= seq!['c', 'o', 'n', 'v', '_', 'w']);
    }
    let open = Blocks { ground: false, flight: false, drill: false };
    let solid = Blocks { ground: true, flight: true, drill: false };
    let chasm = Blocks { ground: true, flight: false, drill: true };
    let floor = TerrainDef {
        id: "none",
        code: 0,
        blocks: open,
        on_land: None,
        carry: Carry::Still,
        conceal: Conceal::Visible,
        tiers: 0,
        owner_banded: false,
    };
    if t == T_WALL {
        TerrainDef { id: "wall", code: 1, blocks: solid, ..floor }
    } else if t == T_PIT {
        TerrainDef { id: "pit", code: 2, blocks: chasm, ..floor }
    } else if T_MINE0 <= t && t <= T_MINE0 + 3 {
        let bite = vec![MicroOp::HpAdd { n: HpAmt::Lit(-1), cap: false }];
        TerrainDef {
            id: "mine",
            code: 3,
            on_land: Some(OnLand { ops: bite, gate: LandGate::EnemyOfOwner, consumed: true }),
            conceal: Conceal::OwnerSecret,
            owner_banded: true,
            ..floor
        }
    } else if t == T_ICE {
        TerrainDef { id: "ice", code: 4, carry: Carry::Slide { riders_only: true }, ..floor }
    } else if t == T_GRASS {
        TerrainDef { id: "grass", code: 5, conceal: Conceal::Standing, ..floor }
    } else if t == T_ACID {
        let bite = vec![MicroOp::HpAdd { n: HpAmt::Lit(-1), cap: false }];
        TerrainDef {
            id: "acid",
            code: 6,
            on_land: Some(OnLand { ops: bite, gate: LandGate::Anyone, consumed: false }),
            ..floor
        }
    } else if t == T_BLOCK1 {
        TerrainDef { id: "block1", code: 7, blocks: solid, tiers: 1, ..floor }
    } else if t == T_BLOCK2 {
        TerrainDef { id: "block2", code: 8, blocks: solid, tiers: 2, ..floor }
    } else if t == T_BLOCK3 {
        TerrainDef { id: "block3", code: 9, blocks: solid, tiers: 3, ..floor }
    } else if t == T_CONV_N {
        TerrainDef { id: "conv_n", code: 10, carry: Carry::Belt { dx: 0, dy: 1 }, ..floor }
    } else if t == T_CONV_E {
        TerrainDef { id: "conv_e", code: 11, carry: Carry::Belt { dx: 1, dy: 0 }, ..floor }
    } else if t == T_CONV_S {
        TerrainDef { id: "conv_s", code: 12, carry: Carry::Belt { dx: 0, dy: -1 }, ..floor }
    } else if t == T_CONV_W {
        TerrainDef { id: "conv_w", code: 13, carry: Carry::Belt { dx: -1, dy: 0 }, ..floor }
    } else {
        floor
    }
}

/// The authoring id of each stdlib row.
pub open spec fn spec_row_id(t: u8) -> Seq<char> {
    if t == T_WALL {
        seq!['w', 'a', 'l', 'l']
    } else if t == T_PIT {
        seq!['p', 'i', 't']
    } else if spec_is_mine(t) {
        seq!['m', 'i', 'n', 'e']
    } else if t == T_ICE {
        seq!['i', 'c', 'e']
    } else if t == T_GRASS {
        seq!['g', 'r', 'a', 's', 's']
    } else if t == T_ACID {
        seq!['a', 'c', 'i', 'd']
    } else if t == T_BLOCK1 {
        seq!['b', 'l', 'o', 'c', 'k', '1']
    } else if t == T_BLOCK2 {
        seq!['b', 'l', 'o', 'c', 'k', '2']
    } else if t == T_BLOCK3 {
        seq!['b', 'l', 'o', 'c', 'k', '3']
    } else if t == T_CONV_N {
        seq!['c', 'o', 'n', 'v', '_', 'n']
    } else if t == T_CONV_E {
        seq!['c', 'o', 'n', 'v', '_', 'e']
    } else if t == T_CONV_S {
        seq!['c', 'o', 'n', 'v', '_', 's']
    } else if t == T_CONV_W {
        seq!['c', 'o', 'n', 'v', '_', 'w']
    } else {
        seq!['n', 'o', 'n', 'e']
    }
}

/// A row a setup may name: a real kind with a code of its own (not the
/// absence row, not an owner-band row).
pub open spec fn authorable(t: u8) -> bool {
    (t as usize) < NT && spec_code(t) != 0 && !spec_is_mine(t)
}

fn same_text(a: &str, b: &str) -> (r: bool)
    ensures
        r == (a@ == b@),
{
    let x = crate::codex::chars_of(a);
    let y = crate::codex::chars_of(b);
    if x.len() != y.len() {
        return false;
    }
    let mut k: usize = 0;
    while k < x.len()
        invariant
            x@ == a@,
            y@ == b@,
            x@.len() == y@.len(),
            k <= x@.len(),
            forall|m: int| 0 <= m < k ==> x@[m] == y@[m],
        decreases x@.len() - k,
    {
        if x[k] != y[k] {
            return false;
        }
        k += 1;
    }
    assert(a@ =~= b@);
    true
}

/// Look up an authorable row by id (setup terrain kinds): the absence row
/// and the owner-band rows are not authorable.
pub fn by_id(id: &str) -> (r: Option<u8>)
    ensures
        match r {
            Some(t) => authorable(t) && id@ == spec_row_id(t)
                && forall|u: u8| u < t ==> !(#[trigger] authorable(u) && id@ == spec_row_id(u)),
            None => forall|u: u8| !(#[trigger] authorable(u) && id@ == spec_row_id(u)),
        },
{
    let mut t: u8 = 0;
    while (t as usize) < NT
        invariant
            t as usize <= NT,
            forall|u: u8| u < t ==> !(#[trigger] authorable(u) && id@ == spec_row_id(u)),
        decreases NT - t as usize,
    {
        let r = row(t);
        if r.code != 0 && !r.owner_banded && same_text(r.id, id) {
            return Some(t);
        }
        t += 1;
    }
    None
}

// -- the registry-backed predicates ---------------------------------------

/// The blocking row of a stdlib code (codes past the table are open).
pub fn row_blocks(t: u8) -> (b: Blocks)
    ensures
        b == spec_blocks(t),
{
    if t == T_WALL || (t >= T_BLOCK1 && t <= T_BLOCK3) {
        Blocks { ground: true, flight: true, drill: false }
    } else if t == T_PIT {
        Blocks { ground: true, flight: false, drill: true }
    } else {
        Blocks { ground: false, flight: false, drill: false }
    }
}

/// Terrain that blocks entry, rays, screens, and legs for the bare ground
/// class.
pub fn terrain_blocks(t: u8) -> (r: bool)
    ensures
        r == spec_blocks(t).ground,
{
    t == T_WALL || t == T_PIT || (t >= T_BLOCK1 && t <= T_BLOCK3)
}

/// A piece stops iff every permission class it holds is blocked by the row:
/// flight ignores pits; drill ignores walls and destructible blocks.
pub open spec fn spec_stops(t: u8, flies: bool, drills: bool) -> bool {
    let b = spec_blocks(t);
    b.ground && (!flies || b.flight) && (!drills || b.drill)
}

pub fn terrain_stops(t: u8, flies: bool, drills: bool) -> (r: bool)
    ensures
        r == spec_stops(t, flies, drills),
{
    ((t == T_WALL || (t >= T_BLOCK1 && t <= T_BLOCK3)) && !drills) || (t == T_PIT && !flies)
}

/// Is this a destructible block tier (`tiers > 0`)?
pub fn is_block(t: u8) -> (r: bool)
    ensures
        r == (spec_tiers(t) > 0),
{
    t >= T_BLOCK1 && t <= T_BLOCK3
}

/// One erosion step down the block band: tier 1 clears to floor, higher
/// tiers step to the next code down.
pub open spec fn spec_erode(t: u8) -> u8 {
    if spec_tiers(t) <= 1 { T_NONE } else { (t - 1) as u8 }
}

pub fn erode(t: u8) -> (r: u8)
    ensures
        r == spec_erode(t),
        spec_tiers(t) > 1 ==> spec_tiers(r) + 1 == spec_tiers(t),
{
    if t > T_BLOCK1 && t <= T_BLOCK3 {
        t - 1
    } else {
        T_NONE
    }
}

/// The belt direction, if this terrain carries `Belt`.
pub fn conv_dir(t: u8) -> (r: Option<(i8, i8)>)
    ensures
        r == (match spec_carry(t) {
            Carry::Belt { dx, dy } => Some((dx, dy)),
            _ => None,
        }),
{
    if t == T_CONV_N {
        Some((0i8, 1i8))
    } else if t == T_CONV_E {
        Some((1i8, 0i8))
    } else if t == T_CONV_S {
        Some((0i8, -1i8))
    } else if t == T_CONV_W {
        Some((-1i8, 0i8))
    } else {
        None
    }
}

/// Does this terrain carry `Slide` (ice)?
pub fn slides(t: u8) -> (r: bool)
    ensures
        r == (spec_carry(t) is Slide),
{
    t == T_ICE
}

/// Does this terrain carry `Belt` (conveyors)?
pub fn belts(t: u8) -> (r: bool)
    ensures
        r == (spec_carry(t) is Belt),
{
    t >= T_CONV_N && t <= T_CONV_W
}

/// Does this terrain have an on-land hazard script?
pub fn has_on_land(t: u8) -> (r: bool)
    ensures
        r == spec_has_on_land(t),
{
    (t >= T_MINE0 && t <= T_MINE0 + 3) || t == T_ACID
}

/// Ground-blocking codes a flyer is exempt from (pits).
pub fn flight_exempt(t: u8) -> (r: bool)
    ensures
        r == (spec_blocks(t).ground && !spec_blocks(t).flight),
{
    t == T_PIT
}

/// Ground-blocking codes a driller is exempt from (walls + blocks).
pub fn drill_exempt(t: u8) -> (r: bool)
    ensures
        r == (spec_blocks(t).ground && !spec_blocks(t).drill),
{
    t == T_WALL || (t >= T_BLOCK1 && t <= T_BLOCK3)
}

/// Bare floor (the absence row).
pub fn is_bare(t: u8) -> (r: bool)
    ensures
        r == (t == T_NONE),
{
    t == T_NONE
}

/// The banded owner, if this code sits in the mine owner band.
pub fn mine_owner(t: u8) -> (r: Option<Side>)
    ensures
        r == (if spec_is_mine(t) { Some((t - T_MINE0) as Side) } else { None::<Side> }),
{
    if t >= T_MINE0 && t <= T_MINE0 + 3 {
        Some(t - T_MINE0)
    } else {
        None
    }
}

} // verus!
