//! Xiangqi from Bits: lame leapers, the mode-split cannon, palace and river
//! zones, and the flying-general target predicate.

use vstd::prelude::*;
use crate::bits::{Mode, MoveBit, PathRule, TargetPred};
use crate::game::{
    BoardDef, CaptureFate, GameDef, PassPolicy, PieceTypeDef, Policy, Side, StalematePolicy,
    TurnPolicy, TypeId, Zone, type_ok, types_ok,
};
use crate::geometry::DirFilter;

verus! {

pub const GENERAL: TypeId = 0;
pub const ADVISOR: TypeId = 1;
pub const ELEPHANT: TypeId = 2;
pub const HORSE: TypeId = 3;
pub const CHARIOT: TypeId = 4;
pub const CANNON: TypeId = 5;
pub const SOLDIER: TypeId = 6;

pub const Z_PALACE: usize = 0;
pub const Z_OWN_HALF: usize = 1;
pub const Z_ENEMY_HALF: usize = 2;

/// The back-rank piece on file `x`.
pub fn back_rank(x: u8) -> (t: TypeId)
    ensures
        t <= SOLDIER,
        t == (if x == 0 || x == 8 { CHARIOT } else if x == 1 || x == 7 { HORSE } else if x == 2 || x == 6 { ELEPHANT }
            else if x == 3 || x == 5 { ADVISOR } else { GENERAL }),
{
    if x == 0 || x == 8 { CHARIOT } else if x == 1 || x == 7 { HORSE } else if x == 2 || x == 6 { ELEPHANT }
    else if x == 3 || x == 5 { ADVISOR } else { GENERAL }
}

/// The back-rank type on file `x`.
pub open spec fn back_type(x: u8) -> TypeId {
    if x == 0 || x == 8 { CHARIOT } else if x == 1 || x == 7 { HORSE } else if x == 2 || x == 6 { ELEPHANT }
    else if x == 3 || x == 5 { ADVISOR } else { GENERAL }
}

/// The xiangqi start list entry `k`: the back ranks file by file (side 0,
/// then side 1), each horse file followed by its cannons, then the
/// soldiers on the even files.
pub open spec fn start_entry(k: int) -> (TypeId, Side, u8, u8) {
    let back = |x: u8, j: int| if j == 0 { (back_type(x), 0u8, x, 0u8) } else { (back_type(x), 1u8, x, 9u8) };
    let cannon = |x: u8, j: int| if j == 0 { (CANNON, 0u8, x, 2u8) } else { (CANNON, 1u8, x, 7u8) };
    if k < 2 {
        back(0, k)
    } else if k < 4 {
        back(1, k - 2)
    } else if k < 6 {
        cannon(1, k - 4)
    } else if k < 16 {
        back((2 + (k - 6) / 2) as u8, (k - 6) % 2)
    } else if k < 18 {
        back(7, k - 16)
    } else if k < 20 {
        cannon(7, k - 18)
    } else if k < 22 {
        back(8, k - 20)
    } else {
        let x = (2 * ((k - 22) / 2)) as u8;
        if (k - 22) % 2 == 0 { (SOLDIER, 0, x, 3) } else { (SOLDIER, 1, x, 6) }
    }
}

/// How many back-rank and cannon entries the first `x` files give.
pub open spec fn back_len(x: int) -> int {
    2 * x + (if x > 1 { 2int } else { 0int }) + (if x > 7 { 2int } else { 0int })
}

pub fn game() -> (g: GameDef)
    ensures
        g.wf(),
        g.start_ok(),
        g.sides == 2,
        g.board.w == 9 && g.board.h == 10,
        g.types@.len() == 7,
        g.types@[GENERAL as int].glyph == 'K' && g.types@[GENERAL as int].royal,
        g.types@[ADVISOR as int].glyph == 'A' && g.types@[ELEPHANT as int].glyph == 'E',
        g.types@[HORSE as int].glyph == 'H' && g.types@[CHARIOT as int].glyph == 'R',
        g.types@[CANNON as int].glyph == 'C' && g.types@[SOLDIER as int].glyph == 'P',
        g.start@.len() == 32,
        forall|k: int| 0 <= k < 32 ==> #[trigger] g.start@[k] == start_entry(k),
        g.policy.stalemate == StalematePolicy::Loss,
        g.policy.capture_fate == CaptureFate::Destroy,
{
    let board = BoardDef { w: 9, h: 10 };
    let mut palace = Zone::new(2);
    palace.add_rect(0, &board, 3, 0, 5, 2);
    palace.add_rect(1, &board, 3, 7, 5, 9);
    let mut own_half = Zone::new(2);
    own_half.add_rect(0, &board, 0, 0, 8, 4);
    own_half.add_rect(1, &board, 0, 5, 8, 9);
    let mut enemy_half = Zone::new(2);
    enemy_half.add_rect(0, &board, 0, 5, 8, 9);
    enemy_half.add_rect(1, &board, 0, 0, 8, 4);

    // Flying general: a capture-only file rider whose target must be the
    // enemy royal — also what makes facing generals illegal.
    let general = PieceTypeDef::new(
        "general",
        'K',
        vec![
            MoveBit::leaper(0, 1).to_zone(Z_PALACE),
            MoveBit::rider(0, 1).dirs(DirFilter::Vertical).mode(Mode::Capture).target(TargetPred::EnemyRoyal),
        ],
    ).royal();
    let advisor = PieceTypeDef::new("advisor", 'A', vec![MoveBit::leaper(1, 1).to_zone(Z_PALACE)]);
    let elephant = PieceTypeDef::new(
        "elephant",
        'E',
        vec![MoveBit::leaper(2, 2).path(PathRule::Midpoint).to_zone(Z_OWN_HALF)],
    );
    let horse = PieceTypeDef::new("horse", 'H', vec![MoveBit::leaper(1, 2).path(PathRule::Leg)]);
    let chariot = PieceTypeDef::new("chariot", 'R', vec![MoveBit::rider(0, 1)]);
    let cannon = PieceTypeDef::new("cannon", 'C', vec![MoveBit::rider(0, 1).mode(Mode::Move), MoveBit::hopper(0, 1)]);
    let soldier = PieceTypeDef::new(
        "soldier",
        'P',
        vec![
            MoveBit::leaper(0, 1).dirs(DirFilter::Forward),
            MoveBit::leaper(0, 1).dirs(DirFilter::Sideways).from_zone(Z_ENEMY_HALF),
        ],
    );
    proof {
        assert(type_ok(general, 7));
        assert(type_ok(advisor, 7));
        assert(type_ok(elephant, 7));
        assert(type_ok(horse, 7));
        assert(type_ok(chariot, 7));
        assert(type_ok(cannon, 7));
        assert(type_ok(soldier, 7));
    }
    let types = vec![general, advisor, elephant, horse, chariot, cannon, soldier];
    assert(types_ok(types@));

    let policy = Policy {
        stalemate: StalematePolicy::Loss,
        capture_fate: CaptureFate::Destroy,
        turn: TurnPolicy::Alternate,
        pass: PassPolicy::Forbidden,
    };

    let mut start: Vec<(TypeId, Side, u8, u8)> = Vec::new();
    let mut x: u8 = 0;
    while x < 9
        invariant
            x <= 9,
            start@.len() <= 4 * x,
            start@.len() == back_len(x as int),
            forall|k: int| 0 <= k < start@.len() ==> {
                let e = #[trigger] start@[k];
                e.0 <= SOLDIER && e.1 < 2 && e.2 < 9 && e.3 < 10
            },
            forall|k: int| 0 <= k < start@.len() ==> #[trigger] start@[k] == start_entry(k),
        decreases 9 - x,
    {
        let t = back_rank(x);
        let ghost n0 = start@.len() as int;
        start.push((t, 0, x, 0));
        start.push((t, 1, x, 9));
        proof {
            if 2 <= x <= 6 {
                assert((n0 - 6) / 2 == x - 2 && (n0 - 6) % 2 == 0);
                assert((n0 + 1 - 6) / 2 == x - 2 && (n0 + 1 - 6) % 2 == 1);
            }
            assert(start@[n0] == start_entry(n0));
            assert(start@[n0 + 1] == start_entry(n0 + 1));
        }
        if x == 1 || x == 7 {
            start.push((CANNON, 0, x, 2));
            start.push((CANNON, 1, x, 7));
            assert(start@[n0 + 2] == start_entry(n0 + 2));
            assert(start@[n0 + 3] == start_entry(n0 + 3));
        }
        x += 1;
    }
    let mut x: u8 = 0;
    while x < 9
        invariant
            x <= 10,
            start@.len() <= 36 + 2 * x,
            x % 2 == 0,
            start@.len() == 22 + x,
            forall|k: int| 0 <= k < start@.len() ==> {
                let e = #[trigger] start@[k];
                e.0 <= SOLDIER && e.1 < 2 && e.2 < 9 && e.3 < 10
            },
            forall|k: int| 0 <= k < start@.len() ==> #[trigger] start@[k] == start_entry(k),
        decreases 10 - x,
    {
        let ghost n0 = start@.len() as int;
        start.push((SOLDIER, 0, x, 3));
        start.push((SOLDIER, 1, x, 6));
        proof {
            assert((n0 - 22) / 2 == x / 2 && (n0 - 22) % 2 == 0);
            assert((n0 + 1 - 22) / 2 == x / 2 && (n0 + 1 - 22) % 2 == 1);
            assert(2 * (x / 2) == x);
            assert(start@[n0] == start_entry(n0));
            assert(start@[n0 + 1] == start_entry(n0 + 1));
        }
        x += 2;
    }
    proof {
        assert(board.w * board.h == 90) by (nonlinear_arith) requires board.w == 9, board.h == 10;
        assert(board.spec_ncells() == 90);
        assert(crate::zobrist::table_sizes_fit(90, 7, 2));
        assert(crate::game::config_ok(board, 2, types@, 0));
    }
    let g = GameDef::new(board, 2, types, vec![palace, own_half, enemy_half], policy, start);
    assert(g.start_ok());
    g
}

} // verus!
