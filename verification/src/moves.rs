//! Move representation. One move = one action; compounds stay a single
//! `Move` whose application script has several steps.

use vstd::prelude::*;
use vstd::string::*;
use crate::game::GameDef;
use crate::game::TypeId;

verus! {

/// The "no square" marker (drops have no origin; most moves no aux square).
pub const NO_SQ: u16 = 65535u16;

#[derive(Clone, Copy, PartialEq, Eq, Debug, Structural)]
pub enum MoveKind {
    Normal,
    DoubleStep,
    EnPassant,
    Castle,
    Drop,
    /// An Axis-B effect invoked as the turn's single action.
    Ability,
    /// A multi-step effect script generated as ONE move: atomic,
    /// piece-local. Overclock: from→to then to→aux, self −1 HP.
    Compound,
    /// Locust hop: capture the screen at `aux`, land on the empty square
    /// `to` immediately beyond.
    Locust,
}

/// Which Axis-B effect an Ability/Compound move applies.
#[derive(Clone, Copy, PartialEq, Eq, Debug, Structural)]
pub enum Effect {
    NoEffect,
    Heal(i16),
    Wall,
    Pit,
    /// Capture at range without vacating the origin; `aux` holds the forced
    /// retreat square (NO_SQ when the laser has no coupled retreat). When
    /// `to` holds no piece but a destructible block, the shot is terrain
    /// damage: the block drops one tier.
    Laser,
    /// Act-twice: second-step destination in `aux`, self −1 HP.
    Twice,
    /// Revive a dead friendly piece at `to`; `drop_type` names which type.
    Resurrect,
    /// Flip the enemy piece at `to` to the caster's side.
    Hack,
    /// Lay an owner-tagged mine on the empty square at `to`.
    Mine,
    /// Exchange the caster (`from`) with the friendly piece at `to`.
    Swap,
    /// Shove the enemy at `to` one square directly away from the caster;
    /// `aux` holds the shoved piece's destination.
    Push,
    /// A custom ability row (`GameDef::custom_effects[index]`).
    Custom(u16),
}

#[derive(Clone, Copy, PartialEq, Eq, Debug, Structural)]
pub struct Move {
    /// `NO_SQ` for drops.
    pub from: u16,
    pub to: u16,
    pub kind: MoveKind,
    pub promo: Option<TypeId>,
    /// Only meaningful when `kind == Drop` (or a resurrect ability).
    pub drop_type: TypeId,
    /// Auxiliary square: en-passant victim, castling rook origin, compound
    /// second step, laser retreat, or push destination; `NO_SQ` otherwise.
    pub aux: u16,
    pub effect: Effect,
}

impl Move {
    /// A plain move from `from` to `to`.
    pub open spec fn spec_normal(from: u16, to: u16) -> Move {
        Move { from, to, kind: MoveKind::Normal, promo: None, drop_type: 0, aux: NO_SQ, effect: Effect::NoEffect }
    }

    pub fn normal(from: u16, to: u16) -> (m: Self)
        ensures
            m == (Move { from, to, kind: MoveKind::Normal, promo: None, drop_type: 0, aux: NO_SQ, effect: Effect::NoEffect }),
            m == Self::spec_normal(from, to),
    {
        Move { from, to, kind: MoveKind::Normal, promo: None, drop_type: 0, aux: NO_SQ, effect: Effect::NoEffect }
    }

    pub fn promo(from: u16, to: u16, t: TypeId) -> (m: Self)
        ensures
            m == (Move { from, to, kind: MoveKind::Normal, promo: Some(t), drop_type: 0, aux: NO_SQ, effect: Effect::NoEffect }),
    {
        Move { from, to, kind: MoveKind::Normal, promo: Some(t), drop_type: 0, aux: NO_SQ, effect: Effect::NoEffect }
    }

    pub fn special(from: u16, to: u16, kind: MoveKind, aux: u16) -> (m: Self)
        ensures
            m == (Move { from, to, kind, promo: None, drop_type: 0, aux, effect: Effect::NoEffect }),
    {
        Move { from, to, kind, promo: None, drop_type: 0, aux, effect: Effect::NoEffect }
    }

    pub fn drop(t: TypeId, to: u16) -> (m: Self)
        ensures
            m == (Move { from: NO_SQ, to, kind: MoveKind::Drop, promo: None, drop_type: t, aux: NO_SQ, effect: Effect::NoEffect }),
    {
        Move { from: NO_SQ, to, kind: MoveKind::Drop, promo: None, drop_type: t, aux: NO_SQ, effect: Effect::NoEffect }
    }

    pub fn ability(from: u16, to: u16, effect: Effect, aux: u16) -> (m: Self)
        ensures
            m == (Move { from, to, kind: MoveKind::Ability, promo: None, drop_type: 0, aux, effect }),
    {
        Move { from, to, kind: MoveKind::Ability, promo: None, drop_type: 0, aux, effect }
    }

    pub fn resurrect(from: u16, to: u16, t: TypeId) -> (m: Self)
        ensures
            m == (Move { from, to, kind: MoveKind::Ability, promo: None, drop_type: t, aux: NO_SQ, effect: Effect::Resurrect }),
    {
        Move { from, to, kind: MoveKind::Ability, promo: None, drop_type: t, aux: NO_SQ, effect: Effect::Resurrect }
    }

    pub fn compound(from: u16, to: u16, second: u16) -> (m: Self)
        ensures
            m == (Move { from, to, kind: MoveKind::Compound, promo: None, drop_type: 0, aux: second, effect: Effect::Twice }),
    {
        Move { from, to, kind: MoveKind::Compound, promo: None, drop_type: 0, aux: second, effect: Effect::Twice }
    }
}


/// `String::push`: appends one character.
#[verifier::external_body]
pub(crate) fn push_char(s: &mut String, c: char)
    ensures
        final(s)@ == old(s)@.push(c),
{
    s.push(c);
}

/// The decimal digits of `n`.
pub open spec fn spec_decimal(n: nat) -> Seq<char>
    decreases n,
{
    if n < 10 {
        seq![(48 + n) as char]
    } else {
        spec_decimal(n / 10).push((48 + n % 10) as char)
    }
}

pub(crate) fn push_decimal(s: &mut String, n: u64)
    ensures
        final(s)@ == old(s)@ + spec_decimal(n as nat),
    decreases n,
{
    if n < 10 {
        push_char(s, ((48 + n) as u8) as char);
        assert(final(s)@ =~= old(s)@ + spec_decimal(n as nat));
    } else {
        push_decimal(s, n / 10);
        push_char(s, ((48 + n % 10) as u8) as char);
        assert(final(s)@ =~= old(s)@ + spec_decimal(n as nat));
    }
}

/// The name of a square: file letter then 1-based rank number ("e4").
pub open spec fn spec_sq_name(g: GameDef, sq: u16) -> Seq<char> {
    seq![(((97 + g.board.spec_x(sq as int)) % 256) as u8) as char] + spec_decimal((g.board.spec_y(sq as int) + 1) as nat)
}

pub fn sq_name(g: &GameDef, sq: u16) -> (s: String)
    requires
        g.board.valid(),
        (sq as int) < g.ncells(),
    ensures
        s@ == spec_sq_name(*g, sq),
{
    let (x, y) = g.board.xy(sq);
    let mut s = String::new();
    let c: u8 = ((97 + x as u16) % 256) as u8;
    push_char(&mut s, c as char);
    push_decimal(&mut s, (y + 1) as u64);
    assert(s@ =~= spec_sq_name(*g, sq));
    s
}

fn push_sq(g: &GameDef, s: &mut String, sq: u16)
    requires
        g.board.valid(),
        (sq as int) < g.ncells(),
    ensures
        final(s)@ == old(s)@ + spec_sq_name(*g, sq),
{
    let n = sq_name(g, sq);
    s.append(n.as_str());
}

/// ASCII lowercase of a glyph.
pub open spec fn spec_lower(c: char) -> char {
    if 'A' <= c <= 'Z' { ((c as u32) + 32) as char } else { c }
}

fn lower(c: char) -> (r: char)
    ensures
        r == spec_lower(c),
{
    if 'A' <= c && c <= 'Z' {
        ((c as u32 + 32) as u8) as char
    } else {
        c
    }
}

/// The name an ability move carries in its notation: the registry row's
/// word (a revived type's glyph after "rez"), the custom row's id, or "fx".
pub open spec fn spec_effect_label(g: GameDef, mv: Move) -> Seq<char> {
    match mv.effect {
        Effect::Heal(_) => seq!['h', 'e', 'a', 'l'],
        Effect::Wall => seq!['w', 'a', 'l', 'l'],
        Effect::Pit => seq!['p', 'i', 't'],
        Effect::Laser => seq!['l', 'a', 's', 'e', 'r'],
        Effect::Resurrect => seq!['r', 'e', 'z'] + if (mv.drop_type as int) < g.ntypes() {
            seq![g.types@[mv.drop_type as int].glyph]
        } else {
            Seq::empty()
        },
        Effect::Hack => seq!['h', 'a', 'c', 'k'],
        Effect::Mine => seq!['m', 'i', 'n', 'e'],
        Effect::Swap => seq!['s', 'w', 'a', 'p'],
        Effect::Push => seq!['p', 'u', 's', 'h'],
        Effect::Custom(ci) => if (ci as int) < g.custom_effects@.len() {
            g.custom_effects@[ci as int].id@
        } else {
            seq!['f', 'x']
        },
        _ => seq!['f', 'x'],
    }
}

/// The notation of a move, in full.
pub open spec fn spec_move_str(g: GameDef, mv: Move) -> Seq<char> {
    match mv.kind {
        MoveKind::Drop => (if (mv.drop_type as int) < g.ntypes() { seq![g.types@[mv.drop_type as int].glyph] } else { Seq::empty() })
            + seq!['@'] + spec_sq_name(g, mv.to),
        MoveKind::Ability => spec_sq_name(g, mv.from) + seq!['!'] + spec_effect_label(g, mv)
            + seq![':'] + spec_sq_name(g, mv.to)
            + (if mv.aux != NO_SQ { seq!['>'] + spec_sq_name(g, mv.aux) } else { Seq::empty() }),
        MoveKind::Locust => spec_sq_name(g, mv.from) + spec_sq_name(g, mv.to) + seq!['x'] + spec_sq_name(g, mv.aux),
        MoveKind::Compound => spec_sq_name(g, mv.from) + spec_sq_name(g, mv.to) + seq!['+']
            + spec_sq_name(g, mv.to) + spec_sq_name(g, mv.aux),
        _ => spec_sq_name(g, mv.from) + spec_sq_name(g, mv.to) + (match mv.promo {
            Some(t) => if (t as int) < g.ntypes() { seq![spec_lower(g.types@[t as int].glyph)] } else { Seq::empty() },
            None => Seq::empty(),
        }),
    }
}

/// The notation of a move: "e2e4", promotions "e7e8q", drops "P@e5",
/// abilities "e2!heal:e3" (with ">aux" when the move carries an aux
/// square), locust hops "e2e5xe4", compounds "e2e4+e4e5".
pub fn move_str(g: &GameDef, mv: &Move) -> (s: String)
    requires
        g.board.valid(),
        (mv.to as int) < g.ncells(),
        mv.kind != MoveKind::Drop ==> (mv.from as int) < g.ncells(),
        (mv.kind == MoveKind::Locust || mv.kind == MoveKind::Compound
            || (mv.kind == MoveKind::Ability && mv.aux != NO_SQ)) ==> (mv.aux as int) < g.ncells(),
    ensures
        s@ == spec_move_str(*g, *mv),
        mv.kind == MoveKind::Drop && (mv.drop_type as int) < g.ntypes() ==>
            s@ == seq![g.types@[mv.drop_type as int].glyph, '@'] + spec_sq_name(*g, mv.to),
        mv.kind == MoveKind::Locust ==>
            s@ == spec_sq_name(*g, mv.from) + spec_sq_name(*g, mv.to) + seq!['x'] + spec_sq_name(*g, mv.aux),
        mv.kind == MoveKind::Compound ==>
            s@ == spec_sq_name(*g, mv.from) + spec_sq_name(*g, mv.to) + seq!['+']
                + spec_sq_name(*g, mv.to) + spec_sq_name(*g, mv.aux),
        (mv.kind != MoveKind::Drop && mv.kind != MoveKind::Locust && mv.kind != MoveKind::Compound
            && mv.kind != MoveKind::Ability) ==> s@ == spec_sq_name(*g, mv.from) + spec_sq_name(*g, mv.to)
            + (match mv.promo {
                Some(t) => if (t as int) < g.ntypes() { seq![spec_lower(g.types@[t as int].glyph)] } else { Seq::empty() },
                None => Seq::empty(),
            }),
        mv.kind == MoveKind::Ability ==> s@ == spec_sq_name(*g, mv.from) + seq!['!'] + spec_effect_label(*g, *mv)
            + seq![':'] + spec_sq_name(*g, mv.to)
            + (if mv.aux != NO_SQ { seq!['>'] + spec_sq_name(*g, mv.aux) } else { Seq::empty() }),
{
    let mut s = String::new();
    match mv.kind {
        MoveKind::Drop => {
            if (mv.drop_type as usize) < g.types.len() {
                push_char(&mut s, g.types[mv.drop_type as usize].glyph);
            }
            push_char(&mut s, '@');
            push_sq(g, &mut s, mv.to);
        },
        MoveKind::Ability => {
            proof {
                reveal_strlit("heal");
                reveal_strlit("wall");
                reveal_strlit("pit");
                reveal_strlit("laser");
                reveal_strlit("rez");
                reveal_strlit("hack");
                reveal_strlit("mine");
                reveal_strlit("swap");
                reveal_strlit("push");
                reveal_strlit("fx");
            }
            push_sq(g, &mut s, mv.from);
            push_char(&mut s, '!');
            let ghost s0 = s@;
            match mv.effect {
                Effect::Heal(_) => s.append("heal"),
                Effect::Wall => s.append("wall"),
                Effect::Pit => s.append("pit"),
                Effect::Laser => s.append("laser"),
                Effect::Resurrect => {
                    // The revived type's glyph disambiguates ("e2!rezT:d3").
                    s.append("rez");
                    if (mv.drop_type as usize) < g.types.len() {
                        push_char(&mut s, g.types[mv.drop_type as usize].glyph);
                    }
                },
                Effect::Hack => s.append("hack"),
                Effect::Mine => s.append("mine"),
                Effect::Swap => s.append("swap"),
                Effect::Push => s.append("push"),
                Effect::Custom(ci) => {
                    if (ci as usize) < g.custom_effects.len() {
                        s.append(g.custom_effects[ci as usize].id.as_str());
                    } else {
                        s.append("fx");
                    }
                },
                _ => s.append("fx"),
            }
            assert(s@ =~= s0 + spec_effect_label(*g, *mv));
            push_char(&mut s, ':');
            push_sq(g, &mut s, mv.to);
            if mv.aux != NO_SQ {
                push_char(&mut s, '>');
                push_sq(g, &mut s, mv.aux);
            }
            assert(s@ =~= spec_sq_name(*g, mv.from) + seq!['!'] + spec_effect_label(*g, *mv)
                + seq![':'] + spec_sq_name(*g, mv.to)
                + (if mv.aux != NO_SQ { seq!['>'] + spec_sq_name(*g, mv.aux) } else { Seq::empty() }));
        },
        MoveKind::Locust => {
            push_sq(g, &mut s, mv.from);
            push_sq(g, &mut s, mv.to);
            push_char(&mut s, 'x');
            push_sq(g, &mut s, mv.aux);
            assert(s@ =~= spec_sq_name(*g, mv.from) + spec_sq_name(*g, mv.to) + seq!['x'] + spec_sq_name(*g, mv.aux));
        },
        MoveKind::Compound => {
            push_sq(g, &mut s, mv.from);
            push_sq(g, &mut s, mv.to);
            push_char(&mut s, '+');
            push_sq(g, &mut s, mv.to);
            push_sq(g, &mut s, mv.aux);
            assert(s@ =~= spec_sq_name(*g, mv.from) + spec_sq_name(*g, mv.to) + seq!['+']
                + spec_sq_name(*g, mv.to) + spec_sq_name(*g, mv.aux));
        },
        _ => {
            push_sq(g, &mut s, mv.from);
            push_sq(g, &mut s, mv.to);
            match mv.promo {
                Some(t) => {
                    if (t as usize) < g.types.len() {
                        let c = lower(g.types[t as usize].glyph);
                        push_char(&mut s, c);
                    }
                },
                None => {},
            }
            assert(s@ =~= spec_sq_name(*g, mv.from) + spec_sq_name(*g, mv.to)
                + (match mv.promo {
                    Some(t) => if (t as int) < g.ntypes() { seq![spec_lower(g.types@[t as int].glyph)] } else { Seq::empty() },
                    None => Seq::empty(),
                }));
        },
    }
    if mv.kind == MoveKind::Drop && (mv.drop_type as usize) < g.types.len() {
        assert(s@ =~= seq![g.types@[mv.drop_type as int].glyph, '@'] + spec_sq_name(*g, mv.to));
    }
    if mv.kind == MoveKind::Drop {
        assert(s@ =~= spec_move_str(*g, *mv));
    }
    s
}

} // verus!
