//! The effects of weapons and chips in a fight on a plain grid.

use crate::number::Real;
use vstd::prelude::*;

verus! {

/// A characteristic that effects can change.
#[derive(Debug, Clone, Copy, PartialEq, Eq, Structural)]
pub enum Stat {
    Strength,
    Agility,
    Wisdom,
    Resistance,
    Science,
    Magic,
    Power,
    Mp,
    Tp,
}

/// What an effect does.
#[derive(Debug, Clone, Copy, PartialEq, Eq, Structural)]
pub enum EffectKind {
    /// Damage at once, by strength.
    Damage,
    /// Life at once, or every turn, by wisdom.
    Heal,
    /// A shield that takes off a number, by resistance.
    AbsoluteShield,
    /// A shield that takes off a share, by resistance.
    RelativeShield,
    /// More of a characteristic, by science.
    Buff(Stat),
    /// More of a characteristic, by nothing.
    RawBuff(Stat),
    RawAbsoluteShield,
    RawRelativeShield,
    RawHeal,
    /// Damage at once, measured by the life of the caster.
    LifeDamage,
    Kill,
    /// A share of damage that goes back, by agility.
    DamageReturn,
    /// An absolute shield as large as the effect before.
    StealAbsoluteShield,
    /// More total life without healing, by science.
    NovaVitality,
    /// A share of all effects goes, but of those that cannot be reduced.
    Debuff,
    /// A share of all effects goes.
    TotalDebuff,
    RemoveShackles,
    /// Damage every turn, by magic.
    Poison,
    /// Life every turn, by wisdom.
    Regeneration,
    /// Less total life, by science.
    Nova,
    /// Less of a characteristic, by magic.
    Shackle(Stat),
    /// A shield below zero.
    Vulnerability { absolute: bool },
    /// More total life and as much healing, by wisdom.
    Vitality,
    Antidote,
    Resurrect,
    /// An effect, by its number, that does nothing here.
    Unsupported(u8),
}

/// The kind of effect with a number.
pub open spec fn kind_of(id: u8) -> EffectKind {
    match id {
        1 => EffectKind::Damage,
        2 => EffectKind::Heal,
        3 => EffectKind::Buff(Stat::Strength),
        4 => EffectKind::Buff(Stat::Agility),
        5 => EffectKind::RelativeShield,
        6 => EffectKind::AbsoluteShield,
        7 => EffectKind::Buff(Stat::Mp),
        8 => EffectKind::Buff(Stat::Tp),
        9 => EffectKind::Debuff,
        12 => EffectKind::Vitality,
        13 => EffectKind::Poison,
        15 => EffectKind::Resurrect,
        16 => EffectKind::Kill,
        17 => EffectKind::Shackle(Stat::Mp),
        18 => EffectKind::Shackle(Stat::Tp),
        19 => EffectKind::Shackle(Stat::Strength),
        20 => EffectKind::DamageReturn,
        21 => EffectKind::Buff(Stat::Resistance),
        22 => EffectKind::Buff(Stat::Wisdom),
        23 => EffectKind::Antidote,
        24 => EffectKind::Shackle(Stat::Magic),
        26 => EffectKind::Vulnerability { absolute: false },
        27 => EffectKind::Vulnerability { absolute: true },
        28 => EffectKind::LifeDamage,
        29 => EffectKind::StealAbsoluteShield,
        30 => EffectKind::Nova,
        31 => EffectKind::RawBuff(Stat::Mp),
        32 => EffectKind::RawBuff(Stat::Tp),
        37 => EffectKind::RawAbsoluteShield,
        38 => EffectKind::RawBuff(Stat::Strength),
        39 => EffectKind::RawBuff(Stat::Magic),
        40 => EffectKind::RawBuff(Stat::Science),
        41 => EffectKind::RawBuff(Stat::Agility),
        42 => EffectKind::RawBuff(Stat::Resistance),
        44 => EffectKind::RawBuff(Stat::Wisdom),
        45 => EffectKind::NovaVitality,
        47 => EffectKind::Shackle(Stat::Agility),
        48 => EffectKind::Shackle(Stat::Wisdom),
        49 => EffectKind::RemoveShackles,
        52 => EffectKind::RawBuff(Stat::Power),
        54 => EffectKind::RawRelativeShield,
        57 => EffectKind::RawHeal,
        60 => EffectKind::TotalDebuff,
        _ => EffectKind::Unsupported(id),
    }
}

impl EffectKind {
    /// The kind of effect with a number.
    #[must_use]
    pub fn from_upstream(id: u8) -> (kind: Self)
        ensures
            kind == kind_of(id),
    {
        match id {
            1 => Self::Damage,
            2 => Self::Heal,
            3 => Self::Buff(Stat::Strength),
            4 => Self::Buff(Stat::Agility),
            5 => Self::RelativeShield,
            6 => Self::AbsoluteShield,
            7 => Self::Buff(Stat::Mp),
            8 => Self::Buff(Stat::Tp),
            9 => Self::Debuff,
            60 => Self::TotalDebuff,
            12 => Self::Vitality,
            13 => Self::Poison,
            15 => Self::Resurrect,
            16 => Self::Kill,
            17 => Self::Shackle(Stat::Mp),
            18 => Self::Shackle(Stat::Tp),
            19 => Self::Shackle(Stat::Strength),
            20 => Self::DamageReturn,
            21 => Self::Buff(Stat::Resistance),
            22 => Self::Buff(Stat::Wisdom),
            23 => Self::Antidote,
            24 => Self::Shackle(Stat::Magic),
            26 => Self::Vulnerability { absolute: false },
            27 => Self::Vulnerability { absolute: true },
            28 => Self::LifeDamage,
            29 => Self::StealAbsoluteShield,
            30 => Self::Nova,
            31 => Self::RawBuff(Stat::Mp),
            32 => Self::RawBuff(Stat::Tp),
            37 => Self::RawAbsoluteShield,
            38 => Self::RawBuff(Stat::Strength),
            39 => Self::RawBuff(Stat::Magic),
            40 => Self::RawBuff(Stat::Science),
            41 => Self::RawBuff(Stat::Agility),
            42 => Self::RawBuff(Stat::Resistance),
            44 => Self::RawBuff(Stat::Wisdom),
            45 => Self::NovaVitality,
            47 => Self::Shackle(Stat::Agility),
            48 => Self::Shackle(Stat::Wisdom),
            49 => Self::RemoveShackles,
            52 => Self::RawBuff(Stat::Power),
            54 => Self::RawRelativeShield,
            57 => Self::RawHeal,
            other => Self::Unsupported(other),
        }
    }
}

/// No two numbers stand for the same kind of effect.
pub proof fn lemma_kinds_differ(a: u8, b: u8)
    requires
        kind_of(a) == kind_of(b),
    ensures
        a == b,
{
}

/// Whom an effect reaches.
pub const TARGET_ENEMIES: u8 = 1;

pub const TARGET_ALLIES: u8 = 2;

pub const TARGET_CASTER: u8 = 4;

pub const TARGET_NON_SUMMONS: u8 = 8;

pub const TARGET_SUMMONS: u8 = 16;

/// Everybody.
pub const TARGET_ALL: u8 = 31;

/// A second effect of the same item does not replace the first.
pub const MODIFIER_STACKABLE: u8 = 1;

/// The value grows with the number of targets.
pub const MODIFIER_MULTIPLIED_BY_TARGETS: u8 = 2;

/// The effect falls on the caster.
pub const MODIFIER_ON_CASTER: u8 = 4;

/// The effect does not fall on whom the item already affects.
pub const MODIFIER_NOT_REPLACEABLE: u8 = 8;

/// The effect is not reduced with others.
pub const MODIFIER_IRREDUCTIBLE: u8 = 16;

/// Whether a flag is among the bits.
pub open spec fn has_flag(bits: u8, flag: u8) -> bool {
    bits & flag != 0
}

/// An effect of an item: the first value and a random part of the second, for
/// a number of turns.
#[derive(Debug, Clone, Copy)]
pub struct Effect {
    pub kind: EffectKind,
    pub value1: Real,
    pub value2: Real,
    pub turns: i64,
    pub targets: u8,
    pub modifiers: u8,
}

impl Effect {
    /// The values are those of doubles.
    pub open spec fn wf(self) -> bool {
        self.value1.within(1200) && self.value2.within(1200)
    }

    /// An effect that reaches everybody.
    #[must_use]
    pub fn new(kind: EffectKind, value1: Real, value2: Real, turns: i64) -> (e: Self)
        ensures
            e == (Effect { kind, value1, value2, turns, targets: TARGET_ALL, modifiers: 0 }),
    {
        Self { kind, value1, value2, turns, targets: TARGET_ALL, modifiers: 0 }
    }

    /// An effect by its number.
    #[must_use]
    pub fn from_upstream(
        id: u8,
        value1: Real,
        value2: Real,
        turns: i64,
        targets: u8,
        modifiers: u8,
    ) -> (e: Self)
        ensures
            e == (Effect { kind: kind_of(id), value1, value2, turns, targets, modifiers }),
    {
        Self { kind: EffectKind::from_upstream(id), value1, value2, turns, targets, modifiers }
    }
}

/// The numbers of the effects that do nothing here.
pub open spec fn unsupported_in(effects: Seq<Effect>) -> Seq<u8>
    decreases effects.len(),
{
    if effects.len() == 0 {
        Seq::empty()
    } else {
        match effects.last().kind {
            EffectKind::Unsupported(id) => unsupported_in(effects.drop_last()).push(id),
            _ => unsupported_in(effects.drop_last()),
        }
    }
}

/// The numbers of the effects that do nothing here.
#[must_use]
pub fn unsupported_ids(effects: &[Effect]) -> (ids: Vec<u8>)
    ensures
        ids@ == unsupported_in(effects@),
{
    let mut ids: Vec<u8> = Vec::new();
    let mut i: usize = 0;
    assert(effects@.take(0) =~= Seq::<Effect>::empty());
    while i < effects.len()
        invariant
            i <= effects@.len(),
            ids@ == unsupported_in(effects@.take(i as int)),
        decreases effects.len() - i,
    {
        assert(effects@.take(i + 1).drop_last() =~= effects@.take(i as int));
        if let EffectKind::Unsupported(id) = effects[i].kind {
            ids.push(id);
        }
        i += 1;
    }
    assert(effects@.take(i as int) =~= effects@);
    ids
}

/// An effect in force on an entity.
#[derive(Debug, Clone, Copy, PartialEq, Eq, Structural)]
pub struct ActiveEffect {
    pub kind: EffectKind,
    pub value: i64,
    pub turns: i64,
    /// The item that it comes from; 0 for none.
    pub item: i64,
    /// Who cast it; 0 for nobody.
    pub caster: i64,
    pub modifiers: u8,
}

impl ActiveEffect {
    /// An effect that comes from no item and nobody.
    #[must_use]
    pub fn injected(kind: EffectKind, value: i64, turns: i64) -> (e: Self)
        ensures
            e == (ActiveEffect { kind, value, turns, item: 0, caster: 0, modifiers: 0 }),
    {
        Self { kind, value, turns, item: 0, caster: 0, modifiers: 0 }
    }
}

} // verus!
