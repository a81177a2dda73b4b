//! What attacks are made of: the kinds of effects, the states they put on
//! fighters, who they may hit, and the areas they cover.

use crate::mask::{
    generate_circle_mask, generate_plus_mask, generate_square_mask, generate_x_mask,
};
use crate::number::Real;
use vstd::prelude::*;

verus! {

/// The kinds of effects.
#[derive(Debug, Clone, Copy, PartialEq, Eq, Structural)]
pub enum EffectType {
    Damage,
    Heal,
    BuffStrength,
    BuffAgility,
    RelativeShield,
    AbsoluteShield,
    BuffMp,
    BuffTp,
    Debuff,
    Teleport,
    Permutation,
    Vitality,
    Poison,
    Summon,
    Resurrect,
    Kill,
    ShackleMp,
    ShackleTp,
    ShackleStrength,
    DamageReturn,
    BuffResistance,
    BuffWisdom,
    Antidote,
    ShackleMagic,
    Aftereffect,
    Vulnerability,
    AbsoluteVulnerability,
    LifeDamage,
    StealAbsoluteShield,
    NovaDamage,
    RawBuffMp,
    RawBuffTp,
    PoisonToScience,
    DamageToAbsoluteShield,
    DamageToStrength,
    NovaDamageToMagic,
    RawAbsoluteShield,
    RawBuffStrength,
    RawBuffMagic,
    RawBuffScience,
    RawBuffAgility,
    RawBuffResistance,
    Propagation,
    RawBuffWisdom,
    NovaVitality,
    Attract,
    ShackleAgility,
    ShackleWisdom,
    RemoveShackles,
    MovedToMp,
    Push,
    RawBuffPower,
    Repel,
    RawRelativeShield,
    AllyKilledToAgility,
    KillToTp,
    RawHeal,
    CriticalToHeal,
    AddState,
    TotalDebuff,
    StealLife,
    MultiplyStats,
}

impl EffectType {
    /// The number of a kind, counted from 1.
    pub open spec fn number(self) -> int {
        match self {
            EffectType::Damage => 1,
            EffectType::Heal => 2,
            EffectType::BuffStrength => 3,
            EffectType::BuffAgility => 4,
            EffectType::RelativeShield => 5,
            EffectType::AbsoluteShield => 6,
            EffectType::BuffMp => 7,
            EffectType::BuffTp => 8,
            EffectType::Debuff => 9,
            EffectType::Teleport => 10,
            EffectType::Permutation => 11,
            EffectType::Vitality => 12,
            EffectType::Poison => 13,
            EffectType::Summon => 14,
            EffectType::Resurrect => 15,
            EffectType::Kill => 16,
            EffectType::ShackleMp => 17,
            EffectType::ShackleTp => 18,
            EffectType::ShackleStrength => 19,
            EffectType::DamageReturn => 20,
            EffectType::BuffResistance => 21,
            EffectType::BuffWisdom => 22,
            EffectType::Antidote => 23,
            EffectType::ShackleMagic => 24,
            EffectType::Aftereffect => 25,
            EffectType::Vulnerability => 26,
            EffectType::AbsoluteVulnerability => 27,
            EffectType::LifeDamage => 28,
            EffectType::StealAbsoluteShield => 29,
            EffectType::NovaDamage => 30,
            EffectType::RawBuffMp => 31,
            EffectType::RawBuffTp => 32,
            EffectType::PoisonToScience => 33,
            EffectType::DamageToAbsoluteShield => 34,
            EffectType::DamageToStrength => 35,
            EffectType::NovaDamageToMagic => 36,
            EffectType::RawAbsoluteShield => 37,
            EffectType::RawBuffStrength => 38,
            EffectType::RawBuffMagic => 39,
            EffectType::RawBuffScience => 40,
            EffectType::RawBuffAgility => 41,
            EffectType::RawBuffResistance => 42,
            EffectType::Propagation => 43,
            EffectType::RawBuffWisdom => 44,
            EffectType::NovaVitality => 45,
            EffectType::Attract => 46,
            EffectType::ShackleAgility => 47,
            EffectType::ShackleWisdom => 48,
            EffectType::RemoveShackles => 49,
            EffectType::MovedToMp => 50,
            EffectType::Push => 51,
            EffectType::RawBuffPower => 52,
            EffectType::Repel => 53,
            EffectType::RawRelativeShield => 54,
            EffectType::AllyKilledToAgility => 55,
            EffectType::KillToTp => 56,
            EffectType::RawHeal => 57,
            EffectType::CriticalToHeal => 58,
            EffectType::AddState => 59,
            EffectType::TotalDebuff => 60,
            EffectType::StealLife => 61,
            EffectType::MultiplyStats => 62,
        }
    }

    /// The number of the kind.
    #[must_use]
    pub fn id(self) -> (id: i32)
        ensures
            id == self.number(),
    {
        match self {
            EffectType::Damage => 1,
            EffectType::Heal => 2,
            EffectType::BuffStrength => 3,
            EffectType::BuffAgility => 4,
            EffectType::RelativeShield => 5,
            EffectType::AbsoluteShield => 6,
            EffectType::BuffMp => 7,
            EffectType::BuffTp => 8,
            EffectType::Debuff => 9,
            EffectType::Teleport => 10,
            EffectType::Permutation => 11,
            EffectType::Vitality => 12,
            EffectType::Poison => 13,
            EffectType::Summon => 14,
            EffectType::Resurrect => 15,
            EffectType::Kill => 16,
            EffectType::ShackleMp => 17,
            EffectType::ShackleTp => 18,
            EffectType::ShackleStrength => 19,
            EffectType::DamageReturn => 20,
            EffectType::BuffResistance => 21,
            EffectType::BuffWisdom => 22,
            EffectType::Antidote => 23,
            EffectType::ShackleMagic => 24,
            EffectType::Aftereffect => 25,
            EffectType::Vulnerability => 26,
            EffectType::AbsoluteVulnerability => 27,
            EffectType::LifeDamage => 28,
            EffectType::StealAbsoluteShield => 29,
            EffectType::NovaDamage => 30,
            EffectType::RawBuffMp => 31,
            EffectType::RawBuffTp => 32,
            EffectType::PoisonToScience => 33,
            EffectType::DamageToAbsoluteShield => 34,
            EffectType::DamageToStrength => 35,
            EffectType::NovaDamageToMagic => 36,
            EffectType::RawAbsoluteShield => 37,
            EffectType::RawBuffStrength => 38,
            EffectType::RawBuffMagic => 39,
            EffectType::RawBuffScience => 40,
            EffectType::RawBuffAgility => 41,
            EffectType::RawBuffResistance => 42,
            EffectType::Propagation => 43,
            EffectType::RawBuffWisdom => 44,
            EffectType::NovaVitality => 45,
            EffectType::Attract => 46,
            EffectType::ShackleAgility => 47,
            EffectType::ShackleWisdom => 48,
            EffectType::RemoveShackles => 49,
            EffectType::MovedToMp => 50,
            EffectType::Push => 51,
            EffectType::RawBuffPower => 52,
            EffectType::Repel => 53,
            EffectType::RawRelativeShield => 54,
            EffectType::AllyKilledToAgility => 55,
            EffectType::KillToTp => 56,
            EffectType::RawHeal => 57,
            EffectType::CriticalToHeal => 58,
            EffectType::AddState => 59,
            EffectType::TotalDebuff => 60,
            EffectType::StealLife => 61,
            EffectType::MultiplyStats => 62,
        }
    }

    /// The kind with the given number.
    #[must_use]
    pub fn from_id(id: i32) -> (kind: Option<Self>)
        ensures
            kind is Some <==> 1 <= id <= 62,
            kind matches Some(k) ==> k.number() == id,
    {
        Some(
            match id {
                1 => EffectType::Damage,
                2 => EffectType::Heal,
                3 => EffectType::BuffStrength,
                4 => EffectType::BuffAgility,
                5 => EffectType::RelativeShield,
                6 => EffectType::AbsoluteShield,
                7 => EffectType::BuffMp,
                8 => EffectType::BuffTp,
                9 => EffectType::Debuff,
                10 => EffectType::Teleport,
                11 => EffectType::Permutation,
                12 => EffectType::Vitality,
                13 => EffectType::Poison,
                14 => EffectType::Summon,
                15 => EffectType::Resurrect,
                16 => EffectType::Kill,
                17 => EffectType::ShackleMp,
                18 => EffectType::ShackleTp,
                19 => EffectType::ShackleStrength,
                20 => EffectType::DamageReturn,
                21 => EffectType::BuffResistance,
                22 => EffectType::BuffWisdom,
                23 => EffectType::Antidote,
                24 => EffectType::ShackleMagic,
                25 => EffectType::Aftereffect,
                26 => EffectType::Vulnerability,
                27 => EffectType::AbsoluteVulnerability,
                28 => EffectType::LifeDamage,
                29 => EffectType::StealAbsoluteShield,
                30 => EffectType::NovaDamage,
                31 => EffectType::RawBuffMp,
                32 => EffectType::RawBuffTp,
                33 => EffectType::PoisonToScience,
                34 => EffectType::DamageToAbsoluteShield,
                35 => EffectType::DamageToStrength,
                36 => EffectType::NovaDamageToMagic,
                37 => EffectType::RawAbsoluteShield,
                38 => EffectType::RawBuffStrength,
                39 => EffectType::RawBuffMagic,
                40 => EffectType::RawBuffScience,
                41 => EffectType::RawBuffAgility,
                42 => EffectType::RawBuffResistance,
                43 => EffectType::Propagation,
                44 => EffectType::RawBuffWisdom,
                45 => EffectType::NovaVitality,
                46 => EffectType::Attract,
                47 => EffectType::ShackleAgility,
                48 => EffectType::ShackleWisdom,
                49 => EffectType::RemoveShackles,
                50 => EffectType::MovedToMp,
                51 => EffectType::Push,
                52 => EffectType::RawBuffPower,
                53 => EffectType::Repel,
                54 => EffectType::RawRelativeShield,
                55 => EffectType::AllyKilledToAgility,
                56 => EffectType::KillToTp,
                57 => EffectType::RawHeal,
                58 => EffectType::CriticalToHeal,
                59 => EffectType::AddState,
                60 => EffectType::TotalDebuff,
                61 => EffectType::StealLife,
                62 => EffectType::MultiplyStats,
                _ => {
                    return None;
                },
            },
        )
    }

    /// Whether attacks know what the effect does.
    pub open spec fn modelled(self) -> bool {
        !(self is PoisonToScience || self is DamageToAbsoluteShield || self is DamageToStrength
            || self is NovaDamageToMagic || self is MovedToMp || self is KillToTp
            || self is CriticalToHeal)
    }

    /// Whether the effect is one that strikes a fighter. Summoning and
    /// resurrecting are uses of their own, and an attack teleports and spreads
    /// without striking anybody.
    pub open spec fn strikes(self) -> bool {
        self.modelled() && !(self is Summon || self is Resurrect || self is Teleport
            || self is Propagation)
    }

    /// Whether attacks know what the effect does.
    #[must_use]
    pub fn is_modelled(self) -> (b: bool)
        ensures
            b == self.modelled(),
    {
        !matches!(
            self,
            EffectType::PoisonToScience | EffectType::DamageToAbsoluteShield
                | EffectType::DamageToStrength | EffectType::NovaDamageToMagic
                | EffectType::MovedToMp | EffectType::KillToTp | EffectType::CriticalToHeal
        )
    }

    /// Whether the effect holds a fighter back: one of the shackles.
    pub open spec fn shackles(self) -> bool {
        self is ShackleTp || self is ShackleMp || self is ShackleAgility || self is ShackleMagic
            || self is ShackleStrength || self is ShackleWisdom
    }

    /// Whether the effect is one of the shackles.
    pub(crate) fn is_shackle(self) -> (b: bool)
        ensures
            b == self.shackles(),
    {
        matches!(
            self,
            EffectType::ShackleTp | EffectType::ShackleMp | EffectType::ShackleAgility
                | EffectType::ShackleMagic | EffectType::ShackleStrength
                | EffectType::ShackleWisdom
        )
    }
}

/// No two kinds of effects share a number.
pub proof fn lemma_effect_numbers_unique(a: EffectType, b: EffectType)
    requires
        a.number() == b.number(),
    ensures
        a == b,
{
}

/// The states that an effect can pin on a fighter.
#[derive(Debug, Clone, Copy, PartialEq, Eq, Structural)]
pub enum EntityState {
    NoState,
    Resurrected,
    Unhealable,
    Invincible,
    Pacifist,
    Heavy,
    Dense,
    Magnetized,
    Chained,
    Rooted,
    Petrified,
    Static,
}

impl EntityState {
    /// The position of a state in the list of states.
    pub open spec fn ordinal(self) -> int {
        match self {
            EntityState::NoState => 0,
            EntityState::Resurrected => 1,
            EntityState::Unhealable => 2,
            EntityState::Invincible => 3,
            EntityState::Pacifist => 4,
            EntityState::Heavy => 5,
            EntityState::Dense => 6,
            EntityState::Magnetized => 7,
            EntityState::Chained => 8,
            EntityState::Rooted => 9,
            EntityState::Petrified => 10,
            EntityState::Static => 11,
        }
    }

    /// The state at a position of the list of states.
    #[must_use]
    pub fn from_ordinal(ordinal: i32) -> (state: Self)
        requires
            0 <= ordinal <= 11,
        ensures
            state.ordinal() == ordinal,
    {
        match ordinal {
            0 => EntityState::NoState,
            1 => EntityState::Resurrected,
            2 => EntityState::Unhealable,
            3 => EntityState::Invincible,
            4 => EntityState::Pacifist,
            5 => EntityState::Heavy,
            6 => EntityState::Dense,
            7 => EntityState::Magnetized,
            8 => EntityState::Chained,
            9 => EntityState::Rooted,
            10 => EntityState::Petrified,
            _ => EntityState::Static,
        }
    }
}

/// The state at a position of the list of states.
pub open spec fn state_at(ordinal: int) -> EntityState {
    choose|s: EntityState| s.ordinal() == ordinal
}

/// No two states share a position.
pub proof fn lemma_ordinals_unique(a: EntityState, b: EntityState)
    requires
        a.ordinal() == b.ordinal(),
    ensures
        a == b,
{
}

/// The opponents of the caster.
pub const TARGET_ENEMIES: i32 = 1;

/// The fighters of the caster's team.
pub const TARGET_ALLIES: i32 = 2;

/// The caster.
pub const TARGET_CASTER: i32 = 4;

/// The fighters that nobody summoned.
pub const TARGET_NON_SUMMONS: i32 = 8;

/// The fighters that were summoned.
pub const TARGET_SUMMONS: i32 = 16;

/// The effect may stand on a fighter more than once.
pub const MODIFIER_STACKABLE: i32 = 1;

/// The value is multiplied by the number of fighters hit.
pub const MODIFIER_MULTIPLIED_BY_TARGETS: i32 = 2;

/// The effect goes to the caster, whoever is hit.
pub const MODIFIER_ON_CASTER: i32 = 4;

/// An effect of the same item is not replaced.
pub const MODIFIER_NOT_REPLACEABLE: i32 = 8;

/// The effect cannot be reduced.
pub const MODIFIER_IRREDUCTIBLE: i32 = 16;

/// The low five bits, all that have a meaning.
const KNOWN_BITS: i32 = 31;

/// Whether every bit of `flag` is set in `bits`.
pub open spec fn holds(bits: i32, flag: i32) -> bool {
    bits & flag == flag
}

/// Who an effect may hit.
#[derive(Debug, Clone, Copy, PartialEq, Eq, Structural)]
pub struct EffectTargets {
    bits: i32,
}

impl View for EffectTargets {
    type V = i32;

    closed spec fn view(&self) -> i32 {
        self.bits
    }
}

impl EffectTargets {
    /// No bit set.
    #[must_use]
    pub fn empty() -> (s: Self)
        ensures
            s@ == 0,
    {
        EffectTargets { bits: 0 }
    }

    /// Every bit set that has a meaning.
    #[must_use]
    pub fn all() -> (s: Self)
        ensures
            s@ == 31,
    {
        EffectTargets { bits: KNOWN_BITS }
    }

    /// The given bits, without those that have no meaning.
    #[must_use]
    pub fn from_bits_truncate(bits: i32) -> (s: Self)
        ensures
            s@ == bits & 31,
            0 <= s@ <= 31,
            0 <= bits <= 31 ==> s@ == bits,
    {
        assert(0 <= (bits & 31) <= 31) by (bit_vector);
        assert(0 <= bits <= 31 ==> bits & 31 == bits) by (bit_vector);
        EffectTargets { bits: bits & KNOWN_BITS }
    }

    /// The bits.
    #[must_use]
    pub fn bits(self) -> (bits: i32)
        ensures
            bits == self@,
    {
        self.bits
    }

    /// Whether the bits of a flag are set.
    #[must_use]
    pub fn contains(self, flag: i32) -> (b: bool)
        ensures
            b == holds(self@, flag),
    {
        self.bits & flag == flag
    }
}

/// How an effect applies.
#[derive(Debug, Clone, Copy, PartialEq, Eq, Structural)]
pub struct EffectModifiers {
    bits: i32,
}

impl View for EffectModifiers {
    type V = i32;

    closed spec fn view(&self) -> i32 {
        self.bits
    }
}

impl EffectModifiers {
    /// No bit set.
    #[must_use]
    pub fn empty() -> (s: Self)
        ensures
            s@ == 0,
    {
        EffectModifiers { bits: 0 }
    }

    /// Every bit set that has a meaning.
    #[must_use]
    pub fn all() -> (s: Self)
        ensures
            s@ == 31,
    {
        EffectModifiers { bits: KNOWN_BITS }
    }

    /// The given bits, without those that have no meaning.
    #[must_use]
    pub fn from_bits_truncate(bits: i32) -> (s: Self)
        ensures
            s@ == bits & 31,
            0 <= s@ <= 31,
            0 <= bits <= 31 ==> s@ == bits,
    {
        assert(0 <= (bits & 31) <= 31) by (bit_vector);
        assert(0 <= bits <= 31 ==> bits & 31 == bits) by (bit_vector);
        EffectModifiers { bits: bits & KNOWN_BITS }
    }

    /// The bits.
    #[must_use]
    pub fn bits(self) -> (bits: i32)
        ensures
            bits == self@,
    {
        self.bits
    }

    /// Whether the bits of a flag are set.
    #[must_use]
    pub fn contains(self, flag: i32) -> (b: bool)
        ensures
            b == holds(self@, flag),
    {
        self.bits & flag == flag
    }
}

/// One effect of an attack, as the item describes it.
#[derive(Debug, Clone, Copy, PartialEq, Eq, Structural)]
pub struct EffectParams {
    pub effect: EffectType,
    pub value1: Real,
    pub value2: Real,
    pub turns: i32,
    pub targets: EffectTargets,
    pub modifiers: EffectModifiers,
}

impl EffectParams {
    /// The values are finite doubles.
    pub open spec fn wf(self) -> bool {
        self.value1.within(1200) && self.value2.within(1200)
    }

    /// The first value without its fraction.
    pub open spec fn whole(self) -> int {
        crate::rng::saturate32(self.value1.spec_trunc())
    }

    /// Whether it is known what the effect does to a fighter: it is one that
    /// strikes, and one that pins a state names a state.
    pub open spec fn castable(self) -> bool {
        self.effect.strikes() && (self.effect is AddState ==> 0 <= self.whole() <= 11)
    }

    /// Whether it is known what the effect does to a fighter.
    #[must_use]
    pub fn is_castable(&self) -> (b: bool)
        requires
            self.wf(),
        ensures
            b == self.castable(),
    {
        let whole: i32 = self.value1.trunc_i32();
        match self.effect {
            EffectType::Summon
            | EffectType::Resurrect
            | EffectType::Teleport
            | EffectType::Propagation => false,
            EffectType::AddState => 0 <= whole && whole <= 11,
            _ => self.effect.is_modelled(),
        }
    }
}

/// The two kinds of items that carry an attack.
#[derive(Debug, Clone, Copy, PartialEq, Eq, Structural)]
pub enum AttackType {
    Weapon,
    Chip,
}

impl AttackType {
    /// The kind as the journal numbers it.
    pub open spec fn number(self) -> int {
        match self {
            AttackType::Weapon => crate::actions::ATTACK_TYPE_WEAPON as int,
            AttackType::Chip => crate::actions::ATTACK_TYPE_CHIP as int,
        }
    }

    /// The kind as the journal numbers it.
    #[must_use]
    pub fn action_type(self) -> (t: i64)
        ensures
            t == self.number(),
    {
        match self {
            AttackType::Weapon => crate::actions::ATTACK_TYPE_WEAPON,
            AttackType::Chip => crate::actions::ATTACK_TYPE_CHIP,
        }
    }
}

/// The areas that an attack can cover.
#[derive(Debug, Clone, Copy, PartialEq, Eq, Structural)]
pub enum Area {
    SingleCell,
    LaserLine,
    Circle1,
    Circle2,
    Circle3,
    Plus2,
    Plus3,
    X1,
    X2,
    X3,
    Square1,
    Square2,
    FirstInLine,
    Enemies,
    Allies,
}

impl Area {
    /// The number of an area, counted from 1.
    pub open spec fn number(self) -> int {
        match self {
            Area::SingleCell => 1,
            Area::LaserLine => 2,
            Area::Circle1 => 3,
            Area::Circle2 => 4,
            Area::Circle3 => 5,
            Area::Plus2 => 6,
            Area::Plus3 => 7,
            Area::X1 => 8,
            Area::X2 => 9,
            Area::X3 => 10,
            Area::Square1 => 11,
            Area::Square2 => 12,
            Area::FirstInLine => 13,
            Area::Enemies => 14,
            Area::Allies => 15,
        }
    }

    /// The number of the area.
    #[must_use]
    pub fn id(self) -> (id: i32)
        ensures
            id == self.number(),
    {
        match self {
            Area::SingleCell => 1,
            Area::LaserLine => 2,
            Area::Circle1 => 3,
            Area::Circle2 => 4,
            Area::Circle3 => 5,
            Area::Plus2 => 6,
            Area::Plus3 => 7,
            Area::X1 => 8,
            Area::X2 => 9,
            Area::X3 => 10,
            Area::Square1 => 11,
            Area::Square2 => 12,
            Area::FirstInLine => 13,
            Area::Enemies => 14,
            Area::Allies => 15,
        }
    }

    /// The area with the given number.
    #[must_use]
    pub fn from_id(id: i32) -> (area: Option<Self>)
        ensures
            area is Some <==> 1 <= id <= 15,
            area matches Some(a) ==> a.number() == id,
    {
        Some(
            match id {
                1 => Area::SingleCell,
                2 => Area::LaserLine,
                3 => Area::Circle1,
                4 => Area::Circle2,
                5 => Area::Circle3,
                6 => Area::Plus2,
                7 => Area::Plus3,
                8 => Area::X1,
                9 => Area::X2,
                10 => Area::X3,
                11 => Area::Square1,
                12 => Area::Square2,
                13 => Area::FirstInLine,
                14 => Area::Enemies,
                15 => Area::Allies,
                _ => {
                    return None;
                },
            },
        )
    }

    /// Whether the power of the attack falls with the distance.
    pub open spec fn fades(self) -> bool {
        !(self is LaserLine || self is FirstInLine || self is Allies || self is Enemies)
    }

    /// Whether the power of the attack falls with the distance.
    #[must_use]
    pub fn attenuates(self) -> (b: bool)
        ensures
            b == self.fades(),
    {
        !matches!(self, Area::LaserLine | Area::FirstInLine | Area::Allies | Area::Enemies)
    }

    /// Where the area lies around its centre, in the order in which the cells
    /// are struck; nothing for an area that is no fixed shape.
    pub open spec fn shape(self) -> Option<Seq<(int, int)>> {
        match self {
            Area::Circle1 => Some(crate::mask::circle(0, 1)),
            Area::Circle2 => Some(crate::mask::circle(0, 2)),
            Area::Circle3 => Some(crate::mask::circle(0, 3)),
            Area::Plus2 => Some(crate::mask::plus(2)),
            Area::Plus3 => Some(crate::mask::plus(3)),
            Area::X1 => Some(crate::mask::cross(1)),
            Area::X2 => Some(crate::mask::cross(2)),
            Area::X3 => Some(crate::mask::cross(3)),
            Area::Square1 => Some(crate::mask::square(1)),
            Area::Square2 => Some(crate::mask::square(2)),
            _ => None,
        }
    }

    /// The cells of the area around its centre.
    #[must_use]
    pub fn mask(self) -> (mask: Option<Vec<[i32; 2]>>)
        ensures
            mask is Some <==> self.shape() is Some,
            mask matches Some(m) ==> crate::mask::offsets(m@) == self.shape().unwrap(),
    {
        proof {
            assert((1 + 2 * 1int) * (1 + 2 * 1int) == 9) by (nonlinear_arith);
            assert((1 + 2 * 2int) * (1 + 2 * 2int) == 25) by (nonlinear_arith);
        }
        match self {
            Area::Circle1 => generate_circle_mask(0, 1),
            Area::Circle2 => generate_circle_mask(0, 2),
            Area::Circle3 => generate_circle_mask(0, 3),
            Area::Plus2 => Some(generate_plus_mask(2)),
            Area::Plus3 => Some(generate_plus_mask(3)),
            Area::X1 => Some(generate_x_mask(1)),
            Area::X2 => Some(generate_x_mask(2)),
            Area::X3 => Some(generate_x_mask(3)),
            Area::Square1 => Some(generate_square_mask(1)),
            Area::Square2 => Some(generate_square_mask(2)),
            _ => None,
        }
    }
}

/// No two areas share a number.
pub proof fn lemma_area_numbers_unique(a: Area, b: Area)
    requires
        a.number() == b.number(),
    ensures
        a == b,
{
}

/// What the areas of a fixed shape cover: a circle the cells within so many
/// steps, a plus those of them along the axes, a cross the cells along the
/// diagonals, a square every cell up to so many rows and columns away. The
/// other areas have no fixed shape.
pub proof fn lemma_area_cells(a: Area, x: int, y: int)
    ensures
        a.shape() matches Some(cells) ==> (cells.contains((x, y)) <==> {
            let w = crate::map::abs(x);
            let h = crate::map::abs(y);
            ||| a is Circle1 && w + h <= 1
            ||| a is Circle2 && w + h <= 2
            ||| a is Circle3 && w + h <= 3
            ||| a is Plus2 && (w == 0 || h == 0) && w + h <= 2
            ||| a is Plus3 && (w == 0 || h == 0) && w + h <= 3
            ||| a is X1 && w == h && w <= 1
            ||| a is X2 && w == h && w <= 2
            ||| a is X3 && w == h && w <= 3
            ||| a is Square1 && w <= 1 && h <= 1
            ||| a is Square2 && w <= 2 && h <= 2
        }),
        a.shape() is Some <==> a is Circle1 || a is Circle2 || a is Circle3 || a is Plus2
            || a is Plus3 || a is X1 || a is X2 || a is X3 || a is Square1 || a is Square2,
{
    let o = (x, y);
    crate::mask::lemma_circle_exact(0, 1, o);
    crate::mask::lemma_circle_exact(0, 2, o);
    crate::mask::lemma_circle_exact(0, 3, o);
    crate::mask::lemma_plus_exact(2, o);
    crate::mask::lemma_plus_exact(3, o);
    crate::mask::lemma_cross_exact(1, o);
    crate::mask::lemma_cross_exact(2, o);
    crate::mask::lemma_cross_exact(3, o);
    crate::mask::lemma_square_exact(1);
    crate::mask::lemma_square_exact(2);
}

} // verus!
