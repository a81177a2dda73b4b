//! The use of weapons and chips on a plain grid.

use crate::effects::{
    ActiveEffect, Effect, EffectKind, Stat, MODIFIER_MULTIPLIED_BY_TARGETS,
    MODIFIER_NOT_REPLACEABLE, MODIFIER_ON_CASTER, TARGET_ALLIES, TARGET_CASTER, TARGET_ENEMIES,
    TARGET_NON_SUMMONS,
};
use crate::entity::{max_of, min_of, EntityView};
use crate::fight::{Fight, FightView};
use crate::number::Real;
use vstd::prelude::*;

verus! {

pub const USE_SUCCESS: i64 = 1;

pub const USE_CRITICAL: i64 = 2;

pub const USE_FAILED: i64 = 0;

pub const USE_INVALID_TARGET: i64 = -1;

pub const USE_NOT_ENOUGH_TP: i64 = -2;

pub const USE_INVALID_POSITION: i64 = -3;

pub const USE_TOO_MANY_USES: i64 = -4;

/// A wait that no fight outlasts.
pub const FOREVER: i64 = 0x3fff_ffff_ffff_ffff;

/// The rules for the use of an item.
#[derive(Debug, Clone, Copy)]
pub struct UseSpec {
    pub item: i64,
    pub cost: i64,
    pub min_range: i64,
    pub max_range: i64,
    pub area: i64,
    pub los: bool,
    pub cooldown: i64,
    pub max_uses: i64,
}

/// One effect of an item on its way from the caster to a target.
#[derive(Clone, Copy)]
pub struct Shot {
    pub caster: i64,
    pub target: i64,
    pub effect: Effect,
    pub item: i64,
    pub critical: bool,
    /// What the effect before came to.
    pub previous: i64,
    /// How many targets the effect has.
    pub count: i64,
}

/// A number, or 0.
pub open spec fn or_none(v: Option<i64>) -> i64 {
    match v {
        Some(n) => n,
        None => 0,
    }
}

/// A number, or 0.
fn or_zero(v: Option<i64>) -> (n: i64)
    ensures
        n == or_none(v),
{
    match v {
        Some(n) => n,
        None => 0,
    }
}

impl FightView {
    /// One random number later.
    pub open spec fn rolled(self) -> FightView {
        FightView { rng: stirred_rng(self), ..self }
    }

    /// The random part of 1 that the next roll gives.
    pub open spec fn jet(self) -> Real {
        crate::might::part_of_one(stirred_rng(self))
    }

    pub open spec fn with_damage(self, id: i64, amount: i64) -> FightView {
        match self.entity(id) {
            Some(e) => self.changed(id, e.damaged(amount)),
            None => self,
        }
    }

    pub open spec fn damage_dealt(self, id: i64, amount: i64) -> i64 {
        match self.entity(id) {
            Some(e) => e.dealt(amount),
            None => 0,
        }
    }

    pub open spec fn with_wear(self, id: i64, amount: i64) -> FightView {
        match self.entity(id) {
            Some(e) => self.changed(id, e.worn(amount)),
            None => self,
        }
    }

    pub open spec fn with_healing(self, id: i64, amount: i64) -> FightView {
        match self.entity(id) {
            Some(e) => self.changed(id, e.healed(amount)),
            None => self,
        }
    }

    pub open spec fn with_vitality(self, id: i64, amount: i64) -> FightView {
        match self.entity(id) {
            Some(e) => self.changed(id, e.vitalized(amount)),
            None => self,
        }
    }

    pub open spec fn with_total(self, id: i64, amount: i64) -> FightView {
        match self.entity(id) {
            Some(e) => self.changed(id, e.raised(amount)),
            None => self,
        }
    }

    pub open spec fn with_effect(self, id: i64, effect: ActiveEffect) -> FightView {
        match self.entity(id) {
            Some(e) => self.changed(id, e.affected(effect)),
            None => self,
        }
    }

    pub open spec fn with_effects_lessened(self, id: i64, share: i64, total: bool) -> FightView {
        match self.entity(id) {
            Some(e) => self.changed(id, e.effects_lessened(share, total)),
            None => self,
        }
    }

    pub open spec fn with_shackles_gone(self, id: i64) -> FightView {
        match self.entity(id) {
            Some(e) => self.changed(id, e.unshackled()),
            None => self,
        }
    }

    pub open spec fn with_poison_gone(self, id: i64) -> FightView {
        match self.entity(id) {
            Some(e) => self.changed(
                id,
                EntityView {
                    effects: crate::entity::without_kind(e.effects, EffectKind::Poison),
                    ..e
                },
            ),
            None => self,
        }
    }

    pub open spec fn with_revival(self, id: i64, life: i64) -> FightView {
        match self.entity(id) {
            Some(e) => self.changed(id, e.revived(life)),
            None => self,
        }
    }

    pub open spec fn life_of(self, id: i64) -> i64 {
        match self.entity(id) {
            Some(e) => e.life,
            None => 0,
        }
    }

    pub open spec fn total_of(self, id: i64) -> i64 {
        match self.entity(id) {
            Some(e) => e.max_life,
            None => 0,
        }
    }

    /// Damage passes the shields, wears off total life, gives the caster life
    /// where it does, and goes back in part.
    #[verifier::opaque]
    pub open spec fn shot_damage(self, s: Shot, d: Real, steals: bool) -> FightView {
        let back = if s.caster == s.target {
            0
        } else {
            crate::might::sent_back(d, or_none(self.damage_return(s.target)))
        };
        let amount = crate::might::passed(
            d,
            self.relative_shield(s.target),
            self.absolute_shield(s.target),
        ) as i64;
        let dealt = self.damage_dealt(s.target, amount);
        let hurt = self.with_damage(s.target, amount).with_wear(
            s.target,
            crate::might::worn_off(dealt, false, s.critical) as i64,
        );
        let fed = if steals && s.caster != s.target {
            hurt.with_healing(
                s.caster,
                crate::might::taken_over(dealt, or_none(hurt.stat(s.caster, Stat::Wisdom))) as i64,
            )
        } else {
            hurt
        };
        if back > 0 {
            let dealt_back = fed.damage_dealt(s.caster, back as i64);
            fed.with_damage(s.caster, back as i64).with_wear(
                s.caster,
                crate::might::worn_off(dealt_back, false, s.critical) as i64,
            )
        } else {
            fed
        }
    }

    /// How much damage reaches the target.
    #[verifier::opaque]
    pub open spec fn shot_value(self, s: Shot, d: Real) -> i64 {
        self.damage_dealt(
            s.target,
            crate::might::passed(
                d,
                self.relative_shield(s.target),
                self.absolute_shield(s.target),
            ) as i64,
        )
    }

    /// What an effect comes to when it grows with a characteristic of the
    /// caster.
    pub open spec fn grown_value(self, s: Shot, base: Real, stat: Stat) -> i64 {
        crate::might::rounded(
            crate::might::grown(base, or_none(self.stat(s.caster, stat)), s.critical),
        ) as i64
    }

    /// Direct damage before any shield.
    pub open spec fn strength_damage(self, s: Shot, base: Real) -> Real {
        crate::might::times(
            crate::might::powered(
                crate::might::grown(
                    base,
                    or_none(self.stat(s.caster, Stat::Strength)),
                    s.critical,
                ),
                or_none(self.stat(s.caster, Stat::Power)),
            ),
            s.count,
        )
    }

    /// Damage measured by the life of the caster, before any shield.
    pub open spec fn life_damage(self, s: Shot, base: Real) -> Real {
        crate::might::powered(
            crate::might::plain(
                crate::might::life_part(base, self.life_of(s.caster)),
                s.critical,
            ),
            or_none(self.stat(s.caster, Stat::Power)),
        )
    }

    /// What an effect comes to.
    pub open spec fn effect_value(self, s: Shot, base: Real) -> i64 {
        match s.effect.kind {
            EffectKind::Damage => self.shot_value(s, self.strength_damage(s, base)),
            EffectKind::LifeDamage => self.shot_value(s, self.life_damage(s, base)),
            EffectKind::Kill => self.damage_dealt(s.target, self.life_of(s.target)),
            EffectKind::Heal => crate::might::rounded(
                crate::might::times(
                    crate::might::grown(
                        base,
                        or_none(self.stat(s.caster, Stat::Wisdom)),
                        s.critical,
                    ),
                    s.count,
                ),
            ) as i64,
            EffectKind::AbsoluteShield | EffectKind::RelativeShield => self.grown_value(
                s,
                base,
                Stat::Resistance,
            ),
            EffectKind::StealAbsoluteShield => crate::entity::max64(s.previous, 0),
            EffectKind::Buff(_) | EffectKind::NovaVitality => self.grown_value(
                s,
                base,
                Stat::Science,
            ),
            EffectKind::RawBuff(stat) => crate::might::rounded(
                crate::might::times(
                    crate::might::plain(base, s.critical),
                    if stat == Stat::Mp || stat == Stat::Tp {
                        s.count
                    } else {
                        1
                    },
                ),
            ) as i64,
            EffectKind::RawAbsoluteShield
            | EffectKind::RawRelativeShield
            | EffectKind::Vulnerability { .. } => crate::might::rounded(
                crate::might::plain(base, s.critical),
            ) as i64,
            EffectKind::RawHeal => crate::might::rounded(
                crate::might::times(crate::might::plain(base, s.critical), s.count),
            ) as i64,
            EffectKind::DamageReturn => self.grown_value(s, base, Stat::Agility),
            EffectKind::Poison | EffectKind::Shackle(_) => self.grown_value(s, base, Stat::Magic),
            EffectKind::Regeneration | EffectKind::Vitality => self.grown_value(
                s,
                base,
                Stat::Wisdom,
            ),
            EffectKind::Nova => crate::entity::min64(
                crate::might::rounded(
                    crate::might::powered(
                        crate::might::grown(
                            base,
                            or_none(self.stat(s.caster, Stat::Science)),
                            s.critical,
                        ),
                        or_none(self.stat(s.caster, Stat::Power)),
                    ),
                ) as i64,
                crate::entity::max64(
                    self.total_of(s.target).wrapping_sub(self.life_of(s.target)),
                    0,
                ),
            ),
            EffectKind::Debuff | EffectKind::TotalDebuff => crate::might::cut_off(
                crate::might::times(crate::might::plain(base, s.critical), s.count),
            ) as i64,
            EffectKind::RemoveShackles
            | EffectKind::Antidote
            | EffectKind::Resurrect
            | EffectKind::Unsupported(_) => 0,
        }
    }

    /// A lasting effect on the target.
    pub open spec fn lasting(self, s: Shot, kind: EffectKind, value: i64) -> FightView {
        self.with_effect(
            s.target,
            ActiveEffect {
                kind,
                value,
                turns: s.effect.turns,
                item: s.item,
                caster: s.caster,
                modifiers: s.effect.modifiers,
            },
        )
    }

    /// What an effect does, that comes to a value.
    pub open spec fn effect_done(self, s: Shot, base: Real, v: i64) -> FightView {
        match s.effect.kind {
            EffectKind::Damage => self.shot_damage(s, self.strength_damage(s, base), true),
            EffectKind::LifeDamage => self.shot_damage(s, self.life_damage(s, base), false),
            EffectKind::Kill => self.with_damage(s.target, self.life_of(s.target)),
            EffectKind::Heal | EffectKind::RawHeal => if s.effect.turns > 0 {
                self.lasting(s, EffectKind::Regeneration, v)
            } else {
                self.with_healing(s.target, v)
            },
            EffectKind::AbsoluteShield | EffectKind::RawAbsoluteShield => self.lasting(
                s,
                EffectKind::AbsoluteShield,
                v,
            ),
            EffectKind::RelativeShield | EffectKind::RawRelativeShield => self.lasting(
                s,
                EffectKind::RelativeShield,
                v,
            ),
            EffectKind::StealAbsoluteShield => if s.previous > 0 {
                self.lasting(s, EffectKind::AbsoluteShield, s.previous)
            } else {
                self
            },
            EffectKind::Buff(stat) | EffectKind::RawBuff(stat) => self.lasting(
                s,
                EffectKind::Buff(stat),
                v,
            ),
            EffectKind::DamageReturn => if v > 0 {
                self.lasting(s, EffectKind::DamageReturn, v)
            } else {
                self
            },
            EffectKind::Poison => self.lasting(s, EffectKind::Poison, v),
            EffectKind::Regeneration => self.lasting(s, EffectKind::Regeneration, v),
            EffectKind::Nova => self.with_wear(s.target, v),
            EffectKind::NovaVitality => self.with_total(s.target, v),
            EffectKind::Shackle(stat) => self.lasting(
                s,
                EffectKind::Buff(stat),
                0i64.wrapping_sub(v),
            ),
            EffectKind::Vulnerability { absolute } => self.lasting(
                s,
                if absolute {
                    EffectKind::AbsoluteShield
                } else {
                    EffectKind::RelativeShield
                },
                0i64.wrapping_sub(v),
            ),
            EffectKind::Vitality => self.with_vitality(s.target, v),
            EffectKind::Debuff => self.with_effects_lessened(s.target, v, false),
            EffectKind::TotalDebuff => self.with_effects_lessened(s.target, v, true),
            EffectKind::RemoveShackles => self.with_shackles_gone(s.target),
            EffectKind::Antidote => self.with_poison_gone(s.target),
            EffectKind::Resurrect => {
                let total = crate::entity::max64(
                    crate::might::halved(self.total_of(s.target), s.critical) as i64,
                    10,
                );
                self.with_wear(
                    s.target,
                    self.total_of(s.target).wrapping_sub(total),
                ).with_revival(s.target, (total as int / 2) as i64)
            },
            EffectKind::Unsupported(_) => self,
        }
    }

    /// The roll of an effect: the first value, and a random part of the
    /// second.
    pub open spec fn base_of_shot(self, s: Shot) -> Real {
        crate::power::roll(s.effect.value1, s.effect.value2, self.jet())
    }

    /// An effect is applied.
    #[verifier::opaque]
    pub open spec fn applied(self, s: Shot) -> FightView {
        let base = self.base_of_shot(s);
        let f = self.rolled();
        f.effect_done(s, base, f.effect_value(s, base))
    }

    /// What an effect that is applied comes to.
    #[verifier::opaque]
    pub open spec fn applied_value(self, s: Shot) -> i64 {
        self.rolled().effect_value(s, self.base_of_shot(s))
    }

    /// Whether an effect reaches an entity: enemies, allies, and the caster
    /// among the allies. There are no summons here.
    pub open spec fn is_target(self, targets: u8, caster: i64, target: i64) -> bool {
        let same = self.team_of(caster) == self.team_of(target);
        &&& crate::effects::has_flag(targets, TARGET_ENEMIES) || same
        &&& crate::effects::has_flag(targets, TARGET_ALLIES) || !same
        &&& crate::effects::has_flag(targets, TARGET_CASTER) || caster != target
        &&& crate::effects::has_flag(targets, TARGET_NON_SUMMONS)
    }

    pub open spec fn team_of(self, id: i64) -> Option<i64> {
        match self.entity(id) {
            Some(e) => Some(e.team),
            None => None,
        }
    }

    pub open spec fn cell_of(self, id: i64) -> Option<i64> {
        match self.entity(id) {
            Some(e) => Some(e.cell),
            None => None,
        }
    }

    /// The distance of an entity from a cell.
    pub open spec fn apart(self, id: i64, cell: i64) -> int {
        match self.cell_of(id) {
            Some(c) => self.distance(c, cell),
            None => self.distance((-1) as i64, cell),
        }
    }

    /// Those of a list, but for one, that are within a distance of a cell.
    pub open spec fn around(self, ids: Seq<i64>, but: i64, cell: i64, radius: i64) -> Seq<i64>
        decreases ids.len(),
    {
        if ids.len() == 0 {
            Seq::empty()
        } else {
            let before = self.around(ids.drop_last(), but, cell, radius);
            if ids.last() != but && self.apart(ids.last(), cell) <= radius {
                before.push(ids.last())
            } else {
                before
            }
        }
    }

    /// How many of a list an effect reaches.
    pub open spec fn targets_among(self, ids: Seq<i64>, targets: u8, caster: i64) -> nat
        decreases ids.len(),
    {
        if ids.len() == 0 {
            0
        } else {
            self.targets_among(ids.drop_last(), targets, caster) + if self.is_target(
                targets,
                caster,
                ids.last(),
            ) {
                1nat
            } else {
                0nat
            }
        }
    }
}

/// The next random number of a fight.
pub open spec fn stirred_rng(f: FightView) -> u64 {
    crate::fight::stirred(f.rng)
}

impl Fight {
    /// Applies damage to the target of an effect.
    fn apply_damage(&mut self, s: Shot, d: Real, steals: bool) -> (dealt: i64)
        requires
            old(self).wf(),
            d.within(6000),
        ensures
            final(self).wf(),
            final(self)@.keeps(old(self)@),
            final(self)@ == old(self)@.shot_damage(s, d, steals),
            dealt == old(self)@.shot_value(s, d),
    {
        reveal(FightView::shot_damage);
        reveal(FightView::shot_value);
        let back: i64 = if s.caster == s.target {
            0
        } else {
            crate::might::sent_back_of(d, or_zero(self.damage_return(s.target)))
        };
        let amount: i64 = crate::might::passed_of(
            d,
            self.relative_shield(s.target),
            self.absolute_shield(s.target),
        );
        let dealt: i64 = self.deal_damage(s.target, amount);
        self.reduce_max_life(s.target, crate::might::worn_off_of(dealt, false, s.critical));
        if steals && s.caster != s.target {
            let wisdom: i64 = or_zero(self.stat(s.caster, Stat::Wisdom));
            self.heal(s.caster, crate::might::taken_over_of(dealt, wisdom));
        }
        if back > 0 {
            let dealt_back: i64 = self.deal_damage(s.caster, back);
            self.reduce_max_life(
                s.caster,
                crate::might::worn_off_of(dealt_back, false, s.critical),
            );
        }
        dealt
    }

    /// What an effect comes to when it grows with a characteristic of the
    /// caster.
    fn grown_by(&self, s: Shot, base: Real, stat: Stat) -> (v: i64)
        requires
            base.within(2000),
        ensures
            v == self@.grown_value(s, base, stat),
            v >= 0,
    {
        crate::might::rounded_of(
            crate::might::grown_of(base, or_zero(self.stat(s.caster, stat)), s.critical),
        )
    }

    /// Puts a lasting effect on the target.
    fn make_last(&mut self, s: Shot, kind: EffectKind, value: i64)
        requires
            old(self).wf(),
        ensures
            final(self).wf(),
            final(self)@.keeps(old(self)@),
            final(self)@ == old(self)@.lasting(s, kind, value),
    {
        self.add_effect(
            s.target,
            ActiveEffect {
                kind,
                value,
                turns: s.effect.turns,
                item: s.item,
                caster: s.caster,
                modifiers: s.effect.modifiers,
            },
        );
    }

    /// Applies an effect, and tells what it comes to.
    pub fn apply_effect(&mut self, s: Shot) -> (v: i64)
        requires
            old(self).wf(),
            s.effect.wf(),
        ensures
            final(self).wf(),
            final(self)@.keeps(old(self)@),
            final(self)@ == old(self)@.applied(s),
            v == old(self)@.applied_value(s),
    {
        reveal(FightView::applied);
        reveal(FightView::applied_value);
        let jet: Real = self.roll_jet();
        let ghost f = self@;
        assert(f =~= old(self)@.rolled());
        let base: Real = crate::might::rolled(s.effect.value1, s.effect.value2, jet);
        match s.effect.kind {
            EffectKind::Damage => {
                let d: Real = crate::might::times_of(
                    crate::might::powered_of(
                        crate::might::grown_of(
                            base,
                            or_zero(self.stat(s.caster, Stat::Strength)),
                            s.critical,
                        ),
                        or_zero(self.stat(s.caster, Stat::Power)),
                    ),
                    s.count,
                );
                self.apply_damage(s, d, true)
            },
            EffectKind::LifeDamage => {
                let d: Real = crate::might::powered_of(
                    crate::might::hit_times_of(
                        crate::might::life_part_of(base, or_zero(self.life(s.caster))),
                        s.critical,
                    ),
                    or_zero(self.stat(s.caster, Stat::Power)),
                );
                self.apply_damage(s, d, false)
            },
            EffectKind::Kill => {
                let life: i64 = or_zero(self.life(s.target));
                self.deal_damage(s.target, life)
            },
            EffectKind::Heal => {
                let v: i64 = crate::might::rounded_of(
                    crate::might::times_of(
                        crate::might::grown_of(
                            base,
                            or_zero(self.stat(s.caster, Stat::Wisdom)),
                            s.critical,
                        ),
                        s.count,
                    ),
                );
                if s.effect.turns > 0 {
                    self.make_last(s, EffectKind::Regeneration, v);
                } else {
                    self.heal(s.target, v);
                }
                v
            },
            EffectKind::AbsoluteShield => {
                let v: i64 = self.grown_by(s, base, Stat::Resistance);
                self.make_last(s, EffectKind::AbsoluteShield, v);
                v
            },
            EffectKind::RelativeShield => {
                let v: i64 = self.grown_by(s, base, Stat::Resistance);
                self.make_last(s, EffectKind::RelativeShield, v);
                v
            },
            EffectKind::StealAbsoluteShield => {
                if s.previous > 0 {
                    self.make_last(s, EffectKind::AbsoluteShield, s.previous);
                }
                max_of(s.previous, 0)
            },
            EffectKind::Buff(stat) => {
                let v: i64 = self.grown_by(s, base, Stat::Science);
                self.make_last(s, EffectKind::Buff(stat), v);
                v
            },
            EffectKind::RawBuff(stat) => {
                let count: i64 = if stat == Stat::Mp || stat == Stat::Tp {
                    s.count
                } else {
                    1
                };
                let v: i64 = crate::might::rounded_of(
                    crate::might::times_of(crate::might::plain_of(base, s.critical), count),
                );
                self.make_last(s, EffectKind::Buff(stat), v);
                v
            },
            EffectKind::RawAbsoluteShield => {
                let v: i64 = crate::might::rounded_of(crate::might::plain_of(base, s.critical));
                self.make_last(s, EffectKind::AbsoluteShield, v);
                v
            },
            EffectKind::RawRelativeShield => {
                let v: i64 = crate::might::rounded_of(crate::might::plain_of(base, s.critical));
                self.make_last(s, EffectKind::RelativeShield, v);
                v
            },
            EffectKind::RawHeal => {
                let v: i64 = crate::might::rounded_of(
                    crate::might::times_of(crate::might::plain_of(base, s.critical), s.count),
                );
                if s.effect.turns > 0 {
                    self.make_last(s, EffectKind::Regeneration, v);
                } else {
                    self.heal(s.target, v);
                }
                v
            },
            EffectKind::DamageReturn => {
                let v: i64 = self.grown_by(s, base, Stat::Agility);
                if v > 0 {
                    self.make_last(s, EffectKind::DamageReturn, v);
                }
                v
            },
            EffectKind::Poison => {
                let v: i64 = self.grown_by(s, base, Stat::Magic);
                self.make_last(s, EffectKind::Poison, v);
                v
            },
            EffectKind::Regeneration => {
                let v: i64 = self.grown_by(s, base, Stat::Wisdom);
                self.make_last(s, EffectKind::Regeneration, v);
                v
            },
            EffectKind::Nova => {
                let v: i64 = crate::might::rounded_of(
                    crate::might::powered_of(
                        crate::might::grown_of(
                            base,
                            or_zero(self.stat(s.caster, Stat::Science)),
                            s.critical,
                        ),
                        or_zero(self.stat(s.caster, Stat::Power)),
                    ),
                );
                let room: i64 = max_of(
                    or_zero(self.max_life(s.target)).wrapping_sub(or_zero(self.life(s.target))),
                    0,
                );
                let v: i64 = min_of(v, room);
                self.reduce_max_life(s.target, v);
                v
            },
            EffectKind::NovaVitality => {
                let v: i64 = self.grown_by(s, base, Stat::Science);
                self.raise_max_life(s.target, v);
                v
            },
            EffectKind::Shackle(stat) => {
                let v: i64 = self.grown_by(s, base, Stat::Magic);
                self.make_last(s, EffectKind::Buff(stat), 0i64.wrapping_sub(v));
                v
            },
            EffectKind::Vulnerability { absolute } => {
                let v: i64 = crate::might::rounded_of(crate::might::plain_of(base, s.critical));
                let kind: EffectKind = if absolute {
                    EffectKind::AbsoluteShield
                } else {
                    EffectKind::RelativeShield
                };
                self.make_last(s, kind, 0i64.wrapping_sub(v));
                v
            },
            EffectKind::Vitality => {
                let v: i64 = self.grown_by(s, base, Stat::Wisdom);
                self.grant_vitality(s.target, v);
                v
            },
            EffectKind::Debuff => {
                let v: i64 = crate::might::cut_off_of(
                    crate::might::times_of(crate::might::plain_of(base, s.critical), s.count),
                );
                self.reduce_effects(s.target, v, false);
                v
            },
            EffectKind::TotalDebuff => {
                let v: i64 = crate::might::cut_off_of(
                    crate::might::times_of(crate::might::plain_of(base, s.critical), s.count),
                );
                self.reduce_effects(s.target, v, true);
                v
            },
            EffectKind::RemoveShackles => {
                self.remove_shackles(s.target);
                0
            },
            EffectKind::Antidote => {
                self.remove_effects(s.target, EffectKind::Poison);
                0
            },
            EffectKind::Resurrect => {
                let whole: i64 = or_zero(self.max_life(s.target));
                let total: i64 = max_of(crate::might::halved_of(whole, s.critical), 10);
                self.reduce_max_life(s.target, whole.wrapping_sub(total));
                self.revive(s.target, total / 2);
                0
            },
            EffectKind::Unsupported(_) => 0,
        }
    }

    /// Whether an effect reaches an entity.
    #[must_use]
    pub fn target_allowed(&self, targets: u8, caster: i64, target: i64) -> (b: bool)
        ensures
            b == self@.is_target(targets, caster, target),
    {
        let same: bool = match (self.team(caster), self.team(target)) {
            (Some(a), Some(b)) => a == b,
            (None, None) => true,
            _ => false,
        };
        (targets & TARGET_ENEMIES != 0 || same) && (targets & TARGET_ALLIES != 0 || !same) && (
        targets & TARGET_CASTER != 0 || caster != target) && targets & TARGET_NON_SUMMONS != 0
    }
}

/// A number of things.
pub open spec fn count_of(n: nat) -> i64 {
    if n > i64::MAX {
        0
    } else {
        n as i64
    }
}

/// A number of things.
pub(crate) fn counted(n: usize) -> (r: i64)
    ensures
        r == count_of(n as nat),
{
    if n as u64 > 0x7fff_ffff_ffff_ffff {
        0
    } else {
        n as i64
    }
}

/// How long an item has to wait after a use.
pub open spec fn wait_after(cooldown: i64) -> i64 {
    if cooldown < 0 {
        FOREVER
    } else {
        cooldown
    }
}

/// A volley: the effects of an item on their way from the caster to whom it
/// affects.
pub struct Salvo {
    pub caster: i64,
    pub affected: Vec<i64>,
    pub effects: Vec<Effect>,
    pub item: i64,
    pub critical: bool,
}

/// The state of a fight, and what the effect before came to.
pub struct Aftermath {
    pub fight: FightView,
    pub total: i64,
}

impl FightView {
    /// An effect falls on the first `n` of those whom the item affects.
    pub open spec fn spread_over(self, v: Salvo, e: Effect, previous: i64, count: i64, n: nat) ->
        Aftermath
        decreases n,
    {
        if n == 0 {
            Aftermath { fight: self, total: 0 }
        } else {
            let before = self.spread_over(v, e, previous, count, (n - 1) as nat);
            let id = v.affected@[n - 1];
            if !before.fight.is_target(e.targets, v.caster, id) || (crate::effects::has_flag(
                e.modifiers,
                MODIFIER_NOT_REPLACEABLE,
            ) && before.fight.has_item_effect(id, v.item)) {
                before
            } else {
                let s = Shot {
                    caster: v.caster,
                    target: id,
                    effect: e,
                    item: v.item,
                    critical: v.critical,
                    previous,
                    count,
                };
                Aftermath {
                    fight: before.fight.applied(s),
                    total: before.total.wrapping_add(before.fight.applied_value(s)),
                }
            }
        }
    }

    /// For how many targets an effect counts.
    pub open spec fn multiplier(self, v: Salvo, e: Effect) -> i64 {
        if crate::effects::has_flag(e.modifiers, MODIFIER_MULTIPLIED_BY_TARGETS) {
            crate::entity::max64(
                count_of(self.targets_among(v.affected@, e.targets, v.caster)),
                1,
            )
        } else {
            1
        }
    }

    /// The first `n` effects of an item, one after the other.
    pub open spec fn fired(self, v: Salvo, n: nat) -> Aftermath
        decreases n,
    {
        if n == 0 {
            Aftermath { fight: self, total: 0 }
        } else {
            let before = self.fired(v, (n - 1) as nat);
            let e = v.effects@[n - 1];
            match e.kind {
                EffectKind::Unsupported(id) => Aftermath {
                    fight: before.fight.warned_of(v.caster, v.item, id),
                    total: 0,
                },
                _ => {
                    let count = before.fight.multiplier(v, e);
                    if crate::effects::has_flag(e.modifiers, MODIFIER_ON_CASTER) {
                        Aftermath {
                            fight: before.fight.applied(
                                Shot {
                                    caster: v.caster,
                                    target: v.caster,
                                    effect: e,
                                    item: v.item,
                                    critical: v.critical,
                                    previous: before.total,
                                    count,
                                },
                            ),
                            total: 0,
                        }
                    } else {
                        before.fight.spread_over(v, e, before.total, count, v.affected@.len())
                    }
                },
            }
        }
    }

    /// Why an item cannot be used on a target.
    pub open spec fn refusal(self, spec: UseSpec, caster: i64, target: i64) -> Option<i64> {
        match (self.cell_of(caster), self.cell_of(target)) {
            (Some(cc), Some(tc)) => if !self.on_grid(cc as int) || !self.on_grid(tc as int) || !(
            spec.min_range <= self.gap(cc as int, tc as int) <= spec.max_range) {
                Some(USE_INVALID_TARGET)
            } else if spec.los && !self.sees(cc as int, tc as int) {
                Some(USE_INVALID_POSITION)
            } else if self.wait_of(caster, spec.item) > 0 || (spec.max_uses > 0 && self.uses_of(
                caster,
                spec.item,
            ) >= spec.max_uses) {
                Some(USE_TOO_MANY_USES)
            } else if self.entity(caster).unwrap().tp < spec.cost {
                Some(USE_NOT_ENOUGH_TP)
            } else {
                None
            },
            _ => Some(USE_INVALID_TARGET),
        }
    }

    pub open spec fn wait_of(self, id: i64, item: i64) -> i64 {
        match self.entity(id) {
            Some(e) => crate::entity::value_of(e.item_cooldowns, item),
            None => 0,
        }
    }

    pub open spec fn uses_of(self, id: i64, item: i64) -> i64 {
        match self.entity(id) {
            Some(e) => crate::entity::value_of(e.item_uses, item),
            None => 0,
        }
    }

    /// The caster has paid for the use of an item.
    pub open spec fn paid(self, spec: UseSpec, caster: i64) -> FightView {
        match self.entity(caster) {
            Some(e) => self.changed(
                caster,
                EntityView { tp: e.tp.wrapping_sub(spec.cost), ..e }.used(
                    spec.item,
                    wait_after(spec.cooldown),
                ),
            ),
            None => self,
        }
    }

    /// Whether the next use is critical.
    pub open spec fn next_critical(self, caster: i64) -> bool {
        crate::might::strikes_critically(
            self.jet(),
            or_none(self.stat(caster, Stat::Agility)),
        )
    }

    /// Whom an item affects: the target, and the living around it.
    pub open spec fn affected_by(self, spec: UseSpec, target: i64) -> Seq<i64> {
        let radius = crate::entity::max64(spec.area.wrapping_sub(1), 0);
        if radius > 0 {
            seq![target] + self.around(
                crate::fight::numbers_of(self.entities, true),
                target,
                self.cell_of(target).unwrap(),
                radius,
            )
        } else {
            seq![target]
        }
    }

    /// An item is used on a target.
    pub open spec fn item_used(
        self,
        spec: UseSpec,
        effects: Seq<Effect>,
        caster: i64,
        target: i64,
        after: FightView,
        result: i64,
    ) -> bool {
        match self.refusal(spec, caster, target) {
            Some(why) => after == self && result == why,
            None => {
                let ready = self.paid(spec, caster);
                let critical = ready.next_critical(caster);
                let rolled = ready.rolled();
                &&& result == if critical {
                    USE_CRITICAL
                } else {
                    USE_SUCCESS
                }
                &&& exists|v: Salvo|
                    {
                        &&& v.caster == caster
                        &&& v.affected@ == rolled.affected_by(spec, target)
                        &&& v.effects@ == effects
                        &&& v.item == spec.item
                        &&& v.critical == critical
                        &&& after == (#[trigger] rolled.fired(v, effects.len())).fight
                    }
            },
        }
    }
}

impl Fight {
    /// Those of a list, but for one, that are within a distance of a cell.
    fn push_around(&self, affected: &mut Vec<i64>, but: i64, cell: i64, radius: i64)
        requires
            self.wf(),
        ensures
            final(affected)@ == old(affected)@ + self@.around(
                crate::fight::numbers_of(self@.entities, true),
                but,
                cell,
                radius,
            ),
    {
        let ghost f = self@;
        let ghost first = affected@;
        let ids: Vec<i64> = self.entities(true);
        let mut i: usize = 0;
        assert(ids@.take(0) =~= Seq::<i64>::empty());
        assert(affected@ =~= first + f.around(ids@.take(0), but, cell, radius));
        while i < ids.len()
            invariant
                self.wf(),
                f == self@,
                i <= ids@.len(),
                affected@ == first + f.around(ids@.take(i as int), but, cell, radius),
            decreases ids.len() - i,
        {
            assert(ids@.take(i + 1).drop_last() =~= ids@.take(i as int));
            let id: i64 = ids[i];
            if id != but {
                let own: i64 = match self.cell(id) {
                    Some(c) => c,
                    None => -1,
                };
                if self.manhattan(own, cell) <= radius {
                    affected.push(id);
                }
            }
            i += 1;
            assert(affected@ =~= first + f.around(ids@.take(i as int), but, cell, radius));
        }
        assert(ids@.take(i as int) =~= ids@);
    }

    /// How many of a list an effect reaches.
    fn count_targets(&self, ids: &Vec<i64>, targets: u8, caster: i64) -> (n: usize)
        ensures
            n == self@.targets_among(ids@, targets, caster),
    {
        let ghost f = self@;
        let mut n: usize = 0;
        let mut i: usize = 0;
        assert(ids@.take(0) =~= Seq::<i64>::empty());
        while i < ids.len()
            invariant
                f == self@,
                i <= ids@.len(),
                n <= i,
                n == f.targets_among(ids@.take(i as int), targets, caster),
            decreases ids.len() - i,
        {
            assert(ids@.take(i + 1).drop_last() =~= ids@.take(i as int));
            if self.target_allowed(targets, caster, ids[i]) {
                n += 1;
            }
            i += 1;
        }
        assert(ids@.take(i as int) =~= ids@);
        n
    }

    /// Lets an effect fall on those whom the item affects.
    fn spread(&mut self, v: &Salvo, e: Effect, previous: i64, count: i64) -> (total: i64)
        requires
            old(self).wf(),
            e.wf(),
        ensures
            final(self).wf(),
            final(self)@.keeps(old(self)@),
            ({
                let a = old(self)@.spread_over(*v, e, previous, count, v.affected@.len());
                final(self)@ == a.fight && total == a.total
            }),
    {
        let ghost f = self@;
        let mut total: i64 = 0;
        let mut i: usize = 0;
        while i < v.affected.len()
            invariant
                self.wf(),
                self@.keeps(f),
                e.wf(),
                i <= v.affected@.len(),
                self@ == f.spread_over(*v, e, previous, count, i as nat).fight,
                total == f.spread_over(*v, e, previous, count, i as nat).total,
            decreases v.affected.len() - i,
        {
            let id: i64 = v.affected[i];
            if self.target_allowed(e.targets, v.caster, id) {
                let kept: bool = e.modifiers & MODIFIER_NOT_REPLACEABLE != 0
                    && self.has_item_effect(id, v.item);
                if !kept {
                    let value: i64 = self.apply_effect(
                        Shot {
                            caster: v.caster,
                            target: id,
                            effect: e,
                            item: v.item,
                            critical: v.critical,
                            previous,
                            count,
                        },
                    );
                    total = total.wrapping_add(value);
                }
            }
            i += 1;
        }
        total
    }

    /// Lets the effects of an item act, one after the other.
    fn fire(&mut self, v: &Salvo)
        requires
            old(self).wf(),
            forall|i: int| 0 <= i < v.effects@.len() ==> (#[trigger] v.effects@[i]).wf(),
        ensures
            final(self).wf(),
            final(self)@.keeps(old(self)@),
            final(self)@ == old(self)@.fired(*v, v.effects@.len()).fight,
    {
        let ghost f = self@;
        let mut previous: i64 = 0;
        let mut i: usize = 0;
        while i < v.effects.len()
            invariant
                self.wf(),
                self@.keeps(f),
                forall|i: int| 0 <= i < v.effects@.len() ==> (#[trigger] v.effects@[i]).wf(),
                i <= v.effects@.len(),
                self@ == f.fired(*v, i as nat).fight,
                previous == f.fired(*v, i as nat).total,
            decreases v.effects.len() - i,
        {
            let e: Effect = v.effects[i];
            assert(v.effects@[i as int].wf());
            if let EffectKind::Unsupported(id) = e.kind {
                self.warn_unsupported(v.caster, v.item, id);
                previous = 0;
            } else {
                let count: i64 = if e.modifiers & MODIFIER_MULTIPLIED_BY_TARGETS != 0 {
                    max_of(counted(self.count_targets(&v.affected, e.targets, v.caster)), 1)
                } else {
                    1
                };
                if e.modifiers & MODIFIER_ON_CASTER != 0 {
                    let _ = self.apply_effect(
                        Shot {
                            caster: v.caster,
                            target: v.caster,
                            effect: e,
                            item: v.item,
                            critical: v.critical,
                            previous,
                            count,
                        },
                    );
                    previous = 0;
                } else {
                    previous = self.spread(v, e, previous, count);
                }
            }
            i += 1;
        }
    }

    /// Uses an item on a target, and tells how that went.
    pub fn use_effects(&mut self, caster: i64, target: i64, spec: UseSpec, effects: &[Effect]) -> (
        result: i64)
        requires
            old(self).wf(),
            forall|i: int| 0 <= i < effects@.len() ==> (#[trigger] effects@[i]).wf(),
        ensures
            final(self).wf(),
            final(self)@.keeps(old(self)@),
            old(self)@.item_used(spec, effects@, caster, target, final(self)@, result),
    {
        let ghost f = self@;
        let (cc, tc) = match (self.cell(caster), self.cell(target)) {
            (Some(a), Some(b)) => (a, b),
            _ => {
                return USE_INVALID_TARGET;
            },
        };
        match self.coords(cc, tc) {
            Some(_) => {
                let d: i64 = self.manhattan(cc, tc);
                if d < spec.min_range || d > spec.max_range {
                    return USE_INVALID_TARGET;
                }
            },
            None => {
                return USE_INVALID_TARGET;
            },
        }
        if spec.los && !self.line_of_sight(cc, tc) {
            return USE_INVALID_POSITION;
        }
        if self.cooldown(caster, spec.item) > 0 || (spec.max_uses > 0 && self.uses_this_turn(
            caster,
            spec.item,
        ) >= spec.max_uses) {
            return USE_TOO_MANY_USES;
        }
        if !self.spend_tp(caster, spec.cost) {
            return USE_NOT_ENOUGH_TP;
        }
        let wait: i64 = if spec.cooldown < 0 {
            FOREVER
        } else {
            spec.cooldown
        };
        proof {
            crate::fight::lemma_first(f.entities, caster);
            let e = f.entity(caster).unwrap();
            f.lemma_changed(caster, EntityView { tp: e.tp.wrapping_sub(spec.cost), ..e });
        }
        self.register_use(caster, spec.item, wait);
        assert(self@ =~= f.paid(spec, caster));
        let ghost ready = self@;
        let agility: i64 = or_zero(self.stat(caster, Stat::Agility));
        let jet: Real = self.roll_jet();
        let critical: bool = crate::might::is_critical_strike(jet, agility);
        let ghost rolled = self@;
        assert(rolled =~= ready.rolled());
        proof {
            rolled.lemma_keeps_place(f, target);
        }
        let mut affected: Vec<i64> = Vec::new();
        affected.push(target);
        assert(affected@ =~= seq![target]);
        let radius: i64 = max_of(spec.area.wrapping_sub(1), 0);
        if radius > 0 {
            let center: i64 = match self.cell(target) {
                Some(c) => c,
                None => tc,
            };
            self.push_around(&mut affected, target, center, radius);
        }
        assert(affected@ == rolled.affected_by(spec, target));
        let mut list: Vec<Effect> = Vec::new();
        let mut i: usize = 0;
        while i < effects.len()
            invariant
                i <= effects@.len(),
                list@ == effects@.take(i as int),
            decreases effects.len() - i,
        {
            list.push(effects[i]);
            i += 1;
            assert(list@ =~= effects@.take(i as int));
        }
        assert(list@ =~= effects@);
        let v = Salvo { caster, affected, effects: list, item: spec.item, critical };
        self.fire(&v);
        proof {
            assert(critical == ready.next_critical(caster));
            assert(self@ == rolled.fired(v, effects@.len()).fight);
            assert(f.refusal(spec, caster, target) is None);
            assert(ready == f.paid(spec, caster));
        }
        if critical {
            USE_CRITICAL
        } else {
            USE_SUCCESS
        }
    }
}

} // verus!
