//! What an effect does when it strikes a fighter, and how it stays there.

use crate::actions::{Action, DamageType};
use crate::attack::{AttackType, EffectParams, EffectType, EntityState};
use crate::fighter::{
    FighterView, Stats, STAT_ABSOLUTE_SHIELD, STAT_AGILITY, STAT_COUNT, STAT_DAMAGE_RETURN,
    STAT_FREQUENCY, STAT_LIFE, STAT_MAGIC, STAT_MP, STAT_POWER, STAT_RELATIVE_SHIELD,
    STAT_RESISTANCE, STAT_SCIENCE, STAT_STRENGTH, STAT_TP, STAT_WISDOM,
};
use crate::json::Tree;
use crate::number::Real;
use crate::world::{EffectInstance, EffectView, State, World};
use vstd::prelude::*;

verus! {

broadcast use crate::fighter::lemma_stats_len;

/// One strike: with what power, by whom, on whom, and with what item.
#[derive(Debug, Clone, Copy)]
pub struct Blow {
    /// The part of the power that arrives.
    pub aoe: Real,
    pub critical: bool,
    pub target: usize,
    pub caster: usize,
    pub item_id: i32,
    pub attack_type: AttackType,
    /// What chance adds, between 0 and 1.
    pub jet: Real,
    pub stackable: bool,
    /// What the effect before this one has done in all.
    pub previous: i32,
    /// By what the number of targets multiplies.
    pub count: i32,
    /// How far the effect spreads.
    pub propagate: i32,
}

impl Blow {
    /// The fighters exist, and the factors are ordinary numbers.
    pub open spec fn fits(self, fighters: int) -> bool {
        &&& self.target < fighters
        &&& self.caster < fighters
        &&& self.aoe.within(200)
        &&& self.jet.within(200)
    }
}

/// What a strike comes to: the world after it, the value of the effect, and
/// what the effect carries while it stays.
pub struct Impact {
    pub world: World,
    pub value: i32,
    pub stats: Seq<i32>,
    pub state: Option<EntityState>,
}

/// The first effect of a list that is of a kind and from an item.
pub open spec fn first_of_kind(
    list: Seq<usize>,
    effects: Seq<EffectView>,
    kind: EffectType,
    item_id: i32,
) -> Option<usize>
    decreases list.len(),
{
    if list.len() == 0 {
        None
    } else {
        match first_of_kind(list.drop_last(), effects, kind, item_id) {
            Some(ei) => Some(ei),
            None => {
                let e = effects[list.last() as int];
                if e.effect == kind && e.item_id == item_id {
                    Some(list.last())
                } else {
                    None
                }
            },
        }
    }
}

/// The first effect of a list that is of a kind, from an item and a caster,
/// and has as many turns left.
pub open spec fn first_alike(
    list: Seq<usize>,
    effects: Seq<EffectView>,
    kind: EffectType,
    item_id: i32,
    turns: i32,
    caster: usize,
) -> Option<usize>
    decreases list.len(),
{
    if list.len() == 0 {
        None
    } else {
        match first_alike(list.drop_last(), effects, kind, item_id, turns, caster) {
            Some(ei) => Some(ei),
            None => {
                let e = effects[list.last() as int];
                if e.item_id == item_id && e.effect == kind && e.turns == turns && e.caster
                    == caster {
                    Some(list.last())
                } else {
                    None
                }
            },
        }
    }
}

/// For effects that add to one characteristic: the characteristic of the
/// caster with which they grow, the one to which they add, and the sign.
pub open spec fn carrier(kind: EffectType, c: FighterView) -> Option<(i32, usize, int)> {
    let science = c.stat(STAT_SCIENCE as int);
    let resistance = c.stat(STAT_RESISTANCE as int);
    let agility = c.stat(STAT_AGILITY as int);
    let magic = crate::power::at_least(c.stat(STAT_MAGIC as int) as int, 0) as i32;
    match kind {
        EffectType::BuffStrength => Some((science, STAT_STRENGTH, 1)),
        EffectType::BuffAgility => Some((science, STAT_AGILITY, 1)),
        EffectType::BuffMp => Some((science, STAT_MP, 1)),
        EffectType::BuffTp => Some((science, STAT_TP, 1)),
        EffectType::BuffWisdom => Some((science, STAT_WISDOM, 1)),
        EffectType::BuffResistance => Some((science, STAT_RESISTANCE, 1)),
        EffectType::AbsoluteShield => Some((resistance, STAT_ABSOLUTE_SHIELD, 1)),
        EffectType::RelativeShield => Some((resistance, STAT_RELATIVE_SHIELD, 1)),
        EffectType::DamageReturn => Some((agility, STAT_DAMAGE_RETURN, 1)),
        EffectType::ShackleMp => Some((magic, STAT_MP, -1)),
        EffectType::ShackleTp => Some((magic, STAT_TP, -1)),
        EffectType::ShackleStrength => Some((magic, STAT_STRENGTH, -1)),
        EffectType::ShackleAgility => Some((magic, STAT_AGILITY, -1)),
        EffectType::ShackleWisdom => Some((magic, STAT_WISDOM, -1)),
        EffectType::ShackleMagic => Some((magic, STAT_MAGIC, -1)),
        EffectType::Vulnerability => Some((0, STAT_RELATIVE_SHIELD, -1)),
        EffectType::AbsoluteVulnerability => Some((0, STAT_ABSOLUTE_SHIELD, -1)),
        EffectType::RawBuffStrength => Some((0, STAT_STRENGTH, 1)),
        EffectType::RawBuffAgility => Some((0, STAT_AGILITY, 1)),
        EffectType::RawBuffMagic => Some((0, STAT_MAGIC, 1)),
        EffectType::RawBuffScience => Some((0, STAT_SCIENCE, 1)),
        EffectType::RawBuffWisdom => Some((0, STAT_WISDOM, 1)),
        EffectType::RawBuffResistance => Some((0, STAT_RESISTANCE, 1)),
        EffectType::RawBuffPower => Some((0, STAT_POWER, 1)),
        EffectType::RawAbsoluteShield => Some((0, STAT_ABSOLUTE_SHIELD, 1)),
        EffectType::RawRelativeShield => Some((0, STAT_RELATIVE_SHIELD, 1)),
        _ => None,
    }
}

/// The characteristics that a multiplication multiplies.
pub open spec fn multiplied_stat(stat: int) -> bool {
    stat == STAT_STRENGTH || stat == STAT_AGILITY || stat == STAT_RESISTANCE || stat == STAT_WISDOM
        || stat == STAT_SCIENCE || stat == STAT_MAGIC || stat == STAT_FREQUENCY || stat == STAT_TP
        || stat == STAT_MP
}

/// What a multiplication adds to the characteristics.
pub open spec fn multiplied_stats(base: Seq<i32>, factor: int) -> Seq<i32> {
    Seq::new(
        STAT_COUNT as nat,
        |i: int|
            {
                let gain = base[i].wrapping_mul((factor - 1) as i32);
                if multiplied_stat(i) && gain > 0 {
                    gain
                } else {
                    0
                }
            },
    )
}

/// What a merged effect adds to the characteristics: more of what it had.
pub open spec fn merged_stats(stats: Seq<i32>, added: i32) -> Seq<i32> {
    Seq::new(
        STAT_COUNT as nat,
        |i: int|
            if stats[i] == 0 {
                0
            } else {
                stats[i].wrapping_add(added.wrapping_mul(crate::map::sign(stats[i] as int) as i32))
            },
    )
}

pub open spec fn damage_row(kind: DamageType, target: int, pv: int, erosion: int) -> Tree {
    crate::json::row(seq![kind.wire(), target, pv, erosion])
}

pub open spec fn heal_row(target: int, life: int) -> Tree {
    crate::json::row(seq![crate::actions::HEAL as int, target, life])
}

/// The rate at which a line wears off total life.
pub open spec fn line_erosion(line: EffectParams, critical: bool) -> Real {
    crate::power::erosion_rate(line.effect is Poison, critical)
}

impl World {
    /// A characteristic that effects have changed changes again.
    pub open spec fn bumped(self, fid: int, stat: int, delta: i32) -> World {
        let f = self.fighters[fid];
        self.with_fighter(
            fid,
            FighterView {
                buff_stats: crate::fighter::shifted(f.buff_stats, stat, delta),
                ..f
            },
        )
    }

    /// The total life changes.
    pub open spec fn total_raised(self, fid: int, delta: i32) -> World {
        let f = self.fighters[fid];
        self.with_fighter(
            fid,
            FighterView { total_life: f.total_life.wrapping_add(delta), ..f },
        )
    }

    /// An effect of the same kind and item goes, where only one may stay.
    pub open spec fn replaced(self, line: EffectParams, b: Blow) -> World {
        if line.turns != 0 && !b.stackable {
            match first_of_kind(
                self.fighters[b.target as int].effects,
                self.effects,
                line.effect,
                b.item_id,
            ) {
                Some(ei) => self.forgotten(ei).effect_removed(b.target as int, ei),
                None => self,
            }
        } else {
            self
        }
    }

    /// A value, and nothing that the effect carries.
    pub open spec fn plain(self, value: int) -> Impact {
        Impact {
            world: self,
            value: value as i32,
            stats: crate::fighter::no_stats(),
            state: None,
        }
    }

    /// A positive value is added to a characteristic, and carried by the
    /// effect.
    pub open spec fn carried(self, target: int, value: int, stat: int, sign: int) -> Impact {
        if value > 0 {
            Impact {
                world: self.bumped(target, stat, (sign * value) as i32),
                value: value as i32,
                stats: crate::fighter::no_stats().update(stat, (sign * value) as i32),
                state: None,
            }
        } else {
            self.plain(value)
        }
    }

    /// Part of the damage comes to the caster as life.
    pub open spec fn life_stolen(self, caster: int, steal: int) -> World {
        let c = self.fighters[caster];
        if !c.is_dead() && steal > 0 && c.life < c.total_life && !c.has_state(
            EntityState::Unhealable,
        ) {
            let s = if c.life.wrapping_add(steal as i32) > c.total_life {
                c.total_life.wrapping_sub(c.life) as int
            } else {
                steal
            };
            if s > 0 {
                self.logged(heal_row(caster, s)).healed(caster, s as i32)
            } else {
                self
            }
        } else {
            self
        }
    }

    /// Damage comes back to the caster.
    pub open spec fn struck_back(self, caster: int, amount: int, rate: Real, target: usize) -> World {
        let c = self.fighters[caster];
        if amount > 0 && !c.has_state(EntityState::Invincible) {
            let r = crate::power::at_most(amount, c.life as int);
            if r > 0 {
                let e = crate::power::eroded(r, rate);
                self.logged(damage_row(DamageType::Return, caster, r, e)).hurt(
                    caster,
                    r as i32,
                    e as i32,
                    Some(target),
                )
            } else {
                self
            }
        } else {
            self
        }
    }

    /// Direct damage: what passes the shields hurts the target, part of it
    /// comes to the caster as life, and part of the whole comes back.
    pub open spec fn direct(self, line: EffectParams, b: Blow) -> (World, int) {
        let c = self.fighters[b.caster as int];
        let t = self.fighters[b.target as int];
        let rate = line_erosion(line, b.critical);
        let d = crate::power::raw_damage(
            line.value1,
            line.value2,
            b.jet,
            c.stat(STAT_STRENGTH as int) as int,
            b.aoe,
            b.critical,
            b.count as int,
            c.stat(STAT_POWER as int) as int,
        );
        let back = if b.target == b.caster {
            0
        } else {
            crate::power::returned(d, t.stat(STAT_DAMAGE_RETURN as int) as int)
        };
        let passed = crate::power::shielded(
            d,
            t.stat(STAT_RELATIVE_SHIELD as int) as int,
            t.stat(STAT_ABSOLUTE_SHIELD as int) as int,
        );
        let felt = if t.has_state(EntityState::Invincible) {
            crate::number::nearest(false, 0, 0)
        } else {
            passed
        };
        let value = crate::power::at_most(crate::power::whole(felt), t.life as int);
        let steal = if b.target == b.caster {
            0
        } else {
            crate::power::stolen(value, c.stat(STAT_WISDOM as int) as int)
        };
        let erosion = crate::power::eroded(value, rate);
        (
            self.logged(damage_row(DamageType::Direct, b.target as int, value, erosion)).hurt(
                b.target as int,
                value as i32,
                erosion as i32,
                Some(b.caster),
            ).life_stolen(b.caster as int, steal).struck_back(
                b.caster as int,
                back,
                rate,
                b.target,
            ),
            value,
        )
    }

    /// Damage measured by the life of the caster. An invincible target sends
    /// nothing back.
    pub open spec fn life_drawn(self, line: EffectParams, b: Blow) -> (World, int) {
        let c = self.fighters[b.caster as int];
        let t = self.fighters[b.target as int];
        let rate = line_erosion(line, b.critical);
        let d = if t.has_state(EntityState::Invincible) {
            crate::number::nearest(false, 0, 0)
        } else {
            crate::power::raw_life_damage(
                line.value1,
                line.value2,
                b.jet,
                c.life as int,
                b.aoe,
                b.critical,
                c.stat(STAT_POWER as int) as int,
            )
        };
        let back = if b.target == b.caster {
            0
        } else {
            crate::power::returned(d, t.stat(STAT_DAMAGE_RETURN as int) as int)
        };
        let passed = crate::power::shielded(
            d,
            t.stat(STAT_RELATIVE_SHIELD as int) as int,
            t.stat(STAT_ABSOLUTE_SHIELD as int) as int,
        );
        let value = crate::power::at_most(crate::power::whole(passed), t.life as int);
        let erosion = crate::power::eroded(value, rate);
        (
            self.logged(damage_row(DamageType::Life, b.target as int, value, erosion)).hurt(
                b.target as int,
                value as i32,
                erosion as i32,
                Some(b.caster),
            ).struck_back(b.caster as int, back, rate, b.target),
            value,
        )
    }

    /// Life that is given back: at once, or later in every turn.
    pub open spec fn restored(self, line: EffectParams, b: Blow) -> (World, int) {
        let t = self.fighters[b.target as int];
        let value = crate::power::at_least(
            crate::power::healing(
                line.value1,
                line.value2,
                b.jet,
                self.fighters[b.caster as int].stat(STAT_WISDOM as int) as int,
                b.aoe,
                b.critical,
                b.count as int,
            ),
            0,
        );
        if line.turns != 0 || t.has_state(EntityState::Unhealable) {
            (self, value)
        } else {
            let v = crate::power::at_most(value, t.total_life.wrapping_sub(t.life) as int);
            (
                self.logged(heal_row(b.target as int, v)).healed(b.target as int, v as i32),
                v,
            )
        }
    }

    /// Life and total life rise together.
    pub open spec fn vitalised(self, line: EffectParams, b: Blow) -> (World, int) {
        let value = crate::power::at_least(
            crate::power::scaled(
                line.value1,
                line.value2,
                b.jet,
                self.fighters[b.caster as int].stat(STAT_WISDOM as int) as int,
                b.aoe,
                b.critical,
            ),
            0,
        );
        (
            self.logged(
                crate::json::row(
                    seq![crate::actions::VITALITY as int, b.target as int, value],
                ),
            ).total_raised(b.target as int, value as i32).healed(b.target as int, value as i32),
            value,
        )
    }

    /// Effects on the target lose a share.
    pub open spec fn debuffed(self, line: EffectParams, b: Blow, total: bool) -> (World, int) {
        let value = crate::power::debuff(
            line.value1,
            line.value2,
            b.jet,
            b.aoe,
            b.critical,
            b.count as int,
        );
        (
            self.all_reduced(b.target as int, crate::power::remainder(value), total).logged(
                crate::json::row(
                    seq![crate::actions::REDUCE_EFFECTS as int, b.target as int, value],
                ),
            ),
            value,
        )
    }

    /// Damage that comes back in every turn; shields do not help.
    pub open spec fn after_affected(self, line: EffectParams, b: Blow) -> (World, int) {
        let t = self.fighters[b.target as int];
        let raw = crate::power::at_least(
            crate::power::scaled(
                line.value1,
                line.value2,
                b.jet,
                self.fighters[b.caster as int].stat(STAT_SCIENCE as int) as int,
                b.aoe,
                b.critical,
            ),
            0,
        );
        let felt = if t.has_state(EntityState::Invincible) {
            0
        } else {
            raw
        };
        let value = crate::power::at_most(felt, t.life as int);
        let erosion = crate::power::eroded(value, line_erosion(line, b.critical));
        (
            self.logged(damage_row(DamageType::Poison, b.target as int, value, erosion)).hurt(
                b.target as int,
                value as i32,
                erosion as i32,
                Some(b.caster),
            ),
            value,
        )
    }

    /// Damage to the total life alone, as far as life is missing.
    pub open spec fn nova_damaged(self, line: EffectParams, b: Blow) -> (World, int) {
        let c = self.fighters[b.caster as int];
        let t = self.fighters[b.target as int];
        let d = if t.has_state(EntityState::Invincible) {
            crate::number::nearest(false, 0, 0)
        } else {
            crate::power::boosted(
                line.value1,
                line.value2,
                b.jet,
                c.stat(STAT_SCIENCE as int) as int,
                b.aoe,
                b.critical,
                c.stat(STAT_POWER as int) as int,
            )
        };
        let value = crate::power::at_most(
            crate::power::whole(d),
            t.total_life.wrapping_sub(t.life) as int,
        );
        (
            self.logged(damage_row(DamageType::Nova, b.target as int, value, 0)).hurt(
                b.target as int,
                0,
                value as i32,
                Some(b.caster),
            ),
            value,
        )
    }

    /// The total life rises, and not the life.
    pub open spec fn nova_vitalised(self, line: EffectParams, b: Blow) -> (World, int) {
        let value = crate::power::scaled(
            line.value1,
            line.value2,
            b.jet,
            self.fighters[b.caster as int].stat(STAT_SCIENCE as int) as int,
            b.aoe,
            b.critical,
        );
        (
            self.logged(
                crate::json::row(
                    seq![crate::actions::NOVA_VITALITY as int, b.target as int, value],
                ),
            ).total_raised(b.target as int, value as i32),
            value,
        )
    }

    /// An amount of life, as far as there is room for it, is reported and
    /// given.
    pub open spec fn filled(self, target: int, amount: int) -> (World, int) {
        let t = self.fighters[target];
        let v = if t.life.wrapping_add(amount as i32) > t.total_life {
            t.total_life.wrapping_sub(t.life) as int
        } else {
            amount
        };
        (self.logged(heal_row(target, v)).healed(target, v as i32), v)
    }

    /// The characteristics of the target are multiplied, and so is its total
    /// life, of which it keeps its share.
    pub open spec fn multiplied(self, target: int, factor: int) -> Impact {
        if factor <= 1 {
            self.plain(0)
        } else {
            let f = self.fighters[target];
            let gains = multiplied_stats(f.base_stats, factor);
            let base = f.base_stats[STAT_LIFE as int];
            let delta = if f.total_life <= base {
                base.wrapping_mul((factor - 1) as i32)
            } else {
                base
            };
            let total = f.total_life.wrapping_add(delta);
            let gain = (crate::power::kept_share(
                f.life as int,
                f.total_life as int,
                total as int,
            ) as i32).wrapping_sub(f.life);
            let w = self.with_fighter(
                target,
                FighterView {
                    buff_stats: crate::fighter::summed(f.buff_stats, gains),
                    total_life: total,
                    ..f
                },
            );
            Impact {
                world: if gain > 0 {
                    w.healed(target, gain)
                } else {
                    w
                },
                value: factor as i32,
                stats: gains,
                state: None,
            }
        }
    }

    /// What a line of an attack does to its target. One that nothing models
    /// is only noted.
    #[verifier::opaque]
    pub open spec fn impact(self, line: EffectParams, b: Blow) -> Impact {
        if line.castable() {
            self.known_impact(line, b)
        } else {
            World { unmodelled: true, ..self }.plain(0)
        }
    }

    /// What a line of an attack that is modelled does to its target.
    pub open spec fn known_impact(self, line: EffectParams, b: Blow) -> Impact {
        let c = self.fighters[b.caster as int];
        let t = self.fighters[b.target as int];
        let target = b.target as int;
        match carrier(line.effect, c) {
            Some(how) => self.carried(
                target,
                crate::power::scaled(
                    line.value1,
                    line.value2,
                    b.jet,
                    how.0 as int,
                    b.aoe,
                    b.critical,
                ),
                how.1 as int,
                how.2,
            ),
            None => match line.effect {
                EffectType::Damage => self.direct(line, b).0.plain(self.direct(line, b).1),
                EffectType::LifeDamage => self.life_drawn(line, b).0.plain(
                    self.life_drawn(line, b).1,
                ),
                EffectType::Poison => self.plain(
                    crate::power::whole(
                        crate::power::boosted(
                            line.value1,
                            line.value2,
                            b.jet,
                            c.stat(STAT_MAGIC as int) as int,
                            b.aoe,
                            b.critical,
                            c.stat(STAT_POWER as int) as int,
                        ),
                    ),
                ),
                EffectType::Heal => self.restored(line, b).0.plain(self.restored(line, b).1),
                EffectType::Vitality => self.vitalised(line, b).0.plain(
                    self.vitalised(line, b).1,
                ),
                EffectType::Debuff => self.debuffed(line, b, false).0.plain(
                    self.debuffed(line, b, false).1,
                ),
                EffectType::TotalDebuff => self.debuffed(line, b, true).0.plain(
                    self.debuffed(line, b, true).1,
                ),
                EffectType::Antidote => self.purged_from(target, false, 0).logged(
                    crate::json::row(seq![crate::actions::REMOVE_POISONS as int, target]),
                ).plain(0),
                EffectType::RemoveShackles => self.purged_from(target, true, 0).logged(
                    crate::json::row(seq![crate::actions::REMOVE_SHACKLES as int, target]),
                ).plain(0),
                EffectType::AddState => {
                    let s = crate::attack::state_at(line.whole());
                    Impact {
                        state: Some(s),
                        ..self.with_fighter(
                            target,
                            FighterView { states: t.states.push(s), ..t },
                        ).plain(line.whole())
                    }
                },
                EffectType::Permutation => self.inverted(b.caster as int, target).plain(0),
                EffectType::Aftereffect => self.after_affected(line, b).0.plain(
                    self.after_affected(line, b).1,
                ),
                EffectType::Kill => self.logged(
                    crate::json::row(seq![crate::actions::KILL as int, target, target]),
                ).hurt(target, t.life, 0, Some(b.caster)).plain(t.life as int),
                EffectType::NovaDamage => self.nova_damaged(line, b).0.plain(
                    self.nova_damaged(line, b).1,
                ),
                EffectType::NovaVitality => self.nova_vitalised(line, b).0.plain(
                    self.nova_vitalised(line, b).1,
                ),
                EffectType::RawBuffMp => self.carried(
                    target,
                    crate::power::raw_points(
                        line.value1,
                        line.value2,
                        b.jet,
                        b.critical,
                        b.count as int,
                    ),
                    STAT_MP as int,
                    1,
                ),
                EffectType::RawBuffTp => self.carried(
                    target,
                    crate::power::raw_points(
                        line.value1,
                        line.value2,
                        b.jet,
                        b.critical,
                        b.count as int,
                    ),
                    STAT_TP as int,
                    1,
                ),
                EffectType::RawHeal => if t.has_state(EntityState::Unhealable) {
                    self.plain(0)
                } else {
                    let amount = crate::power::raw_healing(
                        line.value1,
                        line.value2,
                        b.jet,
                        b.aoe,
                        b.critical,
                        b.count as int,
                    );
                    self.filled(target, amount).0.plain(self.filled(target, amount).1)
                },
                EffectType::StealLife => if t.has_state(EntityState::Unhealable) {
                    self.plain(0)
                } else if b.previous > 0 {
                    self.filled(target, b.previous as int).0.plain(
                        self.filled(target, b.previous as int).1,
                    )
                } else {
                    self.plain(b.previous as int)
                },
                EffectType::StealAbsoluteShield => self.carried(
                    target,
                    b.previous as int,
                    STAT_ABSOLUTE_SHIELD as int,
                    1,
                ),
                EffectType::MultiplyStats => self.multiplied(target, line.whole()),
                _ => self.plain(0),
            },
        }
    }

    /// An effect that is already there grows.
    pub open spec fn merged(self, ei: int, added: i32) -> World {
        let e = self.effects[ei];
        self.with_effect(
            ei,
            EffectView {
                value: e.value.wrapping_add(added),
                stats: merged_stats(e.stats, added),
                ..e
            },
        ).logged(
            crate::json::row(
                seq![crate::actions::STACK_EFFECT as int, e.log_id as int, added as int],
            ),
        )
    }

    /// A new effect on its target.
    pub open spec fn stored(self, line: EffectParams, b: Blow, hit: Impact) -> World {
        let ei = self.effects.len() as usize;
        let t = self.fighters[b.target as int];
        let on = self.with_fighter(
            b.target as int,
            FighterView { effects: t.effects.push(ei), ..t },
        );
        let c = on.fighters[b.caster as int];
        let both = on.with_fighter(
            b.caster as int,
            FighterView { launched_effects: c.launched_effects.push(ei), ..c },
        );
        World {
            journal: self.journal.effect_created(
                b.attack_type.number(),
                b.item_id as int,
                b.caster as int,
                b.target as int,
                line.effect.number(),
                hit.value as int,
                line.turns as int,
                line.modifiers@ as int,
            ),
            effects: self.effects.push(
                EffectView {
                    effect: line.effect,
                    item_id: b.item_id,
                    attack_type: b.attack_type,
                    turns: line.turns,
                    value: hit.value,
                    erosion_rate: line_erosion(line, b.critical),
                    critical: b.critical,
                    caster: b.caster,
                    target: b.target,
                    stats: hit.stats,
                    log_id: self.journal.next_effect_id as u32,
                    modifiers: line.modifiers,
                    propagate: b.propagate,
                    state: hit.state,
                },
            ),
            ..both
        }
    }

    /// What becomes of an effect with a value: it makes one that is alike
    /// grow, or it stays if it lasts.
    pub open spec fn settled(self, line: EffectParams, b: Blow, hit: Impact) -> World {
        if hit.value <= 0 {
            self
        } else {
            match first_alike(
                self.fighters[b.target as int].effects,
                self.effects,
                line.effect,
                b.item_id,
                line.turns,
                b.caster,
            ) {
                Some(ei) => self.merged(ei as int, hit.value),
                None => if line.turns != 0 {
                    self.stored(line, b, hit)
                } else {
                    self
                },
            }
        }
    }

    /// A line of an attack strikes its target: what it replaces goes, it does
    /// what it does, and what remains of it stays.
    #[verifier::opaque]
    pub open spec fn struck(self, line: EffectParams, b: Blow) -> World {
        let hit = self.replaced(line, b).impact(line, b);
        hit.world.settled(line, b, hit)
    }

    /// The value of the effect with which a line strikes its target.
    #[verifier::opaque]
    pub open spec fn strike_value(self, line: EffectParams, b: Blow) -> i32 {
        self.replaced(line, b).impact(line, b).value
    }
}

/// The value of an effect and what it carries.
struct Mark {
    value: i32,
    stats: Stats,
    state: Option<EntityState>,
}

impl Mark {
    spec fn of(self, hit: Impact) -> bool {
        self.value == hit.value && self.stats@ == hit.stats && self.state == hit.state
    }

    fn plain(value: i32) -> (m: Mark)
        ensures
            m.value == value,
            m.stats@ == crate::fighter::no_stats(),
            m.state is None,
    {
        Mark { value, stats: Stats::default(), state: None }
    }
}

fn least(v: i32, low: i32) -> (r: i32)
    ensures
        r == crate::power::at_least(v as int, low as int),
{
    if v < low {
        low
    } else {
        v
    }
}

fn most(v: i32, high: i32) -> (r: i32)
    ensures
        r == crate::power::at_most(v as int, high as int),
{
    if v > high {
        high
    } else {
        v
    }
}

impl State {
    /// Changes a characteristic that effects have changed.
    fn bump(&mut self, fid: usize, stat: usize, delta: i32)
        requires
            old(self).wf(),
            fid < old(self)@.fighters.len(),
            stat < STAT_COUNT,
        ensures
            final(self).wf(),
            final(self)@.extends(old(self)@),
            final(self)@ == old(self)@.bumped(fid as int, stat as int, delta),
    {
        let ghost w = self@;
        assert(w.fighters[fid as int] == self.fighters@[fid as int]@);
        self.fighters[fid].buff_stats.update(stat, delta);
        proof {
            assert(self@.fighters =~= w.bumped(fid as int, stat as int, delta).fighters);
            assert(self@ =~= w.bumped(fid as int, stat as int, delta));
        }
    }

    /// Changes the total life.
    fn raise_total(&mut self, fid: usize, delta: i32)
        requires
            old(self).wf(),
            fid < old(self)@.fighters.len(),
        ensures
            final(self).wf(),
            final(self)@.extends(old(self)@),
            final(self)@ == old(self)@.total_raised(fid as int, delta),
    {
        let ghost w = self@;
        assert(w.fighters[fid as int] == self.fighters@[fid as int]@);
        self.fighters[fid].total_life = self.fighters[fid].total_life.wrapping_add(delta);
        proof {
            assert(self@.fighters =~= w.total_raised(fid as int, delta).fighters);
            assert(self@ =~= w.total_raised(fid as int, delta));
        }
    }

    /// The first effect on a fighter that is of a kind and from an item.
    fn find_kind(&self, fid: usize, kind: EffectType, item_id: i32) -> (found: Option<usize>)
        requires
            self.wf(),
            fid < self@.fighters.len(),
        ensures
            found == first_of_kind(
                self@.fighters[fid as int].effects,
                self@.effects,
                kind,
                item_id,
            ),
            found matches Some(ei) ==> ei < self@.effects.len(),
    {
        let ghost w = self@;
        let ghost list = w.fighters[fid as int].effects;
        assert(w.fighters[fid as int] == self.fighters@[fid as int]@);
        assert(w.fighters[fid as int].fits(
            fid as int,
            w.teams.len() as int,
            w.board.cells.len() as int,
            w.effects.len() as int,
        ));
        let mut i: usize = 0;
        assert(list.take(0) =~= Seq::<usize>::empty());
        while i < self.fighters[fid].effects.len()
            invariant
                self.wf(),
                w == self@,
                fid < w.fighters.len(),
                list == self.fighters@[fid as int].effects@,
                crate::fighter::all_below(list, w.effects.len() as int),
                i <= list.len(),
                first_of_kind(list.take(i as int), w.effects, kind, item_id) is None,
            decreases list.len() - i,
        {
            let ei: usize = self.fighters[fid].effects[i];
            assert(list.take(i + 1).drop_last() =~= list.take(i as int));
            assert(list[i as int] < w.effects.len());
            assert(w.effects[ei as int] == self.effects@[ei as int]@);
            if self.effects[ei].effect == kind && self.effects[ei].item_id == item_id {
                proof {
                    lemma_kind_extends(list, i + 1, w.effects, kind, item_id);
                }
                return Some(ei);
            }
            i += 1;
        }
        assert(list.take(i as int) =~= list);
        None
    }

    /// The first effect on a fighter that could grow by a new one.
    fn find_alike(&self, fid: usize, kind: EffectType, item_id: i32, turns: i32, caster: usize)
        -> (found: Option<usize>)
        requires
            self.wf(),
            fid < self@.fighters.len(),
        ensures
            found == first_alike(
                self@.fighters[fid as int].effects,
                self@.effects,
                kind,
                item_id,
                turns,
                caster,
            ),
            found matches Some(ei) ==> ei < self@.effects.len(),
    {
        let ghost w = self@;
        let ghost list = w.fighters[fid as int].effects;
        assert(w.fighters[fid as int] == self.fighters@[fid as int]@);
        assert(w.fighters[fid as int].fits(
            fid as int,
            w.teams.len() as int,
            w.board.cells.len() as int,
            w.effects.len() as int,
        ));
        let mut i: usize = 0;
        assert(list.take(0) =~= Seq::<usize>::empty());
        while i < self.fighters[fid].effects.len()
            invariant
                self.wf(),
                w == self@,
                fid < w.fighters.len(),
                list == self.fighters@[fid as int].effects@,
                crate::fighter::all_below(list, w.effects.len() as int),
                i <= list.len(),
                first_alike(list.take(i as int), w.effects, kind, item_id, turns, caster) is None,
            decreases list.len() - i,
        {
            let ei: usize = self.fighters[fid].effects[i];
            assert(list.take(i + 1).drop_last() =~= list.take(i as int));
            assert(list[i as int] < w.effects.len());
            assert(w.effects[ei as int] == self.effects@[ei as int]@);
            if self.effects[ei].item_id == item_id && self.effects[ei].effect == kind
                && self.effects[ei].turns == turns && self.effects[ei].caster == caster {
                proof {
                    lemma_alike_extends(list, i + 1, w.effects, kind, item_id, turns, caster);
                }
                return Some(ei);
            }
            i += 1;
        }
        assert(list.take(i as int) =~= list);
        None
    }

    /// Gives the caster part of the damage as life.
    fn steal_life(&mut self, caster: usize, steal: i32)
        requires
            old(self).wf(),
            caster < old(self)@.fighters.len(),
        ensures
            final(self).wf(),
            final(self)@.extends(old(self)@),
            final(self)@ == old(self)@.life_stolen(caster as int, steal as int),
    {
        let ghost w = self@;
        assert(w.fighters[caster as int] == self.fighters@[caster as int]@);
        if !self.fighters[caster].is_dead() && steal > 0 && self.fighters[caster].life
            < self.fighters[caster].total_life && !self.fighters[caster].has_state(
            EntityState::Unhealable,
        ) {
            let life: i32 = self.fighters[caster].life;
            let total: i32 = self.fighters[caster].total_life;
            let s: i32 = if life.wrapping_add(steal) > total {
                total.wrapping_sub(life)
            } else {
                steal
            };
            if s > 0 {
                self.log(Action::Heal { target_id: caster as i64, life: s });
                self.heal(caster, s);
            }
        }
    }

    /// Sends damage back to the caster.
    fn strike_back(&mut self, caster: usize, amount: i32, rate: Real, target: usize)
        requires
            old(self).wf(),
            caster < old(self)@.fighters.len(),
            target < old(self)@.fighters.len(),
            rate.within(100),
        ensures
            final(self).wf(),
            final(self)@.extends(old(self)@),
            final(self)@ == old(self)@.struck_back(caster as int, amount as int, rate, target),
    {
        let ghost w = self@;
        assert(w.fighters[caster as int] == self.fighters@[caster as int]@);
        if amount > 0 && !self.fighters[caster].has_state(EntityState::Invincible) {
            let r: i32 = most(amount, self.fighters[caster].life);
            if r > 0 {
                let erosion: i32 = crate::power::erosion_of(r, rate);
                self.log(
                    Action::Damage {
                        damage_type: DamageType::Return,
                        target_id: caster as i64,
                        pv: r,
                        erosion,
                    },
                );
                self.remove_life(caster, r, erosion, Some(target));
            }
        }
    }

    /// Direct damage; returns what it came to.
    fn apply_effect_damage(&mut self, line: &EffectParams, b: Blow) -> (value: i32)
        requires
            old(self).wf(),
            line.wf(),
            b.fits(old(self)@.fighters.len() as int),
        ensures
            final(self).wf(),
            final(self)@.extends(old(self)@),
            final(self)@ == old(self)@.direct(*line, b).0,
            value == old(self)@.direct(*line, b).1,
    {
        let ghost w = self@;
        assert(w.fighters[b.caster as int] == self.fighters@[b.caster as int]@);
        assert(w.fighters[b.target as int] == self.fighters@[b.target as int]@);
        let rate: Real = crate::power::rate_of_erosion(
            matches!(line.effect, EffectType::Poison),
            b.critical,
        );
        let d: Real = crate::power::damage_power(
            line.value1,
            line.value2,
            b.jet,
            self.fighters[b.caster].stat(STAT_STRENGTH),
            b.aoe,
            b.critical,
            b.count,
            self.fighters[b.caster].stat(STAT_POWER),
        );
        let back: i32 = if b.target == b.caster {
            0
        } else {
            crate::power::returned_damage(d, self.fighters[b.target].stat(STAT_DAMAGE_RETURN))
        };
        let passed: Real = crate::power::behind_shields(
            d,
            self.fighters[b.target].stat(STAT_RELATIVE_SHIELD),
            self.fighters[b.target].stat(STAT_ABSOLUTE_SHIELD),
        );
        let felt: Real = if self.fighters[b.target].has_state(EntityState::Invincible) {
            Real::zero()
        } else {
            passed
        };
        let value: i32 = most(crate::power::whole_of(felt), self.fighters[b.target].life);
        let steal: i32 = if b.target == b.caster {
            0
        } else {
            crate::power::stolen_life(value, self.fighters[b.caster].stat(STAT_WISDOM))
        };
        let erosion: i32 = crate::power::erosion_of(value, rate);
        self.log(
            Action::Damage {
                damage_type: DamageType::Direct,
                target_id: b.target as i64,
                pv: value,
                erosion,
            },
        );
        self.remove_life(b.target, value, erosion, Some(b.caster));
        self.steal_life(b.caster, steal);
        self.strike_back(b.caster, back, rate, b.target);
        value
    }

    /// Damage measured by the life of the caster; returns what it came to.
    fn apply_effect_life_damage(&mut self, line: &EffectParams, b: Blow) -> (value: i32)
        requires
            old(self).wf(),
            line.wf(),
            b.fits(old(self)@.fighters.len() as int),
        ensures
            final(self).wf(),
            final(self)@.extends(old(self)@),
            final(self)@ == old(self)@.life_drawn(*line, b).0,
            value == old(self)@.life_drawn(*line, b).1,
    {
        let ghost w = self@;
        assert(w.fighters[b.caster as int] == self.fighters@[b.caster as int]@);
        assert(w.fighters[b.target as int] == self.fighters@[b.target as int]@);
        let rate: Real = crate::power::rate_of_erosion(
            matches!(line.effect, EffectType::Poison),
            b.critical,
        );
        let d: Real = if self.fighters[b.target].has_state(EntityState::Invincible) {
            Real::zero()
        } else {
            crate::power::life_damage_power(
                line.value1,
                line.value2,
                b.jet,
                self.fighters[b.caster].life,
                b.aoe,
                b.critical,
                self.fighters[b.caster].stat(STAT_POWER),
            )
        };
        let back: i32 = if b.target == b.caster {
            0
        } else {
            crate::power::returned_damage(d, self.fighters[b.target].stat(STAT_DAMAGE_RETURN))
        };
        let passed: Real = crate::power::behind_shields(
            d,
            self.fighters[b.target].stat(STAT_RELATIVE_SHIELD),
            self.fighters[b.target].stat(STAT_ABSOLUTE_SHIELD),
        );
        let value: i32 = most(crate::power::whole_of(passed), self.fighters[b.target].life);
        let erosion: i32 = crate::power::erosion_of(value, rate);
        self.log(
            Action::Damage {
                damage_type: DamageType::Life,
                target_id: b.target as i64,
                pv: value,
                erosion,
            },
        );
        self.remove_life(b.target, value, erosion, Some(b.caster));
        self.strike_back(b.caster, back, rate, b.target);
        value
    }

    /// Gives life back, at once or in every turn; returns how much.
    fn apply_effect_heal(&mut self, line: &EffectParams, b: Blow) -> (value: i32)
        requires
            old(self).wf(),
            line.wf(),
            b.fits(old(self)@.fighters.len() as int),
        ensures
            final(self).wf(),
            final(self)@.extends(old(self)@),
            final(self)@ == old(self)@.restored(*line, b).0,
            value == old(self)@.restored(*line, b).1,
    {
        let ghost w = self@;
        assert(w.fighters[b.caster as int] == self.fighters@[b.caster as int]@);
        assert(w.fighters[b.target as int] == self.fighters@[b.target as int]@);
        let value: i32 = least(
            crate::power::healing_value(
                line.value1,
                line.value2,
                b.jet,
                self.fighters[b.caster].stat(STAT_WISDOM),
                b.aoe,
                b.critical,
                b.count,
            ),
            0,
        );
        if line.turns != 0 || self.fighters[b.target].has_state(EntityState::Unhealable) {
            return value;
        }
        let v: i32 = most(
            value,
            self.fighters[b.target].total_life.wrapping_sub(self.fighters[b.target].life),
        );
        self.log(Action::Heal { target_id: b.target as i64, life: v });
        self.heal(b.target, v);
        v
    }

    /// Raises life and total life; returns by how much.
    fn apply_effect_vitality(&mut self, line: &EffectParams, b: Blow) -> (value: i32)
        requires
            old(self).wf(),
            line.wf(),
            b.fits(old(self)@.fighters.len() as int),
        ensures
            final(self).wf(),
            final(self)@.extends(old(self)@),
            final(self)@ == old(self)@.vitalised(*line, b).0,
            value == old(self)@.vitalised(*line, b).1,
    {
        let ghost w = self@;
        assert(w.fighters[b.caster as int] == self.fighters@[b.caster as int]@);
        let value: i32 = least(
            crate::power::scaled_value(
                line.value1,
                line.value2,
                b.jet,
                self.fighters[b.caster].stat(STAT_WISDOM),
                b.aoe,
                b.critical,
            ),
            0,
        );
        self.log(Action::Vitality { target_id: b.target as i64, life: value });
        self.raise_total(b.target, value);
        self.heal(b.target, value);
        value
    }

    /// Takes a share of the effects on the target; returns the share.
    fn apply_effect_debuff(&mut self, line: &EffectParams, b: Blow, total: bool) -> (value: i32)
        requires
            old(self).wf(),
            line.wf(),
            b.fits(old(self)@.fighters.len() as int),
        ensures
            final(self).wf(),
            final(self)@.extends(old(self)@),
            final(self)@ == old(self)@.debuffed(*line, b, total).0,
            value == old(self)@.debuffed(*line, b, total).1,
    {
        let value: i32 = crate::power::debuff_value(
            line.value1,
            line.value2,
            b.jet,
            b.aoe,
            b.critical,
            b.count,
        );
        if total {
            self.reduce_effects_total(b.target, value);
        } else {
            self.reduce_effects(b.target, value);
        }
        self.log(Action::ReduceEffects { entity_id: b.target as i64, value });
        value
    }

    /// Damage that shields do not stop; returns what it came to.
    fn apply_effect_aftereffect(&mut self, line: &EffectParams, b: Blow) -> (value: i32)
        requires
            old(self).wf(),
            line.wf(),
            b.fits(old(self)@.fighters.len() as int),
        ensures
            final(self).wf(),
            final(self)@.extends(old(self)@),
            final(self)@ == old(self)@.after_affected(*line, b).0,
            value == old(self)@.after_affected(*line, b).1,
    {
        let ghost w = self@;
        assert(w.fighters[b.caster as int] == self.fighters@[b.caster as int]@);
        assert(w.fighters[b.target as int] == self.fighters@[b.target as int]@);
        let raw: i32 = least(
            crate::power::scaled_value(
                line.value1,
                line.value2,
                b.jet,
                self.fighters[b.caster].stat(STAT_SCIENCE),
                b.aoe,
                b.critical,
            ),
            0,
        );
        let felt: i32 = if self.fighters[b.target].has_state(EntityState::Invincible) {
            0
        } else {
            raw
        };
        let value: i32 = most(felt, self.fighters[b.target].life);
        let erosion: i32 = crate::power::erosion_of(
            value,
            crate::power::rate_of_erosion(matches!(line.effect, EffectType::Poison), b.critical),
        );
        self.log(
            Action::Damage {
                damage_type: DamageType::Poison,
                target_id: b.target as i64,
                pv: value,
                erosion,
            },
        );
        self.remove_life(b.target, value, erosion, Some(b.caster));
        value
    }

    /// Damage to the total life; returns what it came to.
    fn apply_effect_nova_damage(&mut self, line: &EffectParams, b: Blow) -> (value: i32)
        requires
            old(self).wf(),
            line.wf(),
            b.fits(old(self)@.fighters.len() as int),
        ensures
            final(self).wf(),
            final(self)@.extends(old(self)@),
            final(self)@ == old(self)@.nova_damaged(*line, b).0,
            value == old(self)@.nova_damaged(*line, b).1,
    {
        let ghost w = self@;
        assert(w.fighters[b.caster as int] == self.fighters@[b.caster as int]@);
        assert(w.fighters[b.target as int] == self.fighters@[b.target as int]@);
        let d: Real = if self.fighters[b.target].has_state(EntityState::Invincible) {
            Real::zero()
        } else {
            crate::power::boosted_power(
                line.value1,
                line.value2,
                b.jet,
                self.fighters[b.caster].stat(STAT_SCIENCE),
                b.aoe,
                b.critical,
                self.fighters[b.caster].stat(STAT_POWER),
            )
        };
        let value: i32 = most(
            crate::power::whole_of(d),
            self.fighters[b.target].total_life.wrapping_sub(self.fighters[b.target].life),
        );
        self.log(
            Action::Damage {
                damage_type: DamageType::Nova,
                target_id: b.target as i64,
                pv: value,
                erosion: 0,
            },
        );
        self.remove_life(b.target, 0, value, Some(b.caster));
        value
    }

    /// Raises the total life alone; returns by how much.
    fn apply_effect_nova_vitality(&mut self, line: &EffectParams, b: Blow) -> (value: i32)
        requires
            old(self).wf(),
            line.wf(),
            b.fits(old(self)@.fighters.len() as int),
        ensures
            final(self).wf(),
            final(self)@.extends(old(self)@),
            final(self)@ == old(self)@.nova_vitalised(*line, b).0,
            value == old(self)@.nova_vitalised(*line, b).1,
    {
        let ghost w = self@;
        assert(w.fighters[b.caster as int] == self.fighters@[b.caster as int]@);
        let value: i32 = crate::power::scaled_value(
            line.value1,
            line.value2,
            b.jet,
            self.fighters[b.caster].stat(STAT_SCIENCE),
            b.aoe,
            b.critical,
        );
        self.log(Action::NovaVitality { target_id: b.target as i64, life: value });
        self.raise_total(b.target, value);
        value
    }

    /// Gives an amount of life, as far as there is room; returns how much.
    fn fill(&mut self, target: usize, amount: i32) -> (value: i32)
        requires
            old(self).wf(),
            target < old(self)@.fighters.len(),
        ensures
            final(self).wf(),
            final(self)@.extends(old(self)@),
            final(self)@ == old(self)@.filled(target as int, amount as int).0,
            value == old(self)@.filled(target as int, amount as int).1,
    {
        let ghost w = self@;
        assert(w.fighters[target as int] == self.fighters@[target as int]@);
        let life: i32 = self.fighters[target].life;
        let total: i32 = self.fighters[target].total_life;
        let v: i32 = if life.wrapping_add(amount) > total {
            total.wrapping_sub(life)
        } else {
            amount
        };
        self.log(Action::Heal { target_id: target as i64, life: v });
        self.heal(target, v);
        v
    }
}

/// What is found first in the beginning of a list is found first in the list.
proof fn lemma_kind_extends(
    list: Seq<usize>,
    n: int,
    effects: Seq<EffectView>,
    kind: EffectType,
    item_id: i32,
)
    requires
        0 <= n <= list.len(),
        first_of_kind(list.take(n), effects, kind, item_id) is Some,
    ensures
        first_of_kind(list, effects, kind, item_id) == first_of_kind(
            list.take(n),
            effects,
            kind,
            item_id,
        ),
    decreases list.len(),
{
    if n < list.len() {
        assert(list.drop_last().take(n) =~= list.take(n));
        lemma_kind_extends(list.drop_last(), n, effects, kind, item_id);
    } else {
        assert(list.take(n) =~= list);
    }
}

/// What is found first in the beginning of a list is found first in the list.
proof fn lemma_alike_extends(
    list: Seq<usize>,
    n: int,
    effects: Seq<EffectView>,
    kind: EffectType,
    item_id: i32,
    turns: i32,
    caster: usize,
)
    requires
        0 <= n <= list.len(),
        first_alike(list.take(n), effects, kind, item_id, turns, caster) is Some,
    ensures
        first_alike(list, effects, kind, item_id, turns, caster) == first_alike(
            list.take(n),
            effects,
            kind,
            item_id,
            turns,
            caster,
        ),
    decreases list.len(),
{
    if n < list.len() {
        assert(list.drop_last().take(n) =~= list.take(n));
        lemma_alike_extends(list.drop_last(), n, effects, kind, item_id, turns, caster);
    } else {
        assert(list.take(n) =~= list);
    }
}

/// For effects that add to one characteristic: with which characteristic of
/// the caster they grow, to which they add, and with what sign.
fn carrier_of(kind: EffectType, c: &crate::fighter::Fighter) -> (how: Option<(i32, usize, i32)>)
    ensures
        match (how, carrier(kind, c@)) {
            (Some(h), Some(s)) => h.0 == s.0 && h.1 == s.1 && h.2 == s.2 && h.1 < STAT_COUNT && (
            h.2 == 1 || h.2 == -1),
            (None, None) => true,
            _ => false,
        },
{
    let science: i32 = c.stat(STAT_SCIENCE);
    let resistance: i32 = c.stat(STAT_RESISTANCE);
    let agility: i32 = c.stat(STAT_AGILITY);
    let magic: i32 = least(c.stat(STAT_MAGIC), 0);
    match kind {
        EffectType::BuffStrength => Some((science, STAT_STRENGTH, 1)),
        EffectType::BuffAgility => Some((science, STAT_AGILITY, 1)),
        EffectType::BuffMp => Some((science, STAT_MP, 1)),
        EffectType::BuffTp => Some((science, STAT_TP, 1)),
        EffectType::BuffWisdom => Some((science, STAT_WISDOM, 1)),
        EffectType::BuffResistance => Some((science, STAT_RESISTANCE, 1)),
        EffectType::AbsoluteShield => Some((resistance, STAT_ABSOLUTE_SHIELD, 1)),
        EffectType::RelativeShield => Some((resistance, STAT_RELATIVE_SHIELD, 1)),
        EffectType::DamageReturn => Some((agility, STAT_DAMAGE_RETURN, 1)),
        EffectType::ShackleMp => Some((magic, STAT_MP, -1)),
        EffectType::ShackleTp => Some((magic, STAT_TP, -1)),
        EffectType::ShackleStrength => Some((magic, STAT_STRENGTH, -1)),
        EffectType::ShackleAgility => Some((magic, STAT_AGILITY, -1)),
        EffectType::ShackleWisdom => Some((magic, STAT_WISDOM, -1)),
        EffectType::ShackleMagic => Some((magic, STAT_MAGIC, -1)),
        EffectType::Vulnerability => Some((0, STAT_RELATIVE_SHIELD, -1)),
        EffectType::AbsoluteVulnerability => Some((0, STAT_ABSOLUTE_SHIELD, -1)),
        EffectType::RawBuffStrength => Some((0, STAT_STRENGTH, 1)),
        EffectType::RawBuffAgility => Some((0, STAT_AGILITY, 1)),
        EffectType::RawBuffMagic => Some((0, STAT_MAGIC, 1)),
        EffectType::RawBuffScience => Some((0, STAT_SCIENCE, 1)),
        EffectType::RawBuffWisdom => Some((0, STAT_WISDOM, 1)),
        EffectType::RawBuffResistance => Some((0, STAT_RESISTANCE, 1)),
        EffectType::RawBuffPower => Some((0, STAT_POWER, 1)),
        EffectType::RawAbsoluteShield => Some((0, STAT_ABSOLUTE_SHIELD, 1)),
        EffectType::RawRelativeShield => Some((0, STAT_RELATIVE_SHIELD, 1)),
        _ => None,
    }
}

/// Whether a multiplication multiplies a characteristic.
fn is_multiplied(stat: usize) -> (b: bool)
    ensures
        b == multiplied_stat(stat as int),
{
    stat == STAT_STRENGTH || stat == STAT_AGILITY || stat == STAT_RESISTANCE || stat == STAT_WISDOM
        || stat == STAT_SCIENCE || stat == STAT_MAGIC || stat == STAT_FREQUENCY || stat == STAT_TP
        || stat == STAT_MP
}

impl State {
    /// Adds a positive value to a characteristic, and lets the effect carry
    /// it.
    fn apply_effect_stat_carrier(&mut self, target: usize, value: i32, stat: usize, sign: i32)
        -> (mark: Mark)
        requires
            old(self).wf(),
            target < old(self)@.fighters.len(),
            stat < STAT_COUNT,
            sign == 1 || sign == -1,
        ensures
            final(self).wf(),
            final(self)@.extends(old(self)@),
            final(self)@ == old(self)@.carried(
                target as int,
                value as int,
                stat as int,
                sign as int,
            ).world,
            mark.of(
                old(self)@.carried(target as int, value as int, stat as int, sign as int),
            ),
    {
        let mut mark = Mark::plain(value);
        if value > 0 {
            let signed: i32 = if sign == 1 {
                value
            } else {
                -value
            };
            assert(sign * value == signed) by (nonlinear_arith)
                requires
                    sign == 1 && signed == value || sign == -1 && signed == -value,
            ;
            mark.stats.set(stat, signed);
            self.bump(target, stat, signed);
        }
        mark
    }

    /// Multiplies the characteristics and the total life of a fighter.
    fn apply_effect_multiply(&mut self, target: usize, factor: i32) -> (mark: Mark)
        requires
            old(self).wf(),
            target < old(self)@.fighters.len(),
        ensures
            final(self).wf(),
            final(self)@.extends(old(self)@),
            final(self)@ == old(self)@.multiplied(target as int, factor as int).world,
            mark.of(old(self)@.multiplied(target as int, factor as int)),
    {
        if factor <= 1 {
            return Mark::plain(0);
        }
        let ghost w = self@;
        let ghost f = w.fighters[target as int];
        assert(f == self.fighters@[target as int]@);
        let ghost gains = multiplied_stats(f.base_stats, factor as int);
        let mut mark = Mark::plain(factor);
        let mut i: usize = 0;
        while i < STAT_COUNT
            invariant
                i <= STAT_COUNT,
                factor > 1,
                target < self.fighters@.len(),
                f == self.fighters@[target as int]@,
                gains == multiplied_stats(f.base_stats, factor as int),
                mark.value == factor,
                mark.state is None,
                forall|j: int|
                    0 <= j < STAT_COUNT ==> mark.stats@[j] == (if j < i {
                        gains[j]
                    } else {
                        0
                    }),
            decreases STAT_COUNT - i,
        {
            if is_multiplied(i) {
                let gain: i32 = self.fighters[target].base_stats.get(i).wrapping_mul(factor - 1);
                if gain > 0 {
                    mark.stats.set(i, gain);
                }
            }
            i += 1;
        }
        assert(mark.stats@ =~= gains);
        let life: i32 = self.fighters[target].life;
        let total: i32 = self.fighters[target].total_life;
        let base: i32 = self.fighters[target].base_stats.get(STAT_LIFE);
        let delta: i32 = if total <= base {
            base.wrapping_mul(factor - 1)
        } else {
            base
        };
        let total_after: i32 = total.wrapping_add(delta);
        self.fighters[target].buff_stats.add(&mark.stats);
        self.fighters[target].total_life = total_after;
        proof {
            let w1 = w.with_fighter(
                target as int,
                FighterView {
                    buff_stats: crate::fighter::summed(f.buff_stats, gains),
                    total_life: total_after,
                    ..f
                },
            );
            assert(self@.fighters =~= w1.fighters);
            assert(self@ =~= w1);
        }
        let gain: i32 = crate::power::life_of_same_share(life, total, total_after).wrapping_sub(
            life,
        );
        if gain > 0 {
            self.heal(target, gain);
        }
        mark
    }

    /// Pins a state on a fighter.
    fn pin_state(&mut self, target: usize, state: EntityState)
        requires
            old(self).wf(),
            target < old(self)@.fighters.len(),
        ensures
            final(self).wf(),
            final(self)@.extends(old(self)@),
            final(self)@ == old(self)@.with_fighter(
                target as int,
                FighterView {
                    states: old(self)@.fighters[target as int].states.push(state),
                    ..old(self)@.fighters[target as int]
                },
            ),
    {
        let ghost w = self@;
        assert(w.fighters[target as int] == self.fighters@[target as int]@);
        self.fighters[target].states.push(state);
        proof {
            let w1 = w.with_fighter(
                target as int,
                FighterView {
                    states: w.fighters[target as int].states.push(state),
                    ..w.fighters[target as int]
                },
            );
            assert(self@.fighters =~= w1.fighters);
            assert(self@ =~= w1);
        }
    }

    /// Notes that something happened that nothing models.
    pub(crate) fn note_unmodelled(&mut self)
        requires
            old(self).wf(),
        ensures
            final(self).wf(),
            final(self)@.extends(old(self)@),
            final(self)@ == (World { unmodelled: true, ..old(self)@ }),
    {
        let ghost w = self@;
        self.unmodelled = true;
        assert(self@ =~= (World { unmodelled: true, ..w }));
    }

    /// Does what a line of an attack does to its target; one that nothing
    /// models is only noted.
    #[verifier::rlimit(40)]
    fn apply_line(&mut self, line: &EffectParams, b: Blow) -> (mark: Mark)
        requires
            old(self).wf(),
            line.wf(),
            b.fits(old(self)@.fighters.len() as int),
        ensures
            final(self).wf(),
            final(self)@.extends(old(self)@),
            final(self)@ == old(self)@.impact(*line, b).world,
            mark.of(old(self)@.impact(*line, b)),
    {
        reveal(World::impact);
        let ghost w = self@;
        assert(w.fighters[b.caster as int] == self.fighters@[b.caster as int]@);
        assert(w.fighters[b.target as int] == self.fighters@[b.target as int]@);
        let target: usize = b.target;
        if !line.is_castable() {
            self.note_unmodelled();
            return Mark::plain(0);
        }
        if let Some(how) = carrier_of(line.effect, &self.fighters[b.caster]) {
            let value: i32 = crate::power::scaled_value(
                line.value1,
                line.value2,
                b.jet,
                how.0,
                b.aoe,
                b.critical,
            );
            return self.apply_effect_stat_carrier(target, value, how.1, how.2);
        }
        match line.effect {
            EffectType::Damage => Mark::plain(self.apply_effect_damage(line, b)),
            EffectType::LifeDamage => Mark::plain(self.apply_effect_life_damage(line, b)),
            EffectType::Poison => Mark::plain(
                crate::power::whole_of(
                    crate::power::boosted_power(
                        line.value1,
                        line.value2,
                        b.jet,
                        self.fighters[b.caster].stat(STAT_MAGIC),
                        b.aoe,
                        b.critical,
                        self.fighters[b.caster].stat(STAT_POWER),
                    ),
                ),
            ),
            EffectType::Heal => Mark::plain(self.apply_effect_heal(line, b)),
            EffectType::Vitality => Mark::plain(self.apply_effect_vitality(line, b)),
            EffectType::Debuff => Mark::plain(self.apply_effect_debuff(line, b, false)),
            EffectType::TotalDebuff => Mark::plain(self.apply_effect_debuff(line, b, true)),
            EffectType::Antidote => {
                self.clear_poisons(target);
                self.log(Action::RemovePoisons { entity_id: target as i64 });
                Mark::plain(0)
            },
            EffectType::RemoveShackles => {
                self.remove_shackles(target);
                self.log(Action::RemoveShackles { entity_id: target as i64 });
                Mark::plain(0)
            },
            EffectType::AddState => {
                let ordinal: i32 = line.value1.trunc_i32();
                let state: EntityState = EntityState::from_ordinal(ordinal);
                proof {
                    crate::attack::lemma_ordinals_unique(
                        state,
                        crate::attack::state_at(ordinal as int),
                    );
                }
                self.pin_state(target, state);
                let mut mark = Mark::plain(ordinal);
                mark.state = Some(state);
                mark
            },
            EffectType::Permutation => {
                self.invert_entities(b.caster, target);
                Mark::plain(0)
            },
            EffectType::Aftereffect => Mark::plain(self.apply_effect_aftereffect(line, b)),
            EffectType::Kill => {
                let life: i32 = self.fighters[target].life;
                self.log(Action::Kill { caster_id: target as i64, target_id: target as i64 });
                self.remove_life(target, life, 0, Some(b.caster));
                Mark::plain(life)
            },
            EffectType::NovaDamage => Mark::plain(self.apply_effect_nova_damage(line, b)),
            EffectType::NovaVitality => Mark::plain(self.apply_effect_nova_vitality(line, b)),
            EffectType::RawBuffMp => {
                let value: i32 = crate::power::raw_points_value(
                    line.value1,
                    line.value2,
                    b.jet,
                    b.critical,
                    b.count,
                );
                self.apply_effect_stat_carrier(target, value, STAT_MP, 1)
            },
            EffectType::RawBuffTp => {
                let value: i32 = crate::power::raw_points_value(
                    line.value1,
                    line.value2,
                    b.jet,
                    b.critical,
                    b.count,
                );
                self.apply_effect_stat_carrier(target, value, STAT_TP, 1)
            },
            EffectType::RawHeal => {
                if self.fighters[target].has_state(EntityState::Unhealable) {
                    Mark::plain(0)
                } else {
                    let amount: i32 = crate::power::raw_healing_value(
                        line.value1,
                        line.value2,
                        b.jet,
                        b.aoe,
                        b.critical,
                        b.count,
                    );
                    Mark::plain(self.fill(target, amount))
                }
            },
            EffectType::StealLife => {
                if self.fighters[target].has_state(EntityState::Unhealable) {
                    Mark::plain(0)
                } else if b.previous > 0 {
                    Mark::plain(self.fill(target, b.previous))
                } else {
                    Mark::plain(b.previous)
                }
            },
            EffectType::StealAbsoluteShield => self.apply_effect_stat_carrier(
                target,
                b.previous,
                STAT_ABSOLUTE_SHIELD,
                1,
            ),
            EffectType::MultiplyStats => self.apply_effect_multiply(
                target,
                line.value1.trunc_i32(),
            ),
            _ => Mark::plain(0),
        }
    }

    /// Takes off an effect of the same kind and item, where only one may
    /// stay.
    fn replace_previous(&mut self, line: &EffectParams, b: Blow)
        requires
            old(self).wf(),
            b.fits(old(self)@.fighters.len() as int),
        ensures
            final(self).wf(),
            final(self)@.extends(old(self)@),
            final(self)@ == old(self)@.replaced(*line, b),
    {
        if line.turns != 0 && !b.stackable {
            if let Some(ei) = self.find_kind(b.target, line.effect, b.item_id) {
                self.forget_effect(ei);
                self.remove_effect(b.target, ei);
            }
        }
    }

    /// Lets an effect that is already there grow.
    fn merge_effect(&mut self, ei: usize, added: i32)
        requires
            old(self).wf(),
            ei < old(self)@.effects.len(),
        ensures
            final(self).wf(),
            final(self)@.extends(old(self)@),
            final(self)@ == old(self)@.merged(ei as int, added),
    {
        let ghost w = self@;
        let ghost e = w.effects[ei as int];
        assert(e == self.effects@[ei as int]@);
        assert(e.fits(w.fighters.len() as int));
        let mut stats: Stats = self.effects[ei].stats;
        let mut i: usize = 0;
        while i < STAT_COUNT
            invariant
                i <= STAT_COUNT,
                e.stats.len() == STAT_COUNT,
                forall|j: int|
                    0 <= j < STAT_COUNT ==> stats@[j] == (if j < i {
                        merged_stats(e.stats, added)[j]
                    } else {
                        e.stats[j]
                    }),
            decreases STAT_COUNT - i,
        {
            let v: i32 = stats.get(i);
            if v != 0 {
                let sign: i32 = if v < 0 {
                    -1
                } else {
                    1
                };
                stats.update(i, added.wrapping_mul(sign));
            }
            i += 1;
        }
        assert(stats@ =~= merged_stats(e.stats, added));
        self.effects[ei].value = self.effects[ei].value.wrapping_add(added);
        self.effects[ei].stats = stats;
        proof {
            let w1 = w.with_effect(
                ei as int,
                EffectView {
                    value: e.value.wrapping_add(added),
                    stats: merged_stats(e.stats, added),
                    ..e
                },
            );
            assert(self@.effects =~= w1.effects);
            assert(self@ =~= w1);
        }
        self.log(Action::StackEffect { log_id: self.effects[ei].log_id, value: added });
    }

    /// Puts a new effect on its target.
    fn store_effect(&mut self, line: &EffectParams, b: Blow, mark: Mark, Ghost(hit): Ghost<Impact>)
        requires
            old(self).wf(),
            b.fits(old(self)@.fighters.len() as int),
            mark.of(hit),
        ensures
            final(self).wf(),
            final(self)@.extends(old(self)@),
            final(self)@ == old(self)@.stored(*line, b, hit),
    {
        let ghost w = self@;
        assert(w.fighters[b.target as int] == self.fighters@[b.target as int]@);
        let ei: usize = self.effects.len();
        self.fighters[b.target].effects.push(ei);
        self.fighters[b.caster].launched_effects.push(ei);
        let log_id: u32 = self.actions.create_effect(
            b.attack_type.action_type(),
            b.item_id,
            b.caster as i64,
            b.target as i64,
            line.effect.id(),
            mark.value,
            line.turns,
            line.modifiers.bits(),
        );
        self.effects.push(
            EffectInstance {
                effect: line.effect,
                item_id: b.item_id,
                attack_type: b.attack_type,
                turns: line.turns,
                value: mark.value,
                erosion_rate: crate::power::rate_of_erosion(
                    matches!(line.effect, EffectType::Poison),
                    b.critical,
                ),
                critical: b.critical,
                caster: b.caster,
                target: b.target,
                stats: mark.stats,
                log_id,
                modifiers: line.modifiers,
                propagate: b.propagate,
                state: mark.state,
            },
        );
        proof {
            let s = w.stored(*line, b, hit);
            assert(self@.fighters =~= s.fighters);
            assert(self@.effects =~= s.effects);
            assert(self@ =~= s);
            assert forall|i: int| 0 <= i < self@.fighters.len() implies (
            #[trigger] self@.fighters[i]).fits(
                i,
                self@.teams.len() as int,
                self@.board.cells.len() as int,
                self@.effects.len() as int,
            ) by {
                assert(w.fighters[i].fits(
                    i,
                    w.teams.len() as int,
                    w.board.cells.len() as int,
                    w.effects.len() as int,
                ));
            }
        }
    }

    /// Keeps what remains of a line that has struck: an effect that is already
    /// there grows, or a new one is put on the target.
    #[verifier::spinoff_prover]
    fn keep_effect(&mut self, line: &EffectParams, b: Blow, mark: Mark, Ghost(hit): Ghost<Impact>)
        requires
            old(self).wf(),
            b.fits(old(self)@.fighters.len() as int),
            mark.of(hit),
        ensures
            final(self).wf(),
            final(self)@.extends(old(self)@),
            final(self)@ == old(self)@.settled(*line, b, hit),
    {
        if mark.value > 0 {
            match self.find_alike(b.target, line.effect, b.item_id, line.turns, b.caster) {
                Some(ei) => {
                    self.merge_effect(ei, mark.value);
                },
                None => {
                    if line.turns != 0 {
                        self.store_effect(line, b, mark, Ghost(hit));
                    }
                },
            }
        }
    }

    /// Lets a line of an attack strike its target; returns the value of the
    /// effect. A line that nothing models is noted in
    /// [`State::unmodelled`].
    #[verifier::spinoff_prover]
    pub(crate) fn create_effect(&mut self, line: &EffectParams, b: Blow) -> (value: i32)
        requires
            old(self).wf(),
            line.wf(),
            b.fits(old(self)@.fighters.len() as int),
        ensures
            final(self).wf(),
            final(self)@.extends(old(self)@),
            final(self)@ == old(self)@.struck(*line, b),
            value == old(self)@.strike_value(*line, b),
    {
        reveal(World::struck);
        reveal(World::strike_value);
        self.replace_previous(line, b);
        let ghost hit = self@.impact(*line, b);
        let mark: Mark = self.apply_line(line, b);
        let value: i32 = mark.value;
        self.keep_effect(line, b, mark, Ghost(hit));
        value
    }
}

} // verus!
