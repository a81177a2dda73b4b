//! One combatant of a fight on a plain grid.

use crate::effects::{ActiveEffect, EffectKind, Stat, MODIFIER_IRREDUCTIBLE, MODIFIER_STACKABLE};
use std::collections::HashMap;
use vstd::prelude::*;

verus! {

broadcast use vstd::std_specs::hash::group_hash_axioms;

/// A combatant.
#[derive(Debug)]
pub struct Entity {
    pub id: i64,
    pub name: String,
    pub life: i64,
    pub max_life: i64,
    pub cell: i64,
    pub team: i64,
    pub mp: i64,
    pub max_mp: i64,
    pub tp: i64,
    pub max_tp: i64,
    pub strength: i64,
    pub wisdom: i64,
    pub agility: i64,
    pub resistance: i64,
    pub science: i64,
    pub magic: i64,
    pub power: i64,
    pub level: i64,
    pub damage_return: i64,
    pub weapon: Option<i64>,
    /// The weapons that it owns.
    pub inventory: Vec<i64>,
    pub relative_shield: i64,
    pub absolute_shield: i64,
    /// The effects in force.
    pub effects: Vec<ActiveEffect>,
    /// How many turns an item still has to wait.
    pub item_cooldowns: HashMap<i64, i64>,
    /// How often an item was used this turn.
    pub item_uses: HashMap<i64, i64>,
}

/// What a combatant is.
#[verifier::ext_equal]
pub struct EntityView {
    pub id: i64,
    pub name: Seq<char>,
    pub life: i64,
    pub max_life: i64,
    pub cell: i64,
    pub team: i64,
    pub mp: i64,
    pub max_mp: i64,
    pub tp: i64,
    pub max_tp: i64,
    pub strength: i64,
    pub wisdom: i64,
    pub agility: i64,
    pub resistance: i64,
    pub science: i64,
    pub magic: i64,
    pub power: i64,
    pub level: i64,
    pub damage_return: i64,
    pub weapon: Option<i64>,
    pub inventory: Seq<i64>,
    pub relative_shield: i64,
    pub absolute_shield: i64,
    pub effects: Seq<ActiveEffect>,
    pub item_cooldowns: Map<i64, i64>,
    pub item_uses: Map<i64, i64>,
}

impl View for Entity {
    type V = EntityView;

    open spec fn view(&self) -> EntityView {
        EntityView {
            id: self.id,
            name: self.name@,
            life: self.life,
            max_life: self.max_life,
            cell: self.cell,
            team: self.team,
            mp: self.mp,
            max_mp: self.max_mp,
            tp: self.tp,
            max_tp: self.max_tp,
            strength: self.strength,
            wisdom: self.wisdom,
            agility: self.agility,
            resistance: self.resistance,
            science: self.science,
            magic: self.magic,
            power: self.power,
            level: self.level,
            damage_return: self.damage_return,
            weapon: self.weapon,
            inventory: self.inventory@,
            relative_shield: self.relative_shield,
            absolute_shield: self.absolute_shield,
            effects: self.effects@,
            item_cooldowns: self.item_cooldowns@,
            item_uses: self.item_uses@,
        }
    }
}

/// The greater of two numbers.
pub open spec fn max64(a: i64, b: i64) -> i64 {
    if a > b {
        a
    } else {
        b
    }
}

/// The less of two numbers.
pub open spec fn min64(a: i64, b: i64) -> i64 {
    if a < b {
        a
    } else {
        b
    }
}

/// The values of the effects of a kind, together.
pub open spec fn sum_of(effects: Seq<ActiveEffect>, kind: EffectKind) -> i64
    decreases effects.len(),
{
    if effects.len() == 0 {
        0
    } else if effects.last().kind == kind {
        sum_of(effects.drop_last(), kind).wrapping_add(effects.last().value)
    } else {
        sum_of(effects.drop_last(), kind)
    }
}

/// The effects one turn later, without those that end.
pub open spec fn aged(effects: Seq<ActiveEffect>) -> Seq<ActiveEffect>
    decreases effects.len(),
{
    if effects.len() == 0 {
        effects
    } else {
        let e = effects.last();
        let turns = e.turns.wrapping_sub(1);
        if turns > 0 {
            aged(effects.drop_last()).push(ActiveEffect { turns, ..e })
        } else {
            aged(effects.drop_last())
        }
    }
}

/// The effects without those of a kind.
pub open spec fn without_kind(effects: Seq<ActiveEffect>, kind: EffectKind) -> Seq<ActiveEffect>
    decreases effects.len(),
{
    if effects.len() == 0 {
        effects
    } else if effects.last().kind == kind {
        without_kind(effects.drop_last(), kind)
    } else {
        without_kind(effects.drop_last(), kind).push(effects.last())
    }
}

/// What a change of an effect's value does to the points of a kind.
pub open spec fn points_changed(kind: EffectKind, stat: Stat, by: i64) -> i64 {
    if kind == EffectKind::Buff(stat) {
        by
    } else {
        0
    }
}

/// Whether an effect takes away from a characteristic.
pub open spec fn is_shackle(e: ActiveEffect) -> bool {
    e.kind is Buff && e.value < 0
}

/// The effects without shackles.
pub open spec fn unshackled(effects: Seq<ActiveEffect>) -> Seq<ActiveEffect>
    decreases effects.len(),
{
    if effects.len() == 0 {
        effects
    } else if is_shackle(effects.last()) {
        unshackled(effects.drop_last())
    } else {
        unshackled(effects.drop_last()).push(effects.last())
    }
}

/// The points that come back with the shackles.
pub open spec fn freed(effects: Seq<ActiveEffect>, stat: Stat) -> i64
    decreases effects.len(),
{
    if effects.len() == 0 {
        0
    } else if is_shackle(effects.last()) {
        freed(effects.drop_last(), stat).wrapping_sub(
            points_changed(effects.last().kind, stat, effects.last().value),
        )
    } else {
        freed(effects.drop_last(), stat)
    }
}

/// Whether an effect is spared when effects are reduced.
pub open spec fn is_spared(e: ActiveEffect, total: bool) -> bool {
    !total && crate::effects::has_flag(e.modifiers, MODIFIER_IRREDUCTIBLE)
}

/// The effects less a share, in hundredths; those that come to 0 are gone.
pub open spec fn lessened_all(effects: Seq<ActiveEffect>, share: i64, total: bool) -> Seq<
    ActiveEffect,
>
    decreases effects.len(),
{
    if effects.len() == 0 {
        effects
    } else {
        let e = effects.last();
        let before = lessened_all(effects.drop_last(), share, total);
        if is_spared(e, total) {
            before.push(e)
        } else {
            let value = crate::might::lessened(e.value, share) as i64;
            if value != 0 {
                before.push(ActiveEffect { value, ..e })
            } else {
                before
            }
        }
    }
}

/// The points that change with the effects.
pub open spec fn points_lost(effects: Seq<ActiveEffect>, share: i64, total: bool, stat: Stat) -> i64
    decreases effects.len(),
{
    if effects.len() == 0 {
        0
    } else {
        let e = effects.last();
        let before = points_lost(effects.drop_last(), share, total, stat);
        if is_spared(e, total) {
            before
        } else {
            let value = crate::might::lessened(e.value, share) as i64;
            before.wrapping_add(points_changed(e.kind, stat, value.wrapping_sub(e.value)))
        }
    }
}

/// Where an effect of the kind and the item stands first.
pub open spec fn same_source(effects: Seq<ActiveEffect>, e: ActiveEffect) -> Option<int>
    decreases effects.len(),
{
    if effects.len() == 0 {
        None
    } else {
        match same_source(effects.drop_last(), e) {
            Some(i) => Some(i),
            None => if effects.last().kind == e.kind && effects.last().item == e.item {
                Some(effects.len() - 1)
            } else {
                None
            },
        }
    }
}

/// Where an effect with which another merges stands first.
pub open spec fn same_cast(effects: Seq<ActiveEffect>, e: ActiveEffect) -> Option<int>
    decreases effects.len(),
{
    if effects.len() == 0 {
        None
    } else {
        match same_cast(effects.drop_last(), e) {
            Some(i) => Some(i),
            None => {
                let x = effects.last();
                if x.kind == e.kind && x.item == e.item && x.turns == e.turns && x.caster
                    == e.caster {
                    Some(effects.len() - 1)
                } else {
                    None
                }
            },
        }
    }
}

/// Turns of waiting one turn later; what has waited is gone.
pub open spec fn waited(m: Map<i64, i64>) -> Map<i64, i64> {
    Map::new(
        |k: i64| m.contains_key(k) && m[k].wrapping_sub(1) > 0,
        |k: i64| m[k].wrapping_sub(1),
    )
}

/// A number of a table, or 0.
pub open spec fn value_of(m: Map<i64, i64>, k: i64) -> i64 {
    if m.contains_key(k) {
        m[k]
    } else {
        0
    }
}

impl EntityView {
    /// What effects add to a characteristic.
    pub open spec fn buff(self, stat: Stat) -> i64 {
        sum_of(self.effects, EffectKind::Buff(stat))
    }

    /// The points change by so many, and do not fall below 0.
    pub open spec fn with_points_by(self, mp: i64, tp: i64) -> EntityView {
        EntityView {
            mp: max64(self.mp.wrapping_add(mp), 0),
            tp: max64(self.tp.wrapping_add(tp), 0),
            ..self
        }
    }

    /// A turn begins: all points are back, no item was used, and the items
    /// have waited one turn more.
    pub open spec fn regenerated(self) -> EntityView {
        EntityView {
            mp: max64(self.max_mp.wrapping_add(self.buff(Stat::Mp)), 0),
            tp: max64(self.max_tp.wrapping_add(self.buff(Stat::Tp)), 0),
            item_uses: Map::empty(),
            item_cooldowns: waited(self.item_cooldowns),
            ..self
        }
    }

    /// The effects act and grow older: poison takes life and wears off total
    /// life, regeneration gives life up to the total.
    pub open spec fn effects_ticked(self) -> EntityView {
        let poison = sum_of(self.effects, EffectKind::Poison);
        let regen = sum_of(self.effects, EffectKind::Regeneration);
        let life = if poison > 0 {
            max64(self.life.wrapping_sub(poison), 0)
        } else {
            self.life
        };
        let total = if poison > 0 {
            max64(
                self.max_life.wrapping_sub(crate::might::worn_off(poison, true, false) as i64),
                0,
            )
        } else {
            self.max_life
        };
        EntityView {
            life: min64(
                if regen > 0 {
                    life.wrapping_add(regen)
                } else {
                    life
                },
                total,
            ),
            max_life: total,
            effects: aged(self.effects),
            ..self
        }
    }

    /// How much of an amount of damage is dealt: no more than the life.
    pub open spec fn dealt(self, amount: i64) -> i64 {
        max64(min64(amount, self.life), 0)
    }

    pub open spec fn damaged(self, amount: i64) -> EntityView {
        EntityView { life: self.life.wrapping_sub(self.dealt(amount)), ..self }
    }

    pub open spec fn healed(self, amount: i64) -> EntityView {
        EntityView {
            life: min64(self.life.wrapping_add(max64(amount, 0)), self.max_life),
            ..self
        }
    }

    /// The total life falls, and the life with it.
    pub open spec fn worn(self, amount: i64) -> EntityView {
        let total = max64(self.max_life.wrapping_sub(max64(amount, 0)), 0);
        EntityView { max_life: total, life: min64(self.life, total), ..self }
    }

    pub open spec fn vitalized(self, amount: i64) -> EntityView {
        EntityView {
            max_life: self.max_life.wrapping_add(max64(amount, 0)),
            life: self.life.wrapping_add(max64(amount, 0)),
            ..self
        }
    }

    pub open spec fn raised(self, amount: i64) -> EntityView {
        EntityView { max_life: self.max_life.wrapping_add(max64(amount, 0)), ..self }
    }

    /// A dead entity comes back with some life.
    pub open spec fn revived(self, life: i64) -> EntityView {
        if self.life <= 0 {
            EntityView { life: max64(min64(life, self.max_life), 1), ..self }
        } else {
            self
        }
    }

    pub open spec fn unshackled(self) -> EntityView {
        EntityView { effects: unshackled(self.effects), ..self }.with_points_by(
            freed(self.effects, Stat::Mp),
            freed(self.effects, Stat::Tp),
        )
    }

    pub open spec fn effects_lessened(self, share: i64, total: bool) -> EntityView {
        EntityView { effects: lessened_all(self.effects, share, total), ..self }.with_points_by(
            points_lost(self.effects, share, total, Stat::Mp),
            points_lost(self.effects, share, total, Stat::Tp),
        )
    }

    /// Where the effect that a new one replaces stands.
    pub open spec fn replaced(self, e: ActiveEffect) -> Option<int> {
        if e.turns != 0 && !crate::effects::has_flag(e.modifiers, MODIFIER_STACKABLE) {
            same_source(self.effects, e)
        } else {
            None
        }
    }

    /// A new effect: it replaces the one of the same kind and item, unless
    /// both may stand together, and merges with one of the same cast.
    pub open spec fn affected(self, e: ActiveEffect) -> EntityView {
        let at = self.replaced(e);
        let left = match at {
            Some(i) => self.effects.remove(i),
            None => self.effects,
        };
        let lasts = e.turns != 0 && e.value != 0;
        let effects = if lasts {
            match same_cast(left, e) {
                Some(i) => left.update(
                    i,
                    ActiveEffect { value: left[i].value.wrapping_add(e.value), ..left[i] },
                ),
                None => left.push(e),
            }
        } else {
            left
        };
        let mp = crate::entity::points_after(self.effects, at, e, lasts, Stat::Mp);
        let tp = crate::entity::points_after(self.effects, at, e, lasts, Stat::Tp);
        EntityView { effects, ..self }.with_points_by(mp, tp)
    }

    /// An item is used, and has to wait.
    pub open spec fn used(self, item: i64, cooldown: i64) -> EntityView {
        EntityView {
            item_uses: self.item_uses.insert(item, value_of(self.item_uses, item).wrapping_add(1)),
            item_cooldowns: if cooldown > 0 {
                self.item_cooldowns.insert(item, cooldown)
            } else {
                self.item_cooldowns
            },
            ..self
        }
    }
}

/// The points that a new effect gives, less those of the one that it
/// replaces.
pub open spec fn points_after(
    effects: Seq<ActiveEffect>,
    at: Option<int>,
    e: ActiveEffect,
    lasts: bool,
    stat: Stat,
) -> i64 {
    let lost = match at {
        Some(i) => 0i64.wrapping_sub(points_changed(effects[i].kind, stat, effects[i].value)),
        None => 0,
    };
    if lasts {
        lost.wrapping_add(points_changed(e.kind, stat, e.value))
    } else {
        lost
    }
}

/// The greater of two numbers.
pub(crate) fn max_of(a: i64, b: i64) -> (r: i64)
    ensures
        r == max64(a, b),
{
    if a > b {
        a
    } else {
        b
    }
}

/// The less of two numbers.
pub(crate) fn min_of(a: i64, b: i64) -> (r: i64)
    ensures
        r == min64(a, b),
{
    if a < b {
        a
    } else {
        b
    }
}

/// What a change of an effect's value does to the points of a kind.
fn change_of(kind: EffectKind, stat: Stat, by: i64) -> (r: i64)
    ensures
        r == points_changed(kind, stat, by),
{
    if kind == EffectKind::Buff(stat) {
        by
    } else {
        0
    }
}

impl Entity {
    /// An entity with 100 life, 5 movement points and 10 turn points.
    #[must_use]
    pub fn new(id: i64, name: String, cell: i64, team: i64) -> (e: Self)
        ensures
            e@ == (EntityView {
                id,
                name: name@,
                life: 100,
                max_life: 100,
                cell,
                team,
                mp: 5,
                max_mp: 5,
                tp: 10,
                max_tp: 10,
                strength: 0,
                wisdom: 0,
                agility: 0,
                resistance: 0,
                science: 0,
                magic: 0,
                power: 0,
                level: 1,
                damage_return: 0,
                weapon: None,
                inventory: Seq::empty(),
                relative_shield: 0,
                absolute_shield: 0,
                effects: Seq::empty(),
                item_cooldowns: Map::empty(),
                item_uses: Map::empty(),
            }),
    {
        Self {
            id,
            name,
            life: 100,
            max_life: 100,
            cell,
            team,
            mp: 5,
            max_mp: 5,
            tp: 10,
            max_tp: 10,
            strength: 0,
            wisdom: 0,
            agility: 0,
            resistance: 0,
            science: 0,
            magic: 0,
            power: 0,
            level: 1,
            damage_return: 0,
            weapon: None,
            inventory: Vec::new(),
            relative_shield: 0,
            absolute_shield: 0,
            effects: Vec::new(),
            item_cooldowns: HashMap::new(),
            item_uses: HashMap::new(),
        }
    }

    /// With these characteristics.
    #[must_use]
    pub fn with_magic_stats(self, wisdom: i64, resistance: i64, science: i64, magic: i64) -> (e:
        Self)
        ensures
            e@ == (EntityView { wisdom, resistance, science, magic, ..self@ }),
    {
        let mut e = self;
        e.wisdom = wisdom;
        e.resistance = resistance;
        e.science = science;
        e.magic = magic;
        e
    }

    /// With a weapon in its hands, and among those that it owns.
    #[must_use]
    pub fn with_weapon(self, item: i64) -> (e: Self)
        ensures
            e@ == (EntityView {
                weapon: Some(item),
                inventory: if self@.inventory.contains(item) {
                    self@.inventory
                } else {
                    self@.inventory.push(item)
                },
                ..self@
            }),
    {
        let mut e = self;
        if !holds(&e.inventory, item) {
            e.inventory.push(item);
        }
        e.weapon = Some(item);
        e
    }

    /// With these shields.
    #[must_use]
    pub fn with_shields(self, relative: i64, absolute: i64) -> (e: Self)
        ensures
            e@ == (EntityView {
                relative_shield: relative,
                absolute_shield: absolute,
                ..self@
            }),
    {
        let mut e = self;
        e.relative_shield = relative;
        e.absolute_shield = absolute;
        e
    }

    /// With so much life.
    #[must_use]
    pub fn with_life(self, life: i64) -> (e: Self)
        ensures
            e@ == (EntityView { life, max_life: life, ..self@ }),
    {
        let mut e = self;
        e.life = life;
        e.max_life = life;
        e
    }

    #[must_use]
    pub fn with_strength(self, strength: i64) -> (e: Self)
        ensures
            e@ == (EntityView { strength, ..self@ }),
    {
        let mut e = self;
        e.strength = strength;
        e
    }

    /// With so many movement and turn points.
    #[must_use]
    pub fn with_points(self, mp: i64, tp: i64) -> (e: Self)
        ensures
            e@ == (EntityView { mp, max_mp: mp, tp, max_tp: tp, ..self@ }),
    {
        let mut e = self;
        e.mp = mp;
        e.max_mp = mp;
        e.tp = tp;
        e.max_tp = tp;
        e
    }

    /// The values of the effects of a kind, together.
    #[must_use]
    pub fn effect_sum(&self, kind: EffectKind) -> (sum: i64)
        ensures
            sum == sum_of(self@.effects, kind),
    {
        let ghost all = self@.effects;
        let mut sum: i64 = 0;
        let mut i: usize = 0;
        assert(all.take(0) =~= Seq::<ActiveEffect>::empty());
        while i < self.effects.len()
            invariant
                all == self.effects@,
                i <= all.len(),
                sum == sum_of(all.take(i as int), kind),
            decreases self.effects.len() - i,
        {
            assert(all.take(i + 1).drop_last() =~= all.take(i as int));
            if self.effects[i].kind == kind {
                sum = sum.wrapping_add(self.effects[i].value);
            }
            i += 1;
        }
        assert(all.take(i as int) =~= all);
        sum
    }

    /// What effects add to a characteristic.
    #[must_use]
    pub fn buff_sum(&self, stat: Stat) -> (sum: i64)
        ensures
            sum == self@.buff(stat),
    {
        self.effect_sum(EffectKind::Buff(stat))
    }

    /// Changes the points, not below 0.
    fn change_points(&mut self, mp: i64, tp: i64)
        ensures
            final(self)@ == old(self)@.with_points_by(mp, tp),
    {
        self.mp = max_of(self.mp.wrapping_add(mp), 0);
        self.tp = max_of(self.tp.wrapping_add(tp), 0);
    }

    /// Begins a turn.
    pub(crate) fn regenerate(&mut self)
        ensures
            final(self)@ == old(self)@.regenerated(),
    {
        self.mp = max_of(self.max_mp.wrapping_add(self.buff_sum(Stat::Mp)), 0);
        self.tp = max_of(self.max_tp.wrapping_add(self.buff_sum(Stat::Tp)), 0);
        self.item_uses = HashMap::new();
        let left = wait(&self.item_cooldowns);
        self.item_cooldowns = left;
        assert(self@ =~= old(self)@.regenerated());
    }

    /// Lets the effects act and grow older.
    pub(crate) fn tick(&mut self)
        ensures
            final(self)@ == old(self)@.effects_ticked(),
    {
        let ghost all = self@.effects;
        let poison: i64 = self.effect_sum(EffectKind::Poison);
        let regen: i64 = self.effect_sum(EffectKind::Regeneration);
        let mut left: Vec<ActiveEffect> = Vec::new();
        let mut i: usize = 0;
        assert(all.take(0) =~= Seq::<ActiveEffect>::empty());
        while i < self.effects.len()
            invariant
                all == self.effects@,
                i <= all.len(),
                left@ == aged(all.take(i as int)),
            decreases self.effects.len() - i,
        {
            assert(all.take(i + 1).drop_last() =~= all.take(i as int));
            let e: ActiveEffect = self.effects[i];
            let turns: i64 = e.turns.wrapping_sub(1);
            if turns > 0 {
                left.push(
                    ActiveEffect {
                        kind: e.kind,
                        value: e.value,
                        turns,
                        item: e.item,
                        caster: e.caster,
                        modifiers: e.modifiers,
                    },
                );
            }
            i += 1;
        }
        assert(all.take(i as int) =~= all);
        self.effects = left;
        if poison > 0 {
            self.life = max_of(self.life.wrapping_sub(poison), 0);
            self.max_life = max_of(
                self.max_life.wrapping_sub(crate::might::worn_off_of(poison, true, false)),
                0,
            );
        }
        if regen > 0 {
            self.life = self.life.wrapping_add(regen);
        }
        self.life = min_of(self.life, self.max_life);
    }

    /// Deals damage, and tells how much.
    pub(crate) fn damage(&mut self, amount: i64) -> (dealt: i64)
        ensures
            final(self)@ == old(self)@.damaged(amount),
            dealt == old(self)@.dealt(amount),
            0 <= dealt,
    {
        let dealt: i64 = max_of(min_of(amount, self.life), 0);
        self.life = self.life.wrapping_sub(dealt);
        dealt
    }

    pub(crate) fn restore(&mut self, amount: i64)
        ensures
            final(self)@ == old(self)@.healed(amount),
    {
        self.life = min_of(self.life.wrapping_add(max_of(amount, 0)), self.max_life);
    }

    pub(crate) fn wear(&mut self, amount: i64)
        ensures
            final(self)@ == old(self)@.worn(amount),
    {
        self.max_life = max_of(self.max_life.wrapping_sub(max_of(amount, 0)), 0);
        self.life = min_of(self.life, self.max_life);
    }

    pub(crate) fn vitalize(&mut self, amount: i64)
        ensures
            final(self)@ == old(self)@.vitalized(amount),
    {
        self.max_life = self.max_life.wrapping_add(max_of(amount, 0));
        self.life = self.life.wrapping_add(max_of(amount, 0));
    }

    pub(crate) fn raise(&mut self, amount: i64)
        ensures
            final(self)@ == old(self)@.raised(amount),
    {
        self.max_life = self.max_life.wrapping_add(max_of(amount, 0));
    }

    pub(crate) fn revive(&mut self, life: i64)
        ensures
            final(self)@ == old(self)@.revived(life),
    {
        if self.life <= 0 {
            self.life = max_of(min_of(life, self.max_life), 1);
        }
    }

    /// Takes the effects of a kind away.
    pub(crate) fn drop_kind(&mut self, kind: EffectKind)
        ensures
            final(self)@ == (EntityView {
                effects: without_kind(old(self)@.effects, kind),
                ..old(self)@
            }),
    {
        let ghost all = self@.effects;
        let mut left: Vec<ActiveEffect> = Vec::new();
        let mut i: usize = 0;
        assert(all.take(0) =~= Seq::<ActiveEffect>::empty());
        while i < self.effects.len()
            invariant
                all == self.effects@,
                i <= all.len(),
                left@ == without_kind(all.take(i as int), kind),
            decreases self.effects.len() - i,
        {
            assert(all.take(i + 1).drop_last() =~= all.take(i as int));
            if self.effects[i].kind != kind {
                left.push(self.effects[i]);
            }
            i += 1;
        }
        assert(all.take(i as int) =~= all);
        self.effects = left;
    }

    /// Takes the shackles away, and gives the points back.
    pub(crate) fn unshackle(&mut self)
        ensures
            final(self)@ == old(self)@.unshackled(),
    {
        let ghost all = self@.effects;
        let mut mp: i64 = 0;
        let mut tp: i64 = 0;
        let mut left: Vec<ActiveEffect> = Vec::new();
        let mut i: usize = 0;
        assert(all.take(0) =~= Seq::<ActiveEffect>::empty());
        while i < self.effects.len()
            invariant
                all == self.effects@,
                i <= all.len(),
                left@ == unshackled(all.take(i as int)),
                mp == freed(all.take(i as int), Stat::Mp),
                tp == freed(all.take(i as int), Stat::Tp),
            decreases self.effects.len() - i,
        {
            assert(all.take(i + 1).drop_last() =~= all.take(i as int));
            let e: ActiveEffect = self.effects[i];
            let buff: bool = match e.kind {
                EffectKind::Buff(_) => true,
                _ => false,
            };
            if buff && e.value < 0 {
                mp = mp.wrapping_sub(change_of(e.kind, Stat::Mp, e.value));
                tp = tp.wrapping_sub(change_of(e.kind, Stat::Tp, e.value));
            } else {
                left.push(e);
            }
            i += 1;
        }
        assert(all.take(i as int) =~= all);
        self.effects = left;
        self.change_points(mp, tp);
    }

    /// Takes a share, in hundredths, off the effects.
    pub(crate) fn lessen(&mut self, share: i64, total: bool)
        ensures
            final(self)@ == old(self)@.effects_lessened(share, total),
    {
        let ghost all = self@.effects;
        let mut mp: i64 = 0;
        let mut tp: i64 = 0;
        let mut left: Vec<ActiveEffect> = Vec::new();
        let mut i: usize = 0;
        assert(all.take(0) =~= Seq::<ActiveEffect>::empty());
        while i < self.effects.len()
            invariant
                all == self.effects@,
                i <= all.len(),
                left@ == lessened_all(all.take(i as int), share, total),
                mp == points_lost(all.take(i as int), share, total, Stat::Mp),
                tp == points_lost(all.take(i as int), share, total, Stat::Tp),
            decreases self.effects.len() - i,
        {
            assert(all.take(i + 1).drop_last() =~= all.take(i as int));
            let e: ActiveEffect = self.effects[i];
            if !total && e.modifiers & MODIFIER_IRREDUCTIBLE != 0 {
                left.push(e);
            } else {
                let value: i64 = crate::might::lessened_of(e.value, share);
                mp = mp.wrapping_add(change_of(e.kind, Stat::Mp, value.wrapping_sub(e.value)));
                tp = tp.wrapping_add(change_of(e.kind, Stat::Tp, value.wrapping_sub(e.value)));
                if value != 0 {
                    left.push(
                        ActiveEffect {
                            kind: e.kind,
                            value,
                            turns: e.turns,
                            item: e.item,
                            caster: e.caster,
                            modifiers: e.modifiers,
                        },
                    );
                }
            }
            i += 1;
        }
        assert(all.take(i as int) =~= all);
        self.effects = left;
        self.change_points(mp, tp);
    }

    /// Puts a new effect on the entity.
    pub(crate) fn affect(&mut self, e: ActiveEffect)
        ensures
            final(self)@ == old(self)@.affected(e),
    {
        let ghost before = self@;
        let mut mp: i64 = 0;
        let mut tp: i64 = 0;
        if e.turns != 0 && e.modifiers & MODIFIER_STACKABLE == 0 {
            if let Some(i) = find_source(&self.effects, e) {
                let gone: ActiveEffect = self.effects.remove(i);
                mp = 0i64.wrapping_sub(change_of(gone.kind, Stat::Mp, gone.value));
                tp = 0i64.wrapping_sub(change_of(gone.kind, Stat::Tp, gone.value));
            }
        }
        if e.turns != 0 && e.value != 0 {
            mp = mp.wrapping_add(change_of(e.kind, Stat::Mp, e.value));
            tp = tp.wrapping_add(change_of(e.kind, Stat::Tp, e.value));
            match find_cast(&self.effects, e) {
                Some(i) => {
                    let x: ActiveEffect = self.effects[i];
                    self.effects.set(
                        i,
                        ActiveEffect {
                            kind: x.kind,
                            value: x.value.wrapping_add(e.value),
                            turns: x.turns,
                            item: x.item,
                            caster: x.caster,
                            modifiers: x.modifiers,
                        },
                    );
                },
                None => {
                    self.effects.push(e);
                },
            }
        }
        let ghost effects = self@.effects;
        self.change_points(mp, tp);
        proof {
            let at = before.replaced(e);
            let left = match at {
                Some(i) => before.effects.remove(i),
                None => before.effects,
            };
            let lasts = e.turns != 0 && e.value != 0;
            assert(mp == points_after(before.effects, at, e, lasts, Stat::Mp));
            assert(tp == points_after(before.effects, at, e, lasts, Stat::Tp));
            assert(self@ == (EntityView { effects, ..before }).with_points_by(mp, tp));
            assert(effects =~= before.affected(e).effects);
        }
    }

    /// Whether an effect of an item is on the entity.
    pub(crate) fn has_effect_of(&self, item: i64) -> (b: bool)
        ensures
            b == exists|i: int|
                0 <= i < self@.effects.len() && (#[trigger] self@.effects[i]).item == item,
    {
        let mut i: usize = 0;
        while i < self.effects.len()
            invariant
                i <= self.effects@.len(),
                forall|j: int| 0 <= j < i ==> (#[trigger] self.effects@[j]).item != item,
            decreases self.effects.len() - i,
        {
            if self.effects[i].item == item {
                assert(self@.effects[i as int].item == item);
                return true;
            }
            i += 1;
        }
        false
    }

    /// Counts the use of an item, which then has to wait.
    pub(crate) fn count_use(&mut self, item: i64, cooldown: i64)
        ensures
            final(self)@ == old(self)@.used(item, cooldown),
    {
        let n: i64 = known_value(&self.item_uses, item).wrapping_add(1);
        let _ = self.item_uses.insert(item, n);
        if cooldown > 0 {
            let _ = self.item_cooldowns.insert(item, cooldown);
        }
        assert(self@ =~= old(self)@.used(item, cooldown));
    }
}

/// A number of a table, or 0.
pub(crate) fn known_value(m: &HashMap<i64, i64>, k: i64) -> (v: i64)
    ensures
        v == value_of(m@, k),
{
    match m.get(&k) {
        Some(v) => *v,
        None => 0,
    }
}

/// Whether a list holds a number.
pub(crate) fn holds(list: &Vec<i64>, n: i64) -> (b: bool)
    ensures
        b == list@.contains(n),
{
    let mut i: usize = 0;
    while i < list.len()
        invariant
            i <= list@.len(),
            forall|j: int| 0 <= j < i ==> list@[j] != n,
        decreases list.len() - i,
    {
        if list[i] == n {
            return true;
        }
        i += 1;
    }
    false
}

/// Where an effect of the kind and the item stands first.
fn find_source(effects: &Vec<ActiveEffect>, e: ActiveEffect) -> (at: Option<usize>)
    ensures
        match same_source(effects@, e) {
            Some(i) => at matches Some(k) && k == i && 0 <= i < effects@.len(),
            None => at is None,
        },
        at matches Some(i) ==> i < effects@.len(),
{
    let mut i: usize = 0;
    let ghost all = effects@;
    assert(all.take(0) =~= Seq::<ActiveEffect>::empty());
    while i < effects.len()
        invariant
            all == effects@,
            i <= all.len(),
            same_source(all.take(i as int), e) is None,
        decreases effects.len() - i,
    {
        assert(all.take(i + 1).drop_last() =~= all.take(i as int));
        if effects[i].kind == e.kind && effects[i].item == e.item {
            proof {
                lemma_source_stays(all, i + 1, e);
            }
            return Some(i);
        }
        i += 1;
    }
    assert(all.take(i as int) =~= all);
    None
}

/// What stands first in the beginning of a list stands first in the list.
proof fn lemma_source_stays(effects: Seq<ActiveEffect>, n: int, e: ActiveEffect)
    requires
        0 <= n <= effects.len(),
        same_source(effects.take(n), e) is Some,
    ensures
        same_source(effects, e) == same_source(effects.take(n), e),
    decreases effects.len() - n,
{
    if n == effects.len() {
        assert(effects.take(n) =~= effects);
    } else {
        assert(effects.take(n + 1).drop_last() =~= effects.take(n));
        lemma_source_stays(effects, n + 1, e);
    }
}

/// Where an effect with which another merges stands first.
fn find_cast(effects: &Vec<ActiveEffect>, e: ActiveEffect) -> (at: Option<usize>)
    ensures
        match same_cast(effects@, e) {
            Some(i) => at matches Some(k) && k == i && 0 <= i < effects@.len(),
            None => at is None,
        },
        at matches Some(i) ==> i < effects@.len(),
{
    let mut i: usize = 0;
    let ghost all = effects@;
    assert(all.take(0) =~= Seq::<ActiveEffect>::empty());
    while i < effects.len()
        invariant
            all == effects@,
            i <= all.len(),
            same_cast(all.take(i as int), e) is None,
        decreases effects.len() - i,
    {
        assert(all.take(i + 1).drop_last() =~= all.take(i as int));
        let x: ActiveEffect = effects[i];
        if x.kind == e.kind && x.item == e.item && x.turns == e.turns && x.caster == e.caster {
            proof {
                lemma_cast_stays(all, i + 1, e);
            }
            return Some(i);
        }
        i += 1;
    }
    assert(all.take(i as int) =~= all);
    None
}

/// What stands first in the beginning of a list stands first in the list.
proof fn lemma_cast_stays(effects: Seq<ActiveEffect>, n: int, e: ActiveEffect)
    requires
        0 <= n <= effects.len(),
        same_cast(effects.take(n), e) is Some,
    ensures
        same_cast(effects, e) == same_cast(effects.take(n), e),
    decreases effects.len() - n,
{
    if n == effects.len() {
        assert(effects.take(n) =~= effects);
    } else {
        assert(effects.take(n + 1).drop_last() =~= effects.take(n));
        lemma_cast_stays(effects, n + 1, e);
    }
}

/// Turns of waiting one turn later.
fn wait(m: &HashMap<i64, i64>) -> (left: HashMap<i64, i64>)
    ensures
        left@ == waited(m@),
{
    let mut left: HashMap<i64, i64> = HashMap::new();
    let ghost all = m@;
    let ghost mut done: Set<i64> = Set::empty();
    for pair in it: m.iter()
        invariant
            all == m@,
            left@ =~= waited(all.restrict(done)),
            forall|k: i64| #[trigger] done.contains(k) <==> exists|i: int|
                0 <= i < it.index() && *(#[trigger] it.seq()[i]).0 == k,
            forall|i: int|
                0 <= i < it.seq().len() ==> all.contains_key(*(#[trigger] it.seq()[i]).0)
                    && all[*it.seq()[i].0] == *it.seq()[i].1,
            forall|k: i64| #[trigger] all.contains_key(k) ==> it.seq().contains((&k, &all[k])),
            forall|i: int, j: int|
                0 <= i < j < it.seq().len() ==> #[trigger] it.seq()[i] != #[trigger] it.seq()[j],
    {
        let (k, v) = pair;
        let ghost before = done;
        proof {
            done = done.insert(*k);
            assert(!before.contains(*k)) by {
                if before.contains(*k) {
                    let i = choose|i: int|
                        0 <= i < it.index() && *(#[trigger] it.seq()[i]).0 == *k;
                    assert(it.seq()[i] == it.seq()[it.index() as int]);
                }
            }
            assert(!left@.contains_key(*k));
        }
        let n: i64 = (*v).wrapping_sub(1);
        if n > 0 {
            let _ = left.insert(*k, n);
        }
        proof {
            assert(left@ =~= waited(all.restrict(done)));
        }
    }
    proof {
        assert(all.restrict(done) =~= all) by {
            assert forall|k: i64| all.contains_key(k) implies done.contains(k) by {}
        }
    }
    left
}

/// Life never falls below zero by damage, nor rises by it.
pub proof fn lemma_damage_takes_life(e: EntityView, amount: i64)
    requires
        e.life >= 0,
    ensures
        0 <= e.damaged(amount).life <= e.life,
        e.damaged(amount).life == 0 <==> e.life == 0 || amount >= e.life,
        e.damaged(amount).max_life == e.max_life,
{
}

/// Healing never takes life, and never gives more than the total.
pub proof fn lemma_healing_gives_life(e: EntityView, amount: i64)
    requires
        0 <= e.life <= e.max_life,
        e.life + amount <= i64::MAX,
    ensures
        e.life <= e.healed(amount).life <= e.max_life,
{
}

/// However the total wears off, life stays within it.
pub proof fn lemma_wear_keeps_life_within(e: EntityView, amount: i64)
    requires
        0 <= e.life <= e.max_life,
    ensures
        0 <= e.worn(amount).life <= e.worn(amount).max_life <= e.max_life,
{
}

/// Only the dead come back, with at least 1 of life.
pub proof fn lemma_revival(e: EntityView, life: i64)
    requires
        e.max_life >= 1,
    ensures
        e.life > 0 ==> e.revived(life) == e,
        e.life <= 0 ==> 1 <= e.revived(life).life <= e.max_life,
{
}

} // verus!
