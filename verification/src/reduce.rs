//! Effects that lose strength, and effects that are taken off.

use crate::actions::Action;
use crate::attack::EffectType;
use crate::fighter::{FighterView, STAT_COUNT};
use crate::number::Real;
use crate::world::{EffectView, State, World};
use vstd::prelude::*;

verus! {

/// A characteristic of which a part is left, rounded by its size.
pub open spec fn lessened(v: i32, part: Real) -> i32 {
    if v == 0 {
        0
    } else {
        (crate::power::reduced(crate::map::abs(v as int), part) as i32).wrapping_mul(
            crate::map::sign(v as int) as i32,
        )
    }
}

/// Characteristics of which a part is left.
pub open spec fn lessened_stats(stats: Seq<i32>, part: Real) -> Seq<i32> {
    Seq::new(STAT_COUNT as nat, |i: int| lessened(stats[i], part))
}

/// What a fighter has when one of its effects changes what it adds.
pub open spec fn rebalanced(buffs: Seq<i32>, before: Seq<i32>, after: Seq<i32>) -> Seq<i32> {
    Seq::new(
        STAT_COUNT as nat,
        |i: int| buffs[i].wrapping_add(after[i].wrapping_sub(before[i])),
    )
}

impl World {
    /// A part of an effect is left.
    pub open spec fn effect_reduced(self, ei: int, part: Real) -> World {
        let e = self.effects[ei];
        let stats = lessened_stats(e.stats, part);
        let f = self.fighters[e.target as int];
        self.with_effect(
            ei,
            EffectView {
                value: crate::power::reduced(e.value as int, part) as i32,
                stats,
                ..e
            },
        ).with_fighter(
            e.target as int,
            FighterView { buff_stats: rebalanced(f.buff_stats, e.stats, stats), ..f },
        )
    }

    /// A part is left of the effects on a fighter from the `i`-th on. Those
    /// without any value go, the others report what they have left. Effects
    /// that cannot be reduced stay, unless `total`.
    pub open spec fn reduced_from(self, target: int, part: Real, total: bool, i: int) -> World
        decreases self.fighters[target].effects.len(), self.fighters[target].effects.len() - i,
            when self.wf() && 0 <= target < self.fighters.len() && 0 <= i
    {
        let list = self.fighters[target].effects;
        if i >= list.len() {
            self
        } else {
            let ei = list[i];
            if !total && crate::attack::holds(
                self.effects[ei as int].modifiers@,
                crate::attack::MODIFIER_IRREDUCTIBLE,
            ) {
                self.reduced_from(target, part, total, i + 1)
            } else {
                let w = self.effect_reduced(ei as int, part);
                proof {
                    lemma_reduction_shrinks(self, target, i, part);
                }
                if w.effects[ei as int].value <= 0 {
                    w.forgotten(ei).effect_removed(target, ei).reduced_from(target, part, total, i)
                } else {
                    w.logged(
                        crate::json::row(
                            seq![
                                crate::actions::UPDATE_EFFECT as int,
                                w.effects[ei as int].log_id as int,
                                w.effects[ei as int].value as int,
                            ],
                        ),
                    ).reduced_from(target, part, total, i + 1)
                }
            }
        }
    }

    /// A part is left of the effects on a fighter.
    pub open spec fn all_reduced(self, target: int, part: Real, total: bool) -> World {
        self.reduced_from(target, part, total, 0).refreshed(target)
    }

    /// Whether an effect goes: a shackle, or a poison.
    pub open spec fn goes(self, ei: int, shackles: bool) -> bool {
        if shackles {
            self.effects[ei].effect.shackles()
        } else {
            self.effects[ei].effect is Poison
        }
    }

    /// The shackles, or the poisons, of a fighter go, from the `i`-th effect
    /// on.
    pub open spec fn purged_from(self, target: int, shackles: bool, i: int) -> World
        decreases self.fighters[target].effects.len(), self.fighters[target].effects.len() - i,
            when self.wf() && 0 <= target < self.fighters.len() && 0 <= i
    {
        let list = self.fighters[target].effects;
        if i >= list.len() {
            self
        } else if self.goes(list[i] as int, shackles) {
            proof {
                lemma_removal_shrinks(self, target, i);
            }
            self.forgotten(list[i]).effect_removed(target, list[i]).purged_from(
                target,
                shackles,
                i,
            )
        } else {
            self.purged_from(target, shackles, i + 1)
        }
    }
}

/// Taking off one of its effects leaves a fighter with fewer.
pub proof fn lemma_removal_shrinks(w: World, target: int, i: int)
    requires
        w.wf(),
        0 <= target < w.fighters.len(),
        0 <= i < w.fighters[target].effects.len(),
    ensures
        ({
            let list = w.fighters[target].effects;
            let after = w.forgotten(list[i]).effect_removed(target, list[i]);
            after.fighters[target].effects == crate::lists::without(list, list[i])
                && after.fighters[target].effects.len() < list.len()
        }),
{
    let list = w.fighters[target].effects;
    assert(w.fighters[target].fits(
        target,
        w.teams.len() as int,
        w.board.cells.len() as int,
        w.effects.len() as int,
    ));
    assert(list[i] < w.effects.len());
    assert(w.effects[list[i] as int].fits(w.fighters.len() as int));
    crate::lists::lemma_without(list, list[i]);
    assert(list.contains(list[i]));
}

/// What stands before anything that is taken out of a list stays where it is.
proof fn lemma_without_front(s: Seq<usize>, x: usize, n: int)
    requires
        0 <= n <= s.len(),
        forall|k: int| 0 <= k < n ==> s[k] != x,
    ensures
        crate::lists::without(s, x).len() >= n,
        forall|k: int| 0 <= k < n ==> #[trigger] crate::lists::without(s, x)[k] == s[k],
    decreases s.len(),
{
    if s.len() > 0 {
        lemma_without_front(
            s.drop_last(),
            x,
            if n < s.len() {
                n
            } else {
                n - 1
            },
        );
        let t = s.drop_last();
        let u = crate::lists::without(t, x);
        crate::lists::lemma_without(t, x);
        assert forall|k: int| 0 <= k < n implies #[trigger] crate::lists::without(s, x)[k]
            == s[k] by {
            if k < t.len() {
                assert(u[k] == t[k]);
            } else {
                assert(s.last() != x);
            }
        }
    }
}

/// An antidote takes every poison off a fighter, and the removal of shackles
/// every shackle; every other effect stays.
pub proof fn lemma_purge(w: World, target: int, shackles: bool, i: int)
    requires
        w.wf(),
        0 <= target < w.fighters.len(),
        0 <= i <= w.fighters[target].effects.len(),
        forall|k: int|
            0 <= k < i ==> !w.goes(#[trigger] w.fighters[target].effects[k] as int, shackles),
    ensures
        w.purged_from(target, shackles, i).effects == w.effects,
        forall|x: usize| #[trigger]
            w.purged_from(target, shackles, i).fighters[target].effects.contains(x)
                <==> w.fighters[target].effects.contains(x) && !(if shackles {
                w.effects[x as int].effect.shackles()
            } else {
                w.effects[x as int].effect is Poison
            }),
    decreases w.fighters[target].effects.len(), w.fighters[target].effects.len() - i,
{
    let list = w.fighters[target].effects;
    if i < list.len() {
        if w.goes(list[i] as int, shackles) {
            lemma_removal_shrinks(w, target, i);
            let ei = list[i];
            assert(w.fighters[target].fits(
                target,
                w.teams.len() as int,
                w.board.cells.len() as int,
                w.effects.len() as int,
            ));
            assert(w.effects[ei as int].fits(w.fighters.len() as int));
            crate::harm::lemma_forgotten(w, ei);
            let v = w.forgotten(ei);
            crate::harm::lemma_effect_removed(v, target, ei);
            let u = v.effect_removed(target, ei);
            crate::lists::lemma_without(list, ei);
            assert(u.effects == w.effects);
            assert forall|k: int| 0 <= k < i implies list[k] != ei by {
                assert(!w.goes(list[k] as int, shackles));
            }
            lemma_without_front(list, ei, i);
            assert(u.fighters[target].effects == crate::lists::without(list, ei));
            assert forall|k: int| 0 <= k < i implies !u.goes(
                #[trigger] u.fighters[target].effects[k] as int,
                shackles,
            ) by {
                assert(!w.goes(list[k] as int, shackles));
            }
            lemma_purge(u, target, shackles, i);
        } else {
            lemma_purge(w, target, shackles, i + 1);
        }
    } else {
        assert forall|x: usize| #[trigger] list.contains(x) implies !w.goes(
            x as int,
            shackles,
        ) by {
            let k = choose|k: int| 0 <= k < list.len() && list[k] == x;
            assert(!w.goes(list[k] as int, shackles));
        }
    }
}

/// Reducing an effect changes no list of effects, and taking it off then
/// leaves fewer.
pub proof fn lemma_reduction_shrinks(w: World, target: int, i: int, part: Real)
    requires
        w.wf(),
        0 <= target < w.fighters.len(),
        0 <= i < w.fighters[target].effects.len(),
    ensures
        ({
            let list = w.fighters[target].effects;
            let r = w.effect_reduced(list[i] as int, part);
            let after = r.forgotten(list[i]).effect_removed(target, list[i]);
            r.fighters[target].effects == list && after.fighters[target].effects.len() < list.len()
        }),
{
    let list = w.fighters[target].effects;
    assert(w.fighters[target].fits(
        target,
        w.teams.len() as int,
        w.board.cells.len() as int,
        w.effects.len() as int,
    ));
    assert(list[i] < w.effects.len());
    assert(w.effects[list[i] as int].fits(w.fighters.len() as int));
    let r = w.effect_reduced(list[i] as int, part);
    crate::lists::lemma_without(list, list[i]);
    assert(list.contains(list[i]));
    assert(r.effects[list[i] as int].caster == w.effects[list[i] as int].caster);
}

impl State {
    /// Leaves a part of an effect.
    fn reduce_effect(&mut self, ei: usize, part: Real)
        requires
            old(self).wf(),
            ei < old(self)@.effects.len(),
            part.within(600),
        ensures
            final(self).wf(),
            final(self)@.extends(old(self)@),
            final(self)@.effects.len() == old(self)@.effects.len(),
            final(self)@ == old(self)@.effect_reduced(ei as int, part),
    {
        let ghost w = self@;
        let ghost e = w.effects[ei as int];
        assert(e == self.effects@[ei as int]@);
        assert(e.fits(w.fighters.len() as int));
        let target: usize = self.effects[ei].target;
        let ghost f = w.fighters[target as int];
        assert(f == self.fighters@[target as int]@);
        let ghost after = lessened_stats(e.stats, part);
        self.effects[ei].value = crate::power::reduced_value(self.effects[ei].value as i64, part);
        let mut stats = self.effects[ei].stats;
        let mut buffs = self.fighters[target].buff_stats;
        let mut i: usize = 0;
        while i < STAT_COUNT
            invariant
                i <= STAT_COUNT,
                part.within(600),
                e.stats.len() == STAT_COUNT,
                f.buff_stats.len() == STAT_COUNT,
                stats@.len() == STAT_COUNT,
                buffs@.len() == STAT_COUNT,
                after == lessened_stats(e.stats, part),
                forall|j: int|
                    0 <= j < STAT_COUNT ==> stats@[j] == (if j < i {
                        after[j]
                    } else {
                        e.stats[j]
                    }),
                forall|j: int|
                    0 <= j < STAT_COUNT ==> buffs@[j] == (if j < i {
                        f.buff_stats[j].wrapping_add(after[j].wrapping_sub(e.stats[j]))
                    } else {
                        f.buff_stats[j]
                    }),
            decreases STAT_COUNT - i,
        {
            let v: i32 = stats.get(i);
            assert(v == e.stats[i as int]);
            if v != 0 {
                let size: i64 = if v < 0 {
                    -(v as i64)
                } else {
                    v as i64
                };
                let sign: i32 = if v < 0 {
                    -1
                } else {
                    1
                };
                let new_value: i32 = crate::power::reduced_value(size, part).wrapping_mul(sign);
                let delta: i32 = new_value.wrapping_sub(v);
                stats.set(i, new_value);
                buffs.update(i, delta);
            }
            assert(0i32.wrapping_sub(0i32) == 0);
            i += 1;
        }
        self.effects[ei].stats = stats;
        self.fighters[target].buff_stats = buffs;
        proof {
            assert(stats@ =~= after);
            assert(buffs@ =~= rebalanced(f.buff_stats, e.stats, after));
            assert(self@.effects =~= w.effect_reduced(ei as int, part).effects);
            assert(self@.fighters =~= w.effect_reduced(ei as int, part).fighters);
            assert(self@ =~= w.effect_reduced(ei as int, part));
        }
    }

    /// Leaves a part of the effects on a fighter.
    fn reduce_all(&mut self, target: usize, part: Real, total: bool)
        requires
            old(self).wf(),
            target < old(self)@.fighters.len(),
            part.within(600),
        ensures
            final(self).wf(),
            final(self)@.extends(old(self)@),
            final(self)@ == old(self)@.all_reduced(target as int, part, total),
    {
        let ghost w = self@;
        let ghost goal = w.reduced_from(target as int, part, total, 0);
        let mut i: usize = 0;
        while i < self.fighters[target].effects.len()
            invariant
                self.wf(),
                self@.extends(w),
                target < w.fighters.len(),
                part.within(600),
                self@.reduced_from(target as int, part, total, i as int) == goal,
            decreases
                self@.fighters[target as int].effects.len(),
                self@.fighters[target as int].effects.len() - i,
        {
            let ghost now = self@;
            assert(now.fighters[target as int] == self.fighters@[target as int]@);
            assert(now.fighters[target as int].fits(
                target as int,
                now.teams.len() as int,
                now.board.cells.len() as int,
                now.effects.len() as int,
            ));
            let ei: usize = self.fighters[target].effects[i];
            assert(now.fighters[target as int].effects[i as int] < now.effects.len());
            assert(now.effects[ei as int] == self.effects@[ei as int]@);
            if !total && self.effects[ei].modifiers.contains(
                crate::attack::MODIFIER_IRREDUCTIBLE,
            ) {
                i += 1;
                continue;
            }
            proof {
                lemma_reduction_shrinks(now, target as int, i as int, part);
            }
            self.reduce_effect(ei, part);
            let ghost reduced = self@;
            assert(reduced.effects[ei as int] == self.effects@[ei as int]@);
            if self.effects[ei].value <= 0 {
                self.forget_effect(ei);
                self.remove_effect(target, ei);
            } else {
                let log_id: u32 = self.effects[ei].log_id;
                let value: i32 = self.effects[ei].value;
                self.log(Action::UpdateEffect { log_id, value });
                i += 1;
            }
        }
        assert(self@.fighters[target as int] == self.fighters@[target as int]@);
        self.update_buff_stats(target);
    }

    /// Takes a share, in hundredths, of the effects on a fighter that can be
    /// reduced.
    pub fn reduce_effects(&mut self, target: usize, percent: i32)
        requires
            old(self).wf(),
            target < old(self)@.fighters.len(),
        ensures
            final(self).wf(),
            final(self)@.extends(old(self)@),
            final(self)@ == old(self)@.all_reduced(
                target as int,
                crate::power::remainder(percent as int),
                false,
            ),
    {
        self.reduce_all(target, crate::power::part_left(percent), false);
    }

    /// Takes a share, in hundredths, of all effects on a fighter.
    pub fn reduce_effects_total(&mut self, target: usize, percent: i32)
        requires
            old(self).wf(),
            target < old(self)@.fighters.len(),
        ensures
            final(self).wf(),
            final(self)@.extends(old(self)@),
            final(self)@ == old(self)@.all_reduced(
                target as int,
                crate::power::remainder(percent as int),
                true,
            ),
    {
        self.reduce_all(target, crate::power::part_left(percent), true);
    }

    /// Takes the shackles, or the poisons, off a fighter.
    fn purge(&mut self, target: usize, shackles: bool)
        requires
            old(self).wf(),
            target < old(self)@.fighters.len(),
        ensures
            final(self).wf(),
            final(self)@.extends(old(self)@),
            final(self)@ == old(self)@.purged_from(target as int, shackles, 0),
    {
        let ghost w = self@;
        let ghost goal = w.purged_from(target as int, shackles, 0);
        let mut i: usize = 0;
        while i < self.fighters[target].effects.len()
            invariant
                self.wf(),
                self@.extends(w),
                target < w.fighters.len(),
                self@.purged_from(target as int, shackles, i as int) == goal,
            decreases
                self@.fighters[target as int].effects.len(),
                self@.fighters[target as int].effects.len() - i,
        {
            let ghost now = self@;
            assert(now.fighters[target as int] == self.fighters@[target as int]@);
            assert(now.fighters[target as int].fits(
                target as int,
                now.teams.len() as int,
                now.board.cells.len() as int,
                now.effects.len() as int,
            ));
            let ei: usize = self.fighters[target].effects[i];
            assert(now.fighters[target as int].effects[i as int] < now.effects.len());
            assert(now.effects[ei as int] == self.effects@[ei as int]@);
            let kind: EffectType = self.effects[ei].effect;
            let goes: bool = if shackles {
                kind.is_shackle()
            } else {
                matches!(kind, EffectType::Poison)
            };
            if goes {
                proof {
                    lemma_removal_shrinks(now, target as int, i as int);
                }
                self.forget_effect(ei);
                self.remove_effect(target, ei);
            } else {
                i += 1;
            }
        }
        assert(self@.fighters[target as int] == self.fighters@[target as int]@);
    }

    /// Takes every poison off a fighter.
    pub fn clear_poisons(&mut self, target: usize)
        requires
            old(self).wf(),
            target < old(self)@.fighters.len(),
        ensures
            final(self).wf(),
            final(self)@.extends(old(self)@),
            final(self)@ == old(self)@.purged_from(target as int, false, 0),
    {
        self.purge(target, false);
    }

    /// Takes every shackle off a fighter.
    pub fn remove_shackles(&mut self, target: usize)
        requires
            old(self).wf(),
            target < old(self)@.fighters.len(),
        ensures
            final(self).wf(),
            final(self)@.extends(old(self)@),
            final(self)@ == old(self)@.purged_from(target as int, true, 0),
    {
        self.purge(target, true);
    }
}

} // verus!
