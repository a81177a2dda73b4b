//! How effects grow older: at every beginning of their caster's turn they have
//! a turn less, until they are over.

use crate::actions::DamageType;
use crate::attack::{EffectType, EntityState};
use crate::fighter::FighterView;
use crate::world::{EffectView, World};
use vstd::prelude::*;

verus! {

/// Whether an effect stands in a list from a place on.
spec fn listed(list: Seq<usize>, i: int, e: usize) -> bool {
    exists|k: int| i <= k < list.len() && #[trigger] list[k] == e
}

/// A turn less for an effect, but for one that stays for good.
spec fn one_turn_less(turns: i32) -> i32 {
    if turns == -1 {
        turns
    } else {
        turns.wrapping_sub(1)
    }
}

impl World {
    /// Whether the `i`-th effect that a fighter has cast has its last turn.
    spec fn ends(self, fid: int, i: int) -> bool {
        one_turn_less(
            self.effects[self.fighters[fid].launched_effects[i] as int].turns,
        ) == 0
    }

    /// One turn less for the `i`-th effect that a fighter has cast.
    spec fn one_older(self, fid: int, i: int) -> World {
        let list = self.fighters[fid].launched_effects;
        let ei = list[i];
        let e = self.effects[ei as int];
        let w = self.with_effect(ei as int, EffectView { turns: one_turn_less(e.turns), ..e });
        if self.ends(fid, i) {
            let off = w.effect_removed(e.target as int, ei);
            off.with_fighter(
                fid,
                FighterView { launched_effects: list.remove(i), ..off.fighters[fid] },
            )
        } else {
            w
        }
    }

    /// A world, a fighter in it, and a place in the list of what it has cast, in
    /// which nothing stands twice.
    spec fn in_list(self, fid: int, i: int) -> bool {
        &&& self.wf()
        &&& 0 <= fid < self.fighters.len()
        &&& 0 <= i <= self.fighters[fid].launched_effects.len()
        &&& self.fighters[fid].launched_effects.no_duplicates()
    }
}

proof fn lemma_one_older(w: World, fid: int, i: int)
    requires
        w.in_list(fid, i),
        i < w.fighters[fid].launched_effects.len(),
    ensures
        ({
            let list = w.fighters[fid].launched_effects;
            let ei = list[i];
            let e = w.effects[ei as int];
            let n = w.one_older(fid, i);
            let ends = w.ends(fid, i);
            let next = if ends {
                list.remove(i)
            } else {
                list
            };
            &&& ei < w.effects.len()
            &&& e.target < w.fighters.len()
            &&& n.in_list(
                fid,
                if ends {
                    i
                } else {
                    i + 1
                },
            )
            &&& n.fighters.len() == w.fighters.len()
            &&& n.fighters[fid].launched_effects == next
            &&& n.effects == w.effects.update(
                ei as int,
                EffectView { turns: one_turn_less(e.turns), ..e },
            )
            &&& ends ==> !n.fighters[e.target as int].effects.contains(ei)
            &&& w.expired_from(fid, i) == n.expired_from(
                fid,
                if ends {
                    i
                } else {
                    i + 1
                },
            )
        }),
        forall|t: int, x: usize|
            #![trigger w.one_older(fid, i).fighters[t].effects.contains(x)]
            0 <= t < w.fighters.len() ==> {
                let n = w.one_older(fid, i);
                &&& n.fighters[t].effects.contains(x) ==> w.fighters[t].effects.contains(x)
                &&& w.fighters[t].effects.contains(x) && (x != w.fighters[fid].launched_effects[i]
                    || !w.ends(fid, i)) ==> n.fighters[t].effects.contains(x)
            },
        forall|t: int|
            0 <= t < w.fighters.len() ==> {
                let g = #[trigger] w.one_older(fid, i).fighters[t];
                ||| g.effects == w.fighters[t].effects && g.buff_stats == w.fighters[t].buff_stats
                    && g.states == w.fighters[t].states
                ||| g.effects.len() == 0 ==> g.buff_stats == crate::fighter::no_stats()
                    && g.states.len() == 0
            },
{
    let list = w.fighters[fid].launched_effects;
    let ei = list[i];
    let f = w.fighters[fid];
    assert(f.fits(fid, w.teams.len() as int, w.board.cells.len() as int, w.effects.len() as int));
    assert(list[i] < w.effects.len());
    let e = w.effects[ei as int];
    assert(e.fits(w.fighters.len() as int));
    let turns = one_turn_less(e.turns);
    let w1 = w.with_effect(ei as int, EffectView { turns, ..e });
    assert(w1.wf());
    crate::strike::lemma_expiry_shrinks(w, fid, i, turns);
    if turns == 0 {
        crate::harm::lemma_effect_removed(w1, e.target as int, ei);
        let off = w1.effect_removed(e.target as int, ei);
        let rest = list.remove(i);
        let g = FighterView { launched_effects: rest, ..off.fighters[fid] };
        let w2 = off.with_fighter(fid, g);
        assert(rest.no_duplicates());
        assert(off.fighters[fid].fits(
            fid,
            off.teams.len() as int,
            off.board.cells.len() as int,
            off.effects.len() as int,
        ));
        assert(crate::fighter::all_below(rest, off.effects.len() as int));
        crate::harm::lemma_remove_fewer(list, i);
        crate::harm::lemma_with_fighter(off, fid, g);
        assert forall|t: int, x: usize|
            #![trigger w2.fighters[t].effects.contains(x)]
            0 <= t < w.fighters.len() implies {
            &&& w2.fighters[t].effects.contains(x) ==> w.fighters[t].effects.contains(x)
            &&& w.fighters[t].effects.contains(x) && x != ei ==> w2.fighters[t].effects.contains(x)
        } by {
            assert(off.fighters[t].effects == w2.fighters[t].effects);
            assert(crate::harm::fewer(off.fighters[t].effects, w1.fighters[t].effects));
            if t == e.target {
                if w.fighters[t].effects.contains(x) && x != ei {
                    assert(off.fighters[t].effects.contains(x));
                }
            } else {
                assert(off.fighters[t] == w1.fighters[t]);
            }
        }
        assert forall|t: int| 0 <= t < w.fighters.len() implies {
            let g = #[trigger] w2.fighters[t];
            ||| g.effects == w.fighters[t].effects && g.buff_stats == w.fighters[t].buff_stats
                && g.states == w.fighters[t].states
            ||| g.effects.len() == 0 ==> g.buff_stats == crate::fighter::no_stats()
                && g.states.len() == 0
        } by {
            assert(off.fighters[t].effects == w2.fighters[t].effects);
            if t != e.target {
                assert(off.fighters[t] == w1.fighters[t]);
            }
        }
    }
}

/// The effects after a turn less for those from the `i`-th on.
proof fn lemma_older_effects(w: World, fid: int, i: int)
    requires
        w.in_list(fid, i),
    ensures
        ({
            let list = w.fighters[fid].launched_effects;
            let after = w.expired_from(fid, i);
            &&& after.wf()
            &&& after.fighters.len() == w.fighters.len()
            &&& after.effects.len() == w.effects.len()
            &&& after.fighters[fid].launched_effects.no_duplicates()
            &&& forall|e: usize|
                e < w.effects.len() && !listed(list, i, e) ==> #[trigger] after.effects[e as int]
                    == w.effects[e as int]
            &&& forall|k: int|
                i <= k < list.len() ==> after.effects[#[trigger] list[k] as int] == (EffectView {
                    turns: one_turn_less(w.effects[list[k] as int].turns),
                    ..w.effects[list[k] as int]
                })
        }),
    decreases w.fighters[fid].launched_effects.len() - i,
{
    let list = w.fighters[fid].launched_effects;
    if i < list.len() {
        lemma_one_older(w, fid, i);
        let ends = w.ends(fid, i);
        let n = w.one_older(fid, i);
        let ni = if ends {
            i
        } else {
            i + 1
        };
        let next = n.fighters[fid].launched_effects;
        lemma_older_effects(n, fid, ni);
        lemma_next_listed(list, i, ends);
        let after = w.expired_from(fid, i);
        let ei = list[i];
        assert(!listed(next, ni, ei));
        assert(after.effects[ei as int] == n.effects[ei as int]);
        assert forall|e: usize| e < w.effects.len() && !listed(list, i, e) implies
            #[trigger] after.effects[e as int] == w.effects[e as int] by {
            assert(!listed(next, ni, e));
            assert(list[i] == ei);
            assert(e != ei);
            assert(after.effects[e as int] == n.effects[e as int]);
        }
        assert forall|k: int| i <= k < list.len() implies after.effects[#[trigger] list[k] as int]
            == (EffectView {
            turns: one_turn_less(w.effects[list[k] as int].turns),
            ..w.effects[list[k] as int]
        }) by {
            if k > i {
                let nk = if ends {
                    k - 1
                } else {
                    k
                };
                assert(next[nk] == list[k]);
                assert(list[k] != list[i]);
                assert(n.effects[list[k] as int] == w.effects[list[k] as int]);
            }
        }
    }
}

/// What is still listed after the `i`-th is dealt with.
proof fn lemma_next_listed(list: Seq<usize>, i: int, ends: bool)
    requires
        0 <= i < list.len(),
        list.no_duplicates(),
    ensures
        forall|x: usize|
            #![trigger listed(list, i, x)]
            listed(list, i, x) <==> x == list[i] || (ends && listed(list.remove(i), i, x)) || (!ends
                && listed(list, i + 1, x)),
        ends ==> !listed(list.remove(i), i, list[i]),
        !ends ==> !listed(list, i + 1, list[i]),
{
    let rest = list.remove(i);
    assert(listed(list, i, list[i]));
    assert forall|x: usize| listed(rest, i, x) implies listed(list, i, x) && x != list[i] by {
        let k = choose|k: int| i <= k < rest.len() && #[trigger] rest[k] == x;
        assert(list[k + 1] == x);
        assert(list[k + 1] != list[i]);
    }
    assert forall|x: usize| listed(list, i + 1, x) implies listed(list, i, x) && x != list[i] by {
        let k = choose|k: int| i + 1 <= k < list.len() && #[trigger] list[k] == x;
        assert(list[k] == x);
        assert(list[k] != list[i]);
    }
    assert forall|x: usize| listed(list, i, x) && x != list[i] implies listed(rest, i, x)
        && listed(list, i + 1, x) by {
        let k = choose|k: int| i <= k < list.len() && #[trigger] list[k] == x;
        assert(rest[k - 1] == x);
        assert(list[k] == x);
    }
}

/// What a fighter has cast, after a turn less for that from the `i`-th on.
proof fn lemma_older_list(w: World, fid: int, i: int)
    requires
        w.in_list(fid, i),
    ensures
        ({
            let list = w.fighters[fid].launched_effects;
            let kept = w.expired_from(fid, i).fighters[fid].launched_effects;
            &&& forall|x: usize| #[trigger] kept.contains(x) ==> list.contains(x)
            &&& forall|k: int| 0 <= k < i ==> kept.contains(#[trigger] list[k])
            &&& forall|k: int|
                i <= k < list.len() ==> (kept.contains(#[trigger] list[k]) <==> one_turn_less(
                    w.effects[list[k] as int].turns,
                ) != 0)
        }),
    decreases w.fighters[fid].launched_effects.len() - i,
{
    let list = w.fighters[fid].launched_effects;
    let kept = w.expired_from(fid, i).fighters[fid].launched_effects;
    if i == list.len() {
        assert forall|k: int| 0 <= k < i implies kept.contains(#[trigger] list[k]) by {}
    } else {
        lemma_one_older(w, fid, i);
        let ends = w.ends(fid, i);
        let n = w.one_older(fid, i);
        let ni = if ends {
            i
        } else {
            i + 1
        };
        let next = n.fighters[fid].launched_effects;
        lemma_older_list(n, fid, ni);
        assert forall|x: usize| #[trigger] kept.contains(x) implies list.contains(x) by {
            assert(next.contains(x));
            let k = choose|k: int| 0 <= k < next.len() && next[k] == x;
            assert(list[if ends && k >= i {
                k + 1
            } else {
                k
            }] == x);
        }
        assert forall|k: int| 0 <= k < i implies kept.contains(#[trigger] list[k]) by {
            assert(next[k] == list[k]);
        }
        assert forall|k: int| i <= k < list.len() implies (kept.contains(#[trigger] list[k])
            <==> one_turn_less(w.effects[list[k] as int].turns) != 0) by {
            if k > i {
                let nk = if ends {
                    k - 1
                } else {
                    k
                };
                assert(next[nk] == list[k]);
                assert(list[k] != list[i]);
                assert(n.effects[list[k] as int] == w.effects[list[k] as int]);
            } else if ends {
                if kept.contains(list[i]) {
                    assert(next.contains(list[i]));
                    let m = choose|m: int| 0 <= m < next.len() && next[m] == list[i];
                    assert(list[if m >= i {
                        m + 1
                    } else {
                        m
                    }] == list[i]);
                }
            } else {
                assert(next[i] == list[i]);
            }
        }
    }
}

/// The effects on fighters, after a turn less for those that one has cast.
proof fn lemma_older_targets(w: World, fid: int, i: int)
    requires
        w.in_list(fid, i),
    ensures
        ({
            let list = w.fighters[fid].launched_effects;
            let after = w.expired_from(fid, i);
            &&& forall|t: int, x: usize|
                #![trigger after.fighters[t].effects.contains(x)]
                0 <= t < w.fighters.len() ==> {
                    &&& after.fighters[t].effects.contains(x) ==> w.fighters[t].effects.contains(x)
                    &&& w.fighters[t].effects.contains(x) && !(listed(list, i, x) && one_turn_less(
                        w.effects[x as int].turns,
                    ) == 0) ==> after.fighters[t].effects.contains(x)
                }
            &&& forall|k: int|
                i <= k < list.len() && one_turn_less(w.effects[#[trigger] list[k] as int].turns) == 0
                    ==> !after.fighters[w.effects[list[k] as int].target as int].effects.contains(
                    list[k],
                )
        }),
    decreases w.fighters[fid].launched_effects.len() - i,
{
    let list = w.fighters[fid].launched_effects;
    let after = w.expired_from(fid, i);
    if i < list.len() {
        lemma_one_older(w, fid, i);
        let ends = w.ends(fid, i);
        let n = w.one_older(fid, i);
        let ni = if ends {
            i
        } else {
            i + 1
        };
        let next = n.fighters[fid].launched_effects;
        lemma_older_targets(n, fid, ni);
        lemma_next_listed(list, i, ends);
        let ei = list[i];
        assert forall|t: int, x: usize|
            #![trigger after.fighters[t].effects.contains(x)]
            0 <= t < w.fighters.len() implies {
            &&& after.fighters[t].effects.contains(x) ==> w.fighters[t].effects.contains(x)
            &&& w.fighters[t].effects.contains(x) && !(listed(list, i, x) && one_turn_less(
                w.effects[x as int].turns,
            ) == 0) ==> after.fighters[t].effects.contains(x)
        } by {
            assert(n.fighters[t].effects.contains(x) || !n.fighters[t].effects.contains(x));
            assert(listed(list, i, x) || !listed(list, i, x));
            assert(listed(next, ni, x) ==> x != ei);
            if x != ei && listed(next, ni, x) {
                assert(n.effects[x as int] == w.effects[x as int]);
            }
        }
        assert forall|k: int|
            i <= k < list.len() && one_turn_less(w.effects[#[trigger] list[k] as int].turns)
                == 0 implies !after.fighters[w.effects[list[k] as int].target as int].effects.contains(
            list[k],
        ) by {
            if k > i {
                let nk = if ends {
                    k - 1
                } else {
                    k
                };
                assert(next[nk] == list[k]);
                assert(list[k] != list[i]);
                assert(n.effects[list[k] as int] == w.effects[list[k] as int]);
            } else {
                let t = w.effects[ei as int].target as int;
                if after.fighters[t].effects.contains(ei) {
                    assert(n.fighters[t].effects.contains(ei));
                }
            }
        }
    }
}

/// Who has no effects left carries nothing of them.
proof fn lemma_older_empty(w: World, fid: int, i: int)
    requires
        w.in_list(fid, i),
    ensures
        forall|t: int|
            0 <= t < w.fighters.len() ==> {
                let g = #[trigger] w.expired_from(fid, i).fighters[t];
                ||| g.effects == w.fighters[t].effects && g.buff_stats == w.fighters[t].buff_stats
                    && g.states == w.fighters[t].states
                ||| g.effects.len() == 0 ==> g.buff_stats == crate::fighter::no_stats()
                    && g.states.len() == 0
            },
    decreases w.fighters[fid].launched_effects.len() - i,
{
    let list = w.fighters[fid].launched_effects;
    if i < list.len() {
        lemma_one_older(w, fid, i);
        let ends = w.ends(fid, i);
        let n = w.one_older(fid, i);
        let ni = if ends {
            i
        } else {
            i + 1
        };
        lemma_older_empty(n, fid, ni);
        assert forall|t: int| 0 <= t < w.fighters.len() implies {
            let g = #[trigger] w.expired_from(fid, i).fighters[t];
            ||| g.effects == w.fighters[t].effects && g.buff_stats == w.fighters[t].buff_stats
                && g.states == w.fighters[t].states
            ||| g.effects.len() == 0 ==> g.buff_stats == crate::fighter::no_stats()
                && g.states.len() == 0
        } by {
            assert(n.fighters[t] == n.fighters[t]);
        }
    }
}

/// A step at the beginning of a turn at which the fighter survives leaves the
/// turns of every effect, who has cast it and who has it, and nobody else is
/// touched.
proof fn lemma_tick_spares(w: World, fid: int, ei: int)
    requires
        w.wf(),
        0 <= fid < w.fighters.len(),
        0 <= ei < w.effects.len(),
        w.effects[ei].target == fid,
        !w.fighters[fid].is_dead(),
        !w.effect_ticked(ei).fighters[fid].is_dead(),
    ensures
        w.effect_ticked(ei).wf(),
        w.effect_ticked(ei).spared(w, fid),
{
    let e = w.effects[ei];
    let t = w.fighters[fid];
    assert(e.fits(w.fighters.len() as int));
    assert(t.fits(fid, w.teams.len() as int, w.board.cells.len() as int, w.effects.len() as int));
    let after = w.effect_ticked(ei);
    match e.effect {
        EffectType::Poison => {
            let damage = if t.has_state(EntityState::Invincible) {
                0
            } else {
                crate::power::at_most(e.value as int, t.life as int)
            };
            if damage > 0 {
                let erosion = crate::power::eroded(damage, e.erosion_rate);
                let v = w.logged(
                    crate::impact::damage_row(
                        DamageType::Poison,
                        e.target as int,
                        damage,
                        erosion,
                    ),
                );
                crate::harm::lemma_hurt_survived(
                    v,
                    fid,
                    damage as i32,
                    erosion as i32,
                    Some(e.caster),
                );
                assert(after == v.hurt(fid, damage as i32, erosion as i32, Some(e.caster)));
                assert(after.spared(w, fid));
            }
        },
        EffectType::Aftereffect => {
            let value = crate::power::at_most(e.value as int, t.life as int);
            let erosion = crate::power::eroded(value, e.erosion_rate);
            let v = w.with_effect(ei, EffectView { value: value as i32, ..e }).logged(
                crate::impact::damage_row(DamageType::Poison, e.target as int, value, erosion),
            );
            assert(v.wf());
            crate::harm::lemma_hurt_survived(v, fid, value as i32, erosion as i32, Some(e.caster));
            assert(after == v.hurt(fid, value as i32, erosion as i32, Some(e.caster)));
            assert(after.spared(w, fid));
        },
        _ => {},
    }
}

impl World {
    /// Whether only the lives of one fighter, and what effects are worth, may
    /// differ from before.
    pub open spec fn spared(self, before: World, fid: int) -> bool {
        &&& self.fighters.len() == before.fighters.len()
        &&& self.effects.len() == before.effects.len()
        &&& forall|e: int|
            0 <= e < self.effects.len() ==> {
                &&& (#[trigger] self.effects[e]).turns == before.effects[e].turns
                &&& self.effects[e].target == before.effects[e].target
            }
        &&& forall|i: int|
            0 <= i < self.fighters.len() && i != fid ==> #[trigger] self.fighters[i]
                == before.fighters[i]
        &&& self.fighters[fid].launched_effects == before.fighters[fid].launched_effects
        &&& self.fighters[fid].effects == before.fighters[fid].effects
    }
}

/// The beginning of a turn that the fighter survives comes to the growing older
/// of what it has cast.
proof fn lemma_ticks_spare(w: World, fid: int, list: Seq<usize>, i: int) -> (v: World)
    requires
        w.wf(),
        0 <= fid < w.fighters.len(),
        0 <= i <= list.len(),
        forall|k: int|
            0 <= k < list.len() ==> #[trigger] list[k] < w.effects.len()
                && w.effects[list[k] as int].target == fid,
        !w.fighters[fid].is_dead(),
        !w.ticked_from(fid, list, i).fighters[fid].is_dead(),
    ensures
        v.wf(),
        v.spared(w, fid),
        w.ticked_from(fid, list, i) == v.expired_from(fid, 0),
    decreases list.len() - i,
{
    if i == list.len() {
        w
    } else {
        assert(list[i] < w.effects.len());
        let u = w.effect_ticked(list[i] as int);
        if u.fighters[fid].is_dead() {
            w
        } else {
            lemma_tick_spares(w, fid, list[i] as int);
            assert forall|k: int| 0 <= k < list.len() implies #[trigger] list[k] < u.effects.len()
                && u.effects[list[k] as int].target == fid by {
                assert(u.effects[list[k] as int].target == w.effects[list[k] as int].target);
            }
            let v = lemma_ticks_spare(u, fid, list, i + 1);
            assert forall|e: int| 0 <= e < v.effects.len() implies {
                &&& (#[trigger] v.effects[e]).turns == w.effects[e].turns
                &&& v.effects[e].target == w.effects[e].target
            } by {
                assert(u.effects[e].turns == w.effects[e].turns);
            }
            assert forall|j: int| 0 <= j < v.fighters.len() && j != fid implies
                #[trigger] v.fighters[j] == w.fighters[j] by {
                assert(u.fighters[j] == w.fighters[j]);
            }
            v
        }
    }
}

impl World {
    /// Whether a living fighter begins a turn that it survives: what is on it
    /// aims at it, and it has cast nothing twice.
    pub open spec fn begins(self, fid: int) -> bool {
        &&& self.wf()
        &&& 0 <= fid < self.fighters.len()
        &&& !self.fighters[fid].is_dead()
        &&& !self.turn_started(fid).fighters[fid].is_dead()
        &&& self.fighters[fid].launched_effects.no_duplicates()
        &&& forall|j: int|
            0 <= j < self.fighters[fid].effects.len()
                ==> self.effects[#[trigger] self.fighters[fid].effects[j] as int].target == fid
    }
}

/// A turn begins with what is on the fighter, and then what it has cast grows
/// older.
proof fn lemma_turn_start(w: World, fid: int) -> (v: World)
    requires
        w.begins(fid),
    ensures
        v.wf(),
        v.spared(w, fid),
        w.turn_started(fid) == v.expired_from(fid, 0),
{
    let f = w.fighters[fid];
    assert(f.fits(fid, w.teams.len() as int, w.board.cells.len() as int, w.effects.len() as int));
    let w0 = w.with_fighter(fid, f.cooled());
    crate::harm::lemma_with_fighter(w, fid, f.cooled());
    let own = f.effects;
    assert forall|k: int| 0 <= k < own.len() implies #[trigger] own[k] < w0.effects.len()
        && w0.effects[own[k] as int].target == fid by {
        assert(w.effects[w.fighters[fid].effects[k] as int].target == fid);
    }
    let v = lemma_ticks_spare(w0, fid, own, 0);
    assert forall|j: int| 0 <= j < v.fighters.len() && j != fid implies #[trigger] v.fighters[j]
        == w.fighters[j] by {
        assert(v.fighters[j] == w0.fighters[j]);
    }
    v
}

/// At the beginning of a turn that a fighter survives, every effect that it has
/// cast and that has two or more turns left has one less and stays; one with a
/// single turn left is gone from its target; and only one that stays for good
/// keeps its turns.
pub proof fn lemma_effects_grow_older(w: World, fid: int, e: usize)
    requires
        w.begins(fid),
        w.fighters[fid].launched_effects.contains(e),
    ensures
        ({
            let after = w.turn_started(fid);
            let kept = after.fighters[fid].launched_effects;
            let n = w.effects[e as int].turns;
            let t = w.effects[e as int].target as int;
            &&& e < after.effects.len()
            &&& after.effects[e as int].target == t
            &&& kept.no_duplicates()
            &&& n >= 2 ==> after.effects[e as int].turns == n - 1 && kept.contains(e)
                && after.fighters[t].effects.contains(e) == w.fighters[t].effects.contains(e)
            &&& n == 1 ==> !after.fighters[t].effects.contains(e) && !kept.contains(e)
            &&& n == -1 ==> after.effects[e as int].turns == -1 && kept.contains(e)
        }),
{
    let v = lemma_turn_start(w, fid);
    let list = w.fighters[fid].launched_effects;
    assert(v.in_list(fid, 0));
    lemma_older_effects(v, fid, 0);
    lemma_older_list(v, fid, 0);
    lemma_older_targets(v, fid, 0);
    let k = choose|k: int| 0 <= k < list.len() && list[k] == e;
    let f = w.fighters[fid];
    assert(f.fits(fid, w.teams.len() as int, w.board.cells.len() as int, w.effects.len() as int));
    assert(list[k] < w.effects.len());
    assert(w.effects[e as int].fits(w.fighters.len() as int));
    assert(v.effects[e as int].turns == w.effects[e as int].turns);
    let t = w.effects[e as int].target as int;
    if t == fid {
        assert(v.fighters[t].effects == w.fighters[t].effects);
    } else {
        assert(v.fighters[t] == w.fighters[t]);
    }
    let after = w.turn_started(fid);
    assert(v.fighters[fid].launched_effects[k] == e);
    assert(after.fighters[t].effects.contains(e) || !after.fighters[t].effects.contains(e));
}

/// The effects of other casters have their turns as before when a turn begins.
pub proof fn lemma_others_do_not_grow_older(w: World, fid: int, e: usize)
    requires
        w.begins(fid),
        e < w.effects.len(),
        !w.fighters[fid].launched_effects.contains(e),
    ensures
        w.turn_started(fid).effects[e as int].turns == w.effects[e as int].turns,
{
    let v = lemma_turn_start(w, fid);
    let list = w.fighters[fid].launched_effects;
    assert(v.in_list(fid, 0));
    lemma_older_effects(v, fid, 0);
    assert(!listed(list, 0, e)) by {
        if listed(list, 0, e) {
            let k = choose|k: int| 0 <= k < list.len() && #[trigger] list[k] == e;
            assert(list.contains(e));
        }
    }
    assert(v.effects[e as int].turns == w.effects[e as int].turns);
    assert(w.turn_started(fid).effects[e as int] == v.effects[e as int]);
}

/// A fighter whose last effect ends when another's turn begins has nothing added
/// to its characteristics any more, and no state.
pub proof fn lemma_ended_effects_leave_nothing(w: World, fid: int, t: int)
    requires
        w.begins(fid),
        0 <= t < w.fighters.len(),
        t != fid,
        w.fighters[t].effects.len() > 0,
        w.turn_started(fid).fighters[t].effects.len() == 0,
    ensures
        forall|i: int|
            0 <= i < crate::fighter::STAT_COUNT ==> #[trigger] w.turn_started(
                fid,
            ).fighters[t].buff_stats[i] == 0,
        w.turn_started(fid).fighters[t].states.len() == 0,
{
    let v = lemma_turn_start(w, fid);
    assert(v.in_list(fid, 0));
    lemma_older_empty(v, fid, 0);
    assert(v.fighters[t] == w.fighters[t]);
    let g = v.expired_from(fid, 0).fighters[t];
    assert(g.buff_stats == crate::fighter::no_stats());
}

/// An effect that was laid for a number of turns is over when as many turns of
/// its caster have begun: `turns` are the moments at which they begin, and in
/// between the effect has the turns that it had, and is not forgotten.
pub proof fn lemma_effects_end(turns: Seq<World>, fid: int, e: usize)
    requires
        turns.len() >= 1,
        turns.len() == turns[0].effects[e as int].turns,
        turns[0].fighters[fid].launched_effects.contains(e),
        forall|i: int| 0 <= i < turns.len() ==> (#[trigger] turns[i]).begins(fid),
        forall|i: int| 1 <= i < turns.len() ==> #[trigger] follows(turns, i, fid, e),
    ensures
        ({
            let last = turns.last().turn_started(fid);
            &&& !last.fighters[turns.last().effects[e as int].target as int].effects.contains(e)
            &&& !last.fighters[fid].launched_effects.contains(e)
        }),
{
    lemma_turns_count_down(turns, fid, e, turns.len() - 1);
    lemma_effects_grow_older(turns[turns.len() - 1], fid, e);
}

/// Whether an effect has, when the `i`-th turn begins, the turns that it had
/// after the beginning of the one before, and still belongs to its caster.
pub open spec fn follows(turns: Seq<World>, i: int, fid: int, e: usize) -> bool {
    let past = turns[i - 1].turn_started(fid);
    &&& turns[i].effects[e as int].turns == past.effects[e as int].turns
    &&& past.fighters[fid].launched_effects.contains(e)
        ==> turns[i].fighters[fid].launched_effects.contains(e)
}

proof fn lemma_turns_count_down(turns: Seq<World>, fid: int, e: usize, i: int)
    requires
        0 <= i < turns.len(),
        turns.len() == turns[0].effects[e as int].turns,
        turns[0].fighters[fid].launched_effects.contains(e),
        forall|i: int| 0 <= i < turns.len() ==> (#[trigger] turns[i]).begins(fid),
        forall|i: int| 1 <= i < turns.len() ==> #[trigger] follows(turns, i, fid, e),
    ensures
        turns[i].effects[e as int].turns == turns.len() - i,
        turns[i].fighters[fid].launched_effects.contains(e),
    decreases i,
{
    if i > 0 {
        lemma_turns_count_down(turns, fid, e, i - 1);
        lemma_effects_grow_older(turns[i - 1], fid, e);
        assert(follows(turns, i, fid, e));
    }
}

} // verus!
