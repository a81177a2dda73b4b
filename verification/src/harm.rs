//! Life and death: losing and gaining life, losing effects, and dying with
//! everyone one has summoned.

use crate::actions::Action;
use crate::attack::EntityState;
use crate::fighter::{FighterView, Stats, TeamView};
use crate::world::{EffectView, State, World};
use vstd::prelude::*;

verus! {

/// What the effects of a list add to the characteristics, together.
pub open spec fn stat_total(list: Seq<usize>, effects: Seq<EffectView>) -> Seq<i32>
    decreases list.len(),
{
    if list.len() == 0 {
        crate::fighter::no_stats()
    } else {
        crate::fighter::summed(
            stat_total(list.drop_last(), effects),
            effects[list.last() as int].stats,
        )
    }
}

/// The states that the effects of a list pin on a fighter.
pub open spec fn state_list(list: Seq<usize>, effects: Seq<EffectView>) -> Seq<EntityState>
    decreases list.len(),
{
    if list.len() == 0 {
        Seq::empty()
    } else {
        let before = state_list(list.drop_last(), effects);
        match effects[list.last() as int].state {
            Some(s) => before.push(s),
            None => before,
        }
    }
}

/// The living members of a list whom `fid` has summoned.
pub open spec fn followers_of(list: Seq<usize>, fighters: Seq<FighterView>, fid: usize) -> Seq<
    usize,
>
    decreases list.len(),
{
    if list.len() == 0 {
        Seq::empty()
    } else {
        let before = followers_of(list.drop_last(), fighters, fid);
        let f = fighters[list.last() as int];
        if !f.is_dead() && f.summoner == Some(fid) {
            before.push(list.last())
        } else {
            before
        }
    }
}

/// How many fighters are alive.
pub open spec fn alive(fighters: Seq<FighterView>) -> nat
    decreases fighters.len(),
{
    if fighters.len() == 0 {
        0
    } else {
        alive(fighters.drop_last()) + if fighters.last().is_dead() {
            0nat
        } else {
            1nat
        }
    }
}

/// Whether the lives of two lists of fighters are the same.
pub open spec fn same_lives(a: Seq<FighterView>, b: Seq<FighterView>) -> bool {
    a.len() == b.len() && forall|i: int|
        #![trigger a[i]]
        #![trigger b[i]]
        0 <= i < a.len() ==> a[i].life == b[i].life
}

impl World {
    /// The characteristics and the states of a fighter follow from its
    /// effects.
    pub open spec fn refreshed(self, fid: int) -> World {
        let f = self.fighters[fid];
        self.with_fighter(
            fid,
            FighterView {
                buff_stats: stat_total(f.effects, self.effects),
                states: state_list(f.effects, self.effects),
                ..f
            },
        )
    }

    /// An effect leaves its target. The caster still remembers it.
    pub open spec fn effect_removed(self, target: int, ei: usize) -> World {
        let f = self.fighters[target];
        self.logged(
            crate::json::row(
                seq![crate::actions::REMOVE_EFFECT as int, self.effects[ei as int].log_id as int],
            ),
        ).with_fighter(
            target,
            FighterView { effects: crate::lists::without(f.effects, ei), ..f },
        ).refreshed(target)
    }

    /// The first `n` effects of a list leave their targets.
    pub open spec fn undone(self, list: Seq<usize>, n: nat) -> World
        decreases n,
    {
        if n == 0 {
            self
        } else {
            let w = self.undone(list, (n - 1) as nat);
            w.effect_removed(w.effects[list[n - 1] as int].target as int, list[n - 1])
        }
    }

    /// The caster of an effect forgets it.
    pub open spec fn forgotten(self, ei: usize) -> World {
        let caster = self.effects[ei as int].caster as int;
        let f = self.fighters[caster];
        self.with_fighter(
            caster,
            FighterView {
                launched_effects: crate::lists::without(f.launched_effects, ei),
                ..f
            },
        )
    }

    /// The casters of the first `n` effects of a list forget them.
    pub open spec fn all_forgotten(self, list: Seq<usize>, n: nat) -> World
        decreases n,
    {
        if n == 0 {
            self
        } else {
            self.all_forgotten(list, (n - 1) as nat).forgotten(list[n - 1])
        }
    }

    /// The fighter loses its life, the effects that it has cast, and those on
    /// it.
    pub open spec fn fallen(self, fid: int) -> World {
        let launched = self.fighters[fid].launched_effects;
        let a = self.with_fighter(fid, FighterView { life: 0, ..self.fighters[fid] }).undone(
            launched,
            launched.len(),
        );
        let b = a.with_fighter(
            fid,
            FighterView { launched_effects: Seq::empty(), ..a.fighters[fid] },
        );
        let c = b.all_forgotten(b.fighters[fid].effects, b.fighters[fid].effects.len());
        c.with_fighter(fid, FighterView { effects: Seq::empty(), ..c.fighters[fid] }).refreshed(fid)
    }

    /// The living members of the fighter's team whom it has summoned.
    pub open spec fn followers(self, fid: int) -> Seq<usize> {
        followers_of(
            self.teams[self.fighters[fid].team as int].fighters,
            self.fighters,
            fid as usize,
        )
    }

    /// The fighter leaves the order of play and the board, and the journal
    /// says so.
    pub open spec fn reported_dead(self, fid: int, killer: Option<usize>) -> World {
        World { order: self.order.removed(fid as usize), ..self }.taken_off(fid).logged(
            match killer {
                Some(k) => crate::json::row(
                    seq![crate::actions::PLAYER_DEAD as int, fid, k as int],
                ),
                None => crate::json::row(seq![crate::actions::PLAYER_DEAD as int, fid]),
            },
        )
    }

    /// The fighters of a list die, each with everyone it has summoned before
    /// the next.
    pub open spec fn all_dead(self, pending: Seq<usize>) -> World
        decreases alive(self.fighters), pending.len(),
            when self.wf() && crate::fighter::all_below(pending, self.fighters.len() as int)
    {
        if pending.len() == 0 {
            self
        } else if self.fighters[pending[0] as int].is_dead() {
            self.all_dead(pending.drop_first())
        } else {
            let s = pending[0] as int;
            let w = self.reported_dead(s, None).fallen(s);
            proof {
                lemma_death_counts(self, s);
            }
            w.all_dead(w.followers(s) + pending.drop_first())
        }
    }

    /// The fighter dies, and then everyone it has summoned.
    pub open spec fn died(self, fid: int) -> World {
        self.fallen(fid).all_dead(self.fallen(fid).followers(fid))
    }

    /// Whether nobody has more life than before, nobody has moved but off the
    /// board, and whoever has died stands nowhere.
    pub open spec fn withers(self, before: World) -> bool {
        &&& self.fighters.len() == before.fighters.len()
        &&& forall|i: int|
            #![trigger self.fighters[i]]
            #![trigger before.fighters[i]]
            0 <= i < self.fighters.len() ==> {
                let f = self.fighters[i];
                let g = before.fighters[i];
                &&& f.life <= crate::power::at_least(g.life as int, 0)
                &&& f.cell == g.cell || f.cell is None
                &&& f.is_dead() && !g.is_dead() ==> f.cell is None
            }
    }

    /// The fighter loses life and total life; one that is left without life
    /// dies. Nothing happens to the dead.
    #[verifier::opaque]
    pub open spec fn hurt(self, target: int, pv: i32, erosion: i32, attacker: Option<usize>) -> World {
        let f = self.fighters[target];
        if f.is_dead() {
            self
        } else {
            let loss = crate::power::at_most(crate::power::at_least(pv as int, 0), f.life as int);
            let worn = f.total_life.wrapping_sub(crate::power::at_least(erosion as int, 0) as i32);
            let w = self.with_fighter(
                target,
                FighterView {
                    life: (f.life - loss) as i32,
                    total_life: crate::power::at_least(worn as int, 1) as i32,
                    ..f
                },
            );
            if loss == f.life {
                w.reported_dead(target, attacker).died(target)
            } else {
                w
            }
        }
    }

    /// The fighter gains life, up to its total. One above its total gains
    /// nothing.
    pub open spec fn healed(self, target: int, pv: i32) -> World {
        let f = self.fighters[target];
        let room = crate::power::at_least(f.total_life.wrapping_sub(f.life) as int, 0);
        let gain = crate::power::at_most(crate::power::at_least(pv as int, 0), room);
        self.with_fighter(
            target,
            FighterView { life: f.life.wrapping_add(gain as i32), ..f },
        )
    }
}

/// With equal lives, as many fighters are alive.
proof fn lemma_alive_same(a: Seq<FighterView>, b: Seq<FighterView>)
    requires
        same_lives(a, b),
    ensures
        alive(a) == alive(b),
    decreases a.len(),
{
    if a.len() > 0 {
        assert(same_lives(a.drop_last(), b.drop_last()));
        lemma_alive_same(a.drop_last(), b.drop_last());
        assert(a[a.len() - 1].life == b[b.len() - 1].life);
    }
}

/// When one fighter loses its life, one less is alive.
proof fn lemma_alive_less(a: Seq<FighterView>, b: Seq<FighterView>, s: int)
    requires
        a.len() == b.len(),
        0 <= s < a.len(),
        !a[s].is_dead(),
        b[s].is_dead(),
        forall|i: int|
            #![trigger a[i]]
            #![trigger b[i]]
            0 <= i < a.len() && i != s ==> a[i].life == b[i].life,
    ensures
        alive(b) + 1 == alive(a),
    decreases a.len(),
{
    let a1 = a.drop_last();
    let b1 = b.drop_last();
    if s == a.len() - 1 {
        assert(same_lives(a1, b1));
        lemma_alive_same(a1, b1);
    } else {
        assert(a1[s] == a[s] && b1[s] == b[s]);
        lemma_alive_less(a1, b1, s);
        assert(a[a.len() - 1].life == b[b.len() - 1].life);
    }
}

/// Whether the fighters stand where they stood.
pub open spec fn same_cells(a: Seq<FighterView>, b: Seq<FighterView>) -> bool {
    &&& a.len() == b.len()
    &&& forall|i: int|
        #![trigger a[i]]
        #![trigger b[i]]
        0 <= i < a.len() ==> a[i].cell == b[i].cell
}

/// Removing effects takes no lives and moves nobody.
proof fn lemma_undone_lives(w: World, list: Seq<usize>, n: nat)
    requires
        n <= list.len(),
        crate::fighter::all_below(list, w.effects.len() as int),
        forall|e: int|
            0 <= e < w.effects.len() ==> (#[trigger] w.effects[e]).fits(w.fighters.len() as int),
    ensures
        same_lives(w.undone(list, n).fighters, w.fighters),
        same_cells(w.undone(list, n).fighters, w.fighters),
        w.undone(list, n).effects == w.effects,
    decreases n,
{
    if n > 0 {
        lemma_undone_lives(w, list, (n - 1) as nat);
        let v = w.undone(list, (n - 1) as nat);
        assert(list[n - 1] < w.effects.len());
        assert(v.effects[list[n - 1] as int].fits(w.fighters.len() as int));
    }
}

/// Forgetting effects takes no lives and moves nobody.
proof fn lemma_forgotten_lives(w: World, list: Seq<usize>, n: nat)
    requires
        n <= list.len(),
        crate::fighter::all_below(list, w.effects.len() as int),
        forall|e: int|
            0 <= e < w.effects.len() ==> (#[trigger] w.effects[e]).fits(w.fighters.len() as int),
    ensures
        same_lives(w.all_forgotten(list, n).fighters, w.fighters),
        same_cells(w.all_forgotten(list, n).fighters, w.fighters),
        w.all_forgotten(list, n).effects == w.effects,
    decreases n,
{
    if n > 0 {
        lemma_forgotten_lives(w, list, (n - 1) as nat);
        let v = w.all_forgotten(list, (n - 1) as nat);
        assert(list[n - 1] < w.effects.len());
        assert(v.effects[list[n - 1] as int].fits(w.fighters.len() as int));
    }
}

/// What is left of a list after removals is as low as before.
proof fn lemma_without_below(list: Seq<usize>, x: usize, n: int)
    requires
        crate::fighter::all_below(list, n),
    ensures
        crate::fighter::all_below(crate::lists::without(list, x), n),
{
    crate::lists::lemma_without(list, x);
    let w = crate::lists::without(list, x);
    assert forall|i: int| 0 <= i < w.len() implies (#[trigger] w[i]) < n by {
        assert(w.contains(w[i]));
        assert(list.contains(w[i]));
    }
}

/// Removing effects leaves lists of effects that exist.
proof fn lemma_undone_lists(w: World, list: Seq<usize>, n: nat, i: int)
    requires
        n <= list.len(),
        crate::fighter::all_below(list, w.effects.len() as int),
        0 <= i < w.fighters.len(),
        crate::fighter::all_below(w.fighters[i].effects, w.effects.len() as int),
        forall|e: int|
            0 <= e < w.effects.len() ==> (#[trigger] w.effects[e]).fits(w.fighters.len() as int),
    ensures
        crate::fighter::all_below(w.undone(list, n).fighters[i].effects, w.effects.len() as int),
    decreases n,
{
    if n > 0 {
        lemma_undone_lists(w, list, (n - 1) as nat, i);
        lemma_undone_lives(w, list, (n - 1) as nat);
        let v = w.undone(list, (n - 1) as nat);
        assert(list[n - 1] < w.effects.len());
        assert(v.effects[list[n - 1] as int].fits(w.fighters.len() as int));
        lemma_without_below(v.fighters[i].effects, list[n - 1], w.effects.len() as int);
    }
}

/// A fighter that falls is dead, and nobody else; nobody moves.
pub proof fn lemma_fallen_lives(w: World, s: int)
    requires
        w.wf(),
        0 <= s < w.fighters.len(),
    ensures
        w.fallen(s).fighters.len() == w.fighters.len(),
        w.fallen(s).fighters[s].life == 0,
        same_cells(w.fallen(s).fighters, w.fighters),
        forall|i: int|
            #![trigger w.fallen(s).fighters[i]]
            #![trigger w.fighters[i]]
            0 <= i < w.fighters.len() && i != s ==> w.fallen(s).fighters[i].life
                == w.fighters[i].life,
{
    let launched = w.fighters[s].launched_effects;
    let w0 = w.with_fighter(s, FighterView { life: 0, ..w.fighters[s] });
    assert(w.fighters[s].fits(
        s,
        w.teams.len() as int,
        w.board.cells.len() as int,
        w.effects.len() as int,
    ));
    lemma_undone_lives(w0, launched, launched.len());
    lemma_undone_lists(w0, launched, launched.len(), s);
    let a = w0.undone(launched, launched.len());
    let b = a.with_fighter(s, FighterView { launched_effects: Seq::empty(), ..a.fighters[s] });
    lemma_forgotten_lives(b, b.fighters[s].effects, b.fighters[s].effects.len());
    let c = b.all_forgotten(b.fighters[s].effects, b.fighters[s].effects.len());
    assert forall|i: int|
        #![trigger w.fallen(s).fighters[i]]
        #![trigger w.fighters[i]]
        0 <= i < w.fighters.len() && i != s implies w.fallen(s).fighters[i].life
        == w.fighters[i].life by {
        assert(w0.fighters[i] == w.fighters[i]);
        assert(a.fighters[i].life == w0.fighters[i].life);
        assert(b.fighters[i] == a.fighters[i]);
        assert(c.fighters[i].life == b.fighters[i].life);
    }
    assert(c.fighters[s].life == b.fighters[s].life);
    assert(a.fighters[s].life == w0.fighters[s].life);
}

/// Whoever dies is one less alive.
pub proof fn lemma_death_counts(w: World, s: int)
    requires
        w.wf(),
        0 <= s < w.fighters.len(),
        !w.fighters[s].is_dead(),
    ensures
        alive(w.reported_dead(s, None).fallen(s).fighters) < alive(w.fighters),
{
    let r = w.reported_dead(s, None);
    lemma_reported_fits(w, s, None);
    let launched = r.fighters[s].launched_effects;
    lemma_fallen_lives(r, s);
    assert(same_lives(r.fighters, w.fighters));
    lemma_alive_less(w.fighters, r.fallen(s).fighters, s);
}

/// A world in which a death was reported is one.
proof fn lemma_reported_fits(w: World, s: int, killer: Option<usize>)
    requires
        w.wf(),
        0 <= s < w.fighters.len(),
    ensures
        w.reported_dead(s, killer).wf(),
        same_lives(w.reported_dead(s, killer).fighters, w.fighters),
{
    let r = w.reported_dead(s, killer);
    w.order.lemma_wf(s as usize, 0, 0);
    crate::lists::lemma_place(w.order.fids, s as usize);
    assert(crate::fighter::all_below(r.order.fids, w.fighters.len() as int));
    if let Some(c) = w.fighters[s].cell {
        crate::lists::lemma_without(w.board.occupied, c);
        assert forall|i: int| 0 <= i < r.board.occupied.len() implies #[trigger] r.board.occupied[i]
            < r.board.cells.len() by {
            assert(r.board.occupied.contains(r.board.occupied[i]));
        }
    }
}

/// Whether a list has nothing new, and nothing twice that was there once.
pub open spec fn fewer(list: Seq<usize>, before: Seq<usize>) -> bool {
    &&& forall|x: usize| #[trigger] list.contains(x) ==> before.contains(x)
    &&& before.no_duplicates() ==> list.no_duplicates()
}

impl World {
    /// Whether no effect has other turns, another caster or another target than
    /// before, and no fighter has, or has cast, an effect that it had not.
    pub open spec fn remembers(self, before: World) -> bool {
        &&& self.fighters.len() == before.fighters.len()
        &&& self.effects.len() == before.effects.len()
        &&& forall|e: int|
            0 <= e < self.effects.len() ==> {
                &&& (#[trigger] self.effects[e]).turns == before.effects[e].turns
                &&& self.effects[e].caster == before.effects[e].caster
                &&& self.effects[e].target == before.effects[e].target
            }
        &&& forall|i: int|
            0 <= i < self.fighters.len() ==> {
                &&& fewer(
                    (#[trigger] self.fighters[i]).launched_effects,
                    before.fighters[i].launched_effects,
                )
                &&& fewer(self.fighters[i].effects, before.fighters[i].effects)
            }
    }
}

pub(crate) proof fn lemma_remembers_on(a: World, b: World, c: World)
    requires
        b.remembers(a),
        c.remembers(b),
    ensures
        c.remembers(a),
{
    assert forall|i: int| 0 <= i < c.fighters.len() implies {
        &&& fewer((#[trigger] c.fighters[i]).launched_effects, a.fighters[i].launched_effects)
        &&& fewer(c.fighters[i].effects, a.fighters[i].effects)
    } by {
        assert(b.fighters[i] == b.fighters[i]);
    }
    assert forall|e: int| 0 <= e < c.effects.len() implies {
        &&& (#[trigger] c.effects[e]).turns == a.effects[e].turns
        &&& c.effects[e].caster == a.effects[e].caster
        &&& c.effects[e].target == a.effects[e].target
    } by {
        assert(b.effects[e] == b.effects[e]);
    }
}

/// A list without an item has nothing new, and nothing twice.
pub(crate) proof fn lemma_without_fewer(s: Seq<usize>, x: usize)
    ensures
        fewer(crate::lists::without(s, x), s),
    decreases s.len(),
{
    crate::lists::lemma_without(s, x);
    assert forall|y: usize| #[trigger] crate::lists::without(s, x).contains(y) implies s.contains(
        y,
    ) by {
        if y == x {
        }
    }
    if s.no_duplicates() && s.len() > 0 {
        let t = s.drop_last();
        assert(t.no_duplicates());
        lemma_without_fewer(t, x);
        let u = crate::lists::without(t, x);
        if s.last() != x {
            let r = u.push(s.last());
            assert(r == crate::lists::without(s, x));
            assert(!u.contains(s.last())) by {
                if u.contains(s.last()) {
                    assert(t.contains(s.last()));
                    let i = choose|i: int| 0 <= i < t.len() && t[i] == s.last();
                    assert(s[i] == s[s.len() - 1]);
                }
            }
            assert forall|i: int, j: int| 0 <= i < r.len() && 0 <= j < r.len() && i != j implies r[i]
                != r[j] by {
                if i < u.len() && j < u.len() {
                    assert(r[i] == u[i] && r[j] == u[j]);
                } else if i < u.len() {
                    assert(u.contains(u[i]));
                } else {
                    assert(u.contains(u[j]));
                }
            }
        }
    }
}

/// Nor has one without what stands at a place.
pub(crate) proof fn lemma_remove_fewer(s: Seq<usize>, i: int)
    requires
        0 <= i < s.len(),
    ensures
        fewer(s.remove(i), s),
{
    let r = s.remove(i);
    assert forall|x: usize| #[trigger] r.contains(x) implies s.contains(x) by {
        let k = choose|k: int| 0 <= k < r.len() && r[k] == x;
        assert(s[if k < i {
            k
        } else {
            k + 1
        }] == x);
    }
}

proof fn lemma_stat_total_len(list: Seq<usize>, effects: Seq<EffectView>)
    ensures
        stat_total(list, effects).len() == crate::fighter::STAT_COUNT,
{
}

/// An effect that is taken off leaves a world, in which the effect is gone from
/// its target and nothing else.
pub proof fn lemma_effect_removed(w: World, target: int, ei: usize)
    requires
        w.wf(),
        0 <= target < w.fighters.len(),
        ei < w.effects.len(),
    ensures
        w.effect_removed(target, ei).wf(),
        w.effect_removed(target, ei).effects == w.effects,
        w.effect_removed(target, ei).remembers(w),
        !w.effect_removed(target, ei).fighters[target].effects.contains(ei),
        forall|x: usize|
            x != ei && w.fighters[target].effects.contains(x)
                ==> #[trigger] w.effect_removed(target, ei).fighters[target].effects.contains(x),
        w.effect_removed(target, ei).fighters[target].effects.len() == 0 ==> {
            &&& w.effect_removed(target, ei).fighters[target].buff_stats
                == crate::fighter::no_stats()
            &&& w.effect_removed(target, ei).fighters[target].states.len() == 0
        },
        forall|i: int|
            0 <= i < w.fighters.len() ==> {
                let f = #[trigger] w.effect_removed(target, ei).fighters[i];
                &&& f.launched_effects == w.fighters[i].launched_effects
                &&& f.life == w.fighters[i].life
                &&& i != target ==> f == w.fighters[i]
            },
{
    let f = w.fighters[target];
    assert(f.fits(
        target,
        w.teams.len() as int,
        w.board.cells.len() as int,
        w.effects.len() as int,
    ));
    lemma_without_below(f.effects, ei, w.effects.len() as int);
    lemma_without_fewer(f.effects, ei);
    crate::lists::lemma_without(f.effects, ei);
    let off = w.effect_removed(target, ei);
    lemma_stat_total_len(off.fighters[target].effects, w.effects);
    assert forall|i: int| 0 <= i < off.fighters.len() implies (#[trigger] off.fighters[i]).fits(
        i,
        off.teams.len() as int,
        off.board.cells.len() as int,
        off.effects.len() as int,
    ) by {
        assert(w.fighters[i].fits(
            i,
            w.teams.len() as int,
            w.board.cells.len() as int,
            w.effects.len() as int,
        ));
    }
}

pub(crate) proof fn lemma_forgotten(w: World, ei: usize)
    requires
        w.wf(),
        ei < w.effects.len(),
    ensures
        w.forgotten(ei).wf(),
        w.forgotten(ei).effects == w.effects,
        w.forgotten(ei).remembers(w),
{
    assert(w.effects[ei as int].fits(w.fighters.len() as int));
    let c = w.effects[ei as int].caster as int;
    let f = w.fighters[c];
    assert(f.fits(c, w.teams.len() as int, w.board.cells.len() as int, w.effects.len() as int));
    lemma_without_below(f.launched_effects, ei, w.effects.len() as int);
    lemma_without_fewer(f.launched_effects, ei);
    let off = w.forgotten(ei);
    assert forall|i: int| 0 <= i < off.fighters.len() implies (#[trigger] off.fighters[i]).fits(
        i,
        off.teams.len() as int,
        off.board.cells.len() as int,
        off.effects.len() as int,
    ) by {
        assert(w.fighters[i].fits(
            i,
            w.teams.len() as int,
            w.board.cells.len() as int,
            w.effects.len() as int,
        ));
    }
}

proof fn lemma_undone_remembers(w: World, list: Seq<usize>, n: nat)
    requires
        w.wf(),
        n <= list.len(),
        crate::fighter::all_below(list, w.effects.len() as int),
    ensures
        w.undone(list, n).wf(),
        w.undone(list, n).effects == w.effects,
        w.undone(list, n).remembers(w),
    decreases n,
{
    if n > 0 {
        lemma_undone_remembers(w, list, (n - 1) as nat);
        let v = w.undone(list, (n - 1) as nat);
        assert(list[n - 1] < w.effects.len());
        assert(v.effects[list[n - 1] as int].fits(v.fighters.len() as int));
        lemma_effect_removed(v, v.effects[list[n - 1] as int].target as int, list[n - 1]);
        lemma_remembers_on(w, v, w.undone(list, n));
    }
}

proof fn lemma_all_forgotten_remembers(w: World, list: Seq<usize>, n: nat)
    requires
        w.wf(),
        n <= list.len(),
        crate::fighter::all_below(list, w.effects.len() as int),
    ensures
        w.all_forgotten(list, n).wf(),
        w.all_forgotten(list, n).effects == w.effects,
        w.all_forgotten(list, n).remembers(w),
    decreases n,
{
    if n > 0 {
        lemma_all_forgotten_remembers(w, list, (n - 1) as nat);
        let v = w.all_forgotten(list, (n - 1) as nat);
        assert(list[n - 1] < w.effects.len());
        lemma_forgotten(v, list[n - 1]);
        lemma_remembers_on(w, v, w.all_forgotten(list, n));
    }
}

/// A change of one fighter that keeps its places and adds no effects.
pub(crate) proof fn lemma_with_fighter(w: World, i: int, f: FighterView)
    requires
        w.wf(),
        0 <= i < w.fighters.len(),
        f.fits(i, w.teams.len() as int, w.board.cells.len() as int, w.effects.len() as int),
        fewer(f.effects, w.fighters[i].effects),
        fewer(f.launched_effects, w.fighters[i].launched_effects),
    ensures
        w.with_fighter(i, f).wf(),
        w.with_fighter(i, f).remembers(w),
{
}

pub(crate) proof fn lemma_fallen_remembers(w: World, s: int)
    requires
        w.wf(),
        0 <= s < w.fighters.len(),
    ensures
        w.fallen(s).wf(),
        w.fallen(s).remembers(w),
{
    let f = w.fighters[s];
    assert(f.fits(s, w.teams.len() as int, w.board.cells.len() as int, w.effects.len() as int));
    let launched = f.launched_effects;
    let w0 = w.with_fighter(s, FighterView { life: 0, ..f });
    lemma_with_fighter(w, s, FighterView { life: 0, ..f });
    lemma_undone_remembers(w0, launched, launched.len());
    let a = w0.undone(launched, launched.len());
    lemma_remembers_on(w, w0, a);
    let fa = FighterView { launched_effects: Seq::empty(), ..a.fighters[s] };
    assert(a.fighters[s].fits(
        s,
        a.teams.len() as int,
        a.board.cells.len() as int,
        a.effects.len() as int,
    ));
    lemma_with_fighter(a, s, fa);
    let b = a.with_fighter(s, fa);
    lemma_remembers_on(w, a, b);
    let own = b.fighters[s].effects;
    assert(b.fighters[s].fits(
        s,
        b.teams.len() as int,
        b.board.cells.len() as int,
        b.effects.len() as int,
    ));
    lemma_all_forgotten_remembers(b, own, own.len());
    let c = b.all_forgotten(own, own.len());
    lemma_remembers_on(w, b, c);
    assert(c.fighters[s].fits(
        s,
        c.teams.len() as int,
        c.board.cells.len() as int,
        c.effects.len() as int,
    ));
    let fc = FighterView { effects: Seq::empty(), ..c.fighters[s] };
    lemma_with_fighter(c, s, fc);
    let d = c.with_fighter(s, fc);
    lemma_remembers_on(w, c, d);
    let fd = FighterView {
        buff_stats: stat_total(fc.effects, d.effects),
        states: state_list(fc.effects, d.effects),
        ..fc
    };
    lemma_stat_total_len(fc.effects, d.effects);
    assert(d.fighters[s] == fc);
    lemma_with_fighter(d, s, fd);
    assert(w.fallen(s) == d.with_fighter(s, fd));
    lemma_remembers_on(w, d, w.fallen(s));
}

proof fn lemma_followers_below(list: Seq<usize>, fighters: Seq<FighterView>, fid: usize)
    requires
        crate::fighter::all_below(list, fighters.len() as int),
    ensures
        crate::fighter::all_below(followers_of(list, fighters, fid), fighters.len() as int),
    decreases list.len(),
{
    if list.len() > 0 {
        assert(list[list.len() - 1] < fighters.len());
        lemma_followers_below(list.drop_last(), fighters, fid);
    }
}

proof fn lemma_all_dead_remembers(w: World, pending: Seq<usize>)
    requires
        w.wf(),
        crate::fighter::all_below(pending, w.fighters.len() as int),
    ensures
        w.all_dead(pending).wf(),
        w.all_dead(pending).remembers(w),
    decreases alive(w.fighters), pending.len(),
{
    if pending.len() > 0 {
        let s = pending[0] as int;
        if w.fighters[s].is_dead() {
            lemma_all_dead_remembers(w, pending.drop_first());
        } else {
            lemma_death_counts(w, s);
            lemma_reported_fits(w, s, None);
            let r = w.reported_dead(s, None);
            assert(r.remembers(w));
            lemma_fallen_remembers(r, s);
            let v = r.fallen(s);
            lemma_remembers_on(w, r, v);
            assert(v.fighters[s].fits(
                s,
                v.teams.len() as int,
                v.board.cells.len() as int,
                v.effects.len() as int,
            ));
            lemma_followers_below(
                v.teams[v.fighters[s].team as int].fighters,
                v.fighters,
                s as usize,
            );
            let next = v.followers(s) + pending.drop_first();
            assert(crate::fighter::all_below(next, v.fighters.len() as int)) by {
                assert forall|i: int| 0 <= i < next.len() implies (#[trigger] next[i])
                    < v.fighters.len() by {
                    let n = v.followers(s).len();
                    if i < n {
                        assert(next[i] == v.followers(s)[i]);
                    } else {
                        assert(next[i] == pending[i - n + 1]);
                    }
                }
            }
            lemma_all_dead_remembers(v, next);
            lemma_remembers_on(w, v, v.all_dead(next));
        }
    }
}

/// Who is hurt, and whoever dies of it, changes no effect's turns and lays none.
pub proof fn lemma_hurt_remembers(
    w: World,
    target: int,
    pv: i32,
    erosion: i32,
    attacker: Option<usize>,
)
    requires
        w.wf(),
        0 <= target < w.fighters.len(),
    ensures
        w.hurt(target, pv, erosion, attacker).wf(),
        w.hurt(target, pv, erosion, attacker).remembers(w),
{
    reveal(World::hurt);
    let f = w.fighters[target];
    assert(f.fits(
        target,
        w.teams.len() as int,
        w.board.cells.len() as int,
        w.effects.len() as int,
    ));
    if !f.is_dead() {
        let loss = crate::power::at_most(crate::power::at_least(pv as int, 0), f.life as int);
        let worn = f.total_life.wrapping_sub(crate::power::at_least(erosion as int, 0) as i32);
        let g = FighterView {
            life: (f.life - loss) as i32,
            total_life: crate::power::at_least(worn as int, 1) as i32,
            ..f
        };
        lemma_with_fighter(w, target, g);
        let v = w.with_fighter(target, g);
        if loss == f.life {
            lemma_reported_fits(v, target, attacker);
            let r = v.reported_dead(target, attacker);
            assert(r.remembers(v));
            lemma_remembers_on(w, v, r);
            lemma_fallen_remembers(r, target);
            let d = r.fallen(target);
            lemma_remembers_on(w, r, d);
            assert(d.fighters[target].fits(
                target,
                d.teams.len() as int,
                d.board.cells.len() as int,
                d.effects.len() as int,
            ));
            lemma_followers_below(
                d.teams[d.fighters[target].team as int].fighters,
                d.fighters,
                target as usize,
            );
            lemma_all_dead_remembers(d, d.followers(target));
            lemma_remembers_on(w, d, d.all_dead(d.followers(target)));
        }
    }
}

/// The dead stay dead while others die.
proof fn lemma_all_dead_keeps_dead(w: World, pending: Seq<usize>, t: int)
    requires
        w.wf(),
        crate::fighter::all_below(pending, w.fighters.len() as int),
        0 <= t < w.fighters.len(),
        w.fighters[t].is_dead(),
    ensures
        w.all_dead(pending).fighters[t].is_dead(),
    decreases alive(w.fighters), pending.len(),
{
    if pending.len() > 0 {
        let s = pending[0] as int;
        if w.fighters[s].is_dead() {
            lemma_all_dead_keeps_dead(w, pending.drop_first(), t);
        } else {
            lemma_death_counts(w, s);
            lemma_reported_fits(w, s, None);
            let r = w.reported_dead(s, None);
            lemma_fallen_remembers(r, s);
            lemma_fallen_lives(r, s);
            let v = r.fallen(s);
            assert(v.fighters[t].life == r.fighters[t].life);
            assert(r.fighters[t].life == w.fighters[t].life);
            assert(v.fighters[s].fits(
                s,
                v.teams.len() as int,
                v.board.cells.len() as int,
                v.effects.len() as int,
            ));
            lemma_followers_below(
                v.teams[v.fighters[s].team as int].fighters,
                v.fighters,
                s as usize,
            );
            let next = v.followers(s) + pending.drop_first();
            assert forall|i: int| 0 <= i < next.len() implies (#[trigger] next[i])
                < v.fighters.len() by {
                let n = v.followers(s).len();
                if i < n {
                    assert(next[i] == v.followers(s)[i]);
                } else {
                    assert(next[i] == pending[i - n + 1]);
                }
            }
            lemma_all_dead_keeps_dead(v, next, t);
        }
    }
}

/// Who is hurt and survives loses as much life as it was hurt, and total life by
/// erosion down to 1; nothing else changes. Who is hurt as much as it has life
/// is dead.
pub proof fn lemma_hurt_survived(
    w: World,
    target: int,
    pv: i32,
    erosion: i32,
    attacker: Option<usize>,
)
    requires
        w.wf(),
        0 <= target < w.fighters.len(),
        !w.fighters[target].is_dead(),
    ensures
        w.hurt(target, pv, erosion, attacker).wf(),
        w.hurt(target, pv, erosion, attacker).fighters.len() == w.fighters.len(),
        w.hurt(target, pv, erosion, attacker).fighters[target].is_dead() <==> pv
            >= w.fighters[target].life,
        pv < w.fighters[target].life ==> {
            let after = w.hurt(target, pv, erosion, attacker);
            &&& after.fighters[target].life == w.fighters[target].life - (if pv < 0 {
                0
            } else {
                pv as int
            })
            &&& after.fighters[target] == (FighterView {
                life: after.fighters[target].life,
                total_life: after.fighters[target].total_life,
                ..w.fighters[target]
            })
            &&& 0 <= erosion < w.fighters[target].total_life ==> after.fighters[target].total_life
                == w.fighters[target].total_life - erosion
            &&& after.effects == w.effects
            &&& forall|i: int|
                0 <= i < w.fighters.len() && i != target ==> #[trigger] after.fighters[i]
                    == w.fighters[i]
        },
{
    lemma_hurt_remembers(w, target, pv, erosion, attacker);
    reveal(World::hurt);
    let f = w.fighters[target];
    assert(f.fits(
        target,
        w.teams.len() as int,
        w.board.cells.len() as int,
        w.effects.len() as int,
    ));
    let loss = crate::power::at_most(crate::power::at_least(pv as int, 0), f.life as int);
    let worn = f.total_life.wrapping_sub(crate::power::at_least(erosion as int, 0) as i32);
    let g = FighterView {
        life: (f.life - loss) as i32,
        total_life: crate::power::at_least(worn as int, 1) as i32,
        ..f
    };
    lemma_with_fighter(w, target, g);
    let v = w.with_fighter(target, g);
    if loss == f.life {
        lemma_reported_fits(v, target, attacker);
        let r = v.reported_dead(target, attacker);
        lemma_fallen_remembers(r, target);
        lemma_fallen_lives(r, target);
        let d = r.fallen(target);
        assert(d.fighters[target].fits(
            target,
            d.teams.len() as int,
            d.board.cells.len() as int,
            d.effects.len() as int,
        ));
        lemma_followers_below(
            d.teams[d.fighters[target].team as int].fighters,
            d.fighters,
            target as usize,
        );
        lemma_all_dead_keeps_dead(d, d.followers(target), target);
    }
}

/// Erosion takes total life, down to 1, and none where it is not above 0.
pub proof fn lemma_hurt_wears(
    w: World,
    target: int,
    pv: i32,
    erosion: i32,
    attacker: Option<usize>,
)
    requires
        w.wf(),
        0 <= target < w.fighters.len(),
        0 < w.fighters[target].life <= w.fighters[target].total_life,
        pv < w.fighters[target].life,
    ensures
        w.hurt(target, pv, erosion, attacker).fighters[target].total_life == if erosion <= 0 {
            w.fighters[target].total_life as int
        } else if erosion < w.fighters[target].total_life {
            w.fighters[target].total_life - erosion
        } else {
            1
        },
{
    reveal(World::hurt);
}

/// Whether the teams are the same and everybody has the summoner and the team
/// of before.
pub open spec fn same_kin(a: World, b: World) -> bool {
    &&& a.teams == b.teams
    &&& a.fighters.len() == b.fighters.len()
    &&& forall|i: int|
        #![trigger a.fighters[i]]
        #![trigger b.fighters[i]]
        0 <= i < a.fighters.len() ==> a.fighters[i].summoner == b.fighters[i].summoner
            && a.fighters[i].team == b.fighters[i].team
}

proof fn lemma_undone_kin(w: World, list: Seq<usize>, n: nat)
    requires
        n <= list.len(),
        crate::fighter::all_below(list, w.effects.len() as int),
        forall|e: int|
            0 <= e < w.effects.len() ==> (#[trigger] w.effects[e]).fits(w.fighters.len() as int),
    ensures
        same_kin(w.undone(list, n), w),
    decreases n,
{
    if n > 0 {
        lemma_undone_kin(w, list, (n - 1) as nat);
        lemma_undone_lives(w, list, (n - 1) as nat);
        let v = w.undone(list, (n - 1) as nat);
        assert(list[n - 1] < w.effects.len());
        assert(v.effects[list[n - 1] as int].fits(w.fighters.len() as int));
    }
}

proof fn lemma_forgotten_kin(w: World, list: Seq<usize>, n: nat)
    requires
        n <= list.len(),
        crate::fighter::all_below(list, w.effects.len() as int),
        forall|e: int|
            0 <= e < w.effects.len() ==> (#[trigger] w.effects[e]).fits(w.fighters.len() as int),
    ensures
        same_kin(w.all_forgotten(list, n), w),
    decreases n,
{
    if n > 0 {
        lemma_forgotten_kin(w, list, (n - 1) as nat);
        lemma_forgotten_lives(w, list, (n - 1) as nat);
        let v = w.all_forgotten(list, (n - 1) as nat);
        assert(list[n - 1] < w.effects.len());
        assert(v.effects[list[n - 1] as int].fits(w.fighters.len() as int));
    }
}

/// A fighter that falls changes no team and no summoner.
proof fn lemma_fallen_kin(w: World, s: int)
    requires
        w.wf(),
        0 <= s < w.fighters.len(),
    ensures
        same_kin(w.fallen(s), w),
{
    let launched = w.fighters[s].launched_effects;
    let w0 = w.with_fighter(s, FighterView { life: 0, ..w.fighters[s] });
    assert(w.fighters[s].fits(
        s,
        w.teams.len() as int,
        w.board.cells.len() as int,
        w.effects.len() as int,
    ));
    lemma_undone_lives(w0, launched, launched.len());
    lemma_undone_kin(w0, launched, launched.len());
    lemma_undone_lists(w0, launched, launched.len(), s);
    let a = w0.undone(launched, launched.len());
    let b = a.with_fighter(s, FighterView { launched_effects: Seq::empty(), ..a.fighters[s] });
    lemma_forgotten_lives(b, b.fighters[s].effects, b.fighters[s].effects.len());
    lemma_forgotten_kin(b, b.fighters[s].effects, b.fighters[s].effects.len());
    let c = b.all_forgotten(b.fighters[s].effects, b.fighters[s].effects.len());
    assert forall|i: int|
        #![trigger w.fallen(s).fighters[i]]
        #![trigger w.fighters[i]]
        0 <= i < w.fighters.len() implies w.fallen(s).fighters[i].summoner
        == w.fighters[i].summoner && w.fallen(s).fighters[i].team == w.fighters[i].team by {
        assert(w0.fighters[i].summoner == w.fighters[i].summoner);
        assert(a.fighters[i].summoner == w0.fighters[i].summoner);
        assert(b.fighters[i].summoner == a.fighters[i].summoner);
        assert(c.fighters[i].summoner == b.fighters[i].summoner);
    }
}

/// A living member of a list whom a fighter has summoned is one of its
/// followers.
proof fn lemma_follower_found(list: Seq<usize>, fighters: Seq<FighterView>, fid: usize, t: usize)
    requires
        list.contains(t),
        !fighters[t as int].is_dead(),
        fighters[t as int].summoner == Some(fid),
    ensures
        followers_of(list, fighters, fid).contains(t),
    decreases list.len(),
{
    if list.len() > 0 {
        let all = followers_of(list, fighters, fid);
        let before = followers_of(list.drop_last(), fighters, fid);
        if list.last() == t {
            assert(all[before.len() as int] == t);
        } else {
            let i = choose|i: int| 0 <= i < list.len() && list[i] == t;
            assert(list.drop_last()[i] == t);
            lemma_follower_found(list.drop_last(), fighters, fid, t);
            let j = choose|j: int| 0 <= j < before.len() && before[j] == t;
            assert(all[j] == t);
        }
    }
}

/// Everybody in a list of those who die is dead in the end.
proof fn lemma_all_dead_kills(w: World, pending: Seq<usize>, t: usize)
    requires
        w.wf(),
        crate::fighter::all_below(pending, w.fighters.len() as int),
        pending.contains(t),
    ensures
        w.all_dead(pending).fighters[t as int].is_dead(),
    decreases alive(w.fighters), pending.len(),
{
    let s = pending[0] as int;
    let k = choose|k: int| 0 <= k < pending.len() && pending[k] == t;
    let rest = pending.drop_first();
    if w.fighters[s].is_dead() {
        if k == 0 {
            lemma_all_dead_keeps_dead(w, rest, t as int);
        } else {
            assert(rest[k - 1] == t);
            lemma_all_dead_kills(w, rest, t);
        }
    } else {
        lemma_death_counts(w, s);
        lemma_reported_fits(w, s, None);
        let r = w.reported_dead(s, None);
        lemma_fallen_remembers(r, s);
        lemma_fallen_lives(r, s);
        let v = r.fallen(s);
        assert(v.fighters[s].fits(
            s,
            v.teams.len() as int,
            v.board.cells.len() as int,
            v.effects.len() as int,
        ));
        lemma_followers_below(
            v.teams[v.fighters[s].team as int].fighters,
            v.fighters,
            s as usize,
        );
        let next = v.followers(s) + rest;
        let n = v.followers(s).len();
        assert forall|i: int| 0 <= i < next.len() implies (#[trigger] next[i])
            < v.fighters.len() by {
            if i < n {
                assert(next[i] == v.followers(s)[i]);
            } else {
                assert(next[i] == pending[i - n + 1]);
            }
        }
        if k == 0 {
            lemma_all_dead_keeps_dead(v, next, t as int);
        } else {
            assert(next[n + k - 1] == t);
            lemma_all_dead_kills(v, next, t);
        }
    }
}

/// Whoever is hurt as much as it has life is dead, and so is everybody in its
/// team whom it has summoned.
pub proof fn lemma_summons_die_with_their_summoner(
    w: World,
    target: int,
    pv: i32,
    erosion: i32,
    attacker: Option<usize>,
    t: usize,
)
    requires
        w.wf(),
        0 <= target < w.fighters.len(),
        !w.fighters[target].is_dead(),
        pv >= w.fighters[target].life,
        t < w.fighters.len(),
        w.teams[w.fighters[target].team as int].fighters.contains(t),
        w.fighters[t as int].summoner == Some(target as usize),
    ensures
        w.hurt(target, pv, erosion, attacker).fighters[target].is_dead(),
        w.hurt(target, pv, erosion, attacker).fighters[t as int].is_dead(),
{
    lemma_hurt_survived(w, target, pv, erosion, attacker);
    reveal(World::hurt);
    let f = w.fighters[target];
    assert(f.fits(
        target,
        w.teams.len() as int,
        w.board.cells.len() as int,
        w.effects.len() as int,
    ));
    let worn = f.total_life.wrapping_sub(crate::power::at_least(erosion as int, 0) as i32);
    let g = FighterView {
        life: 0,
        total_life: crate::power::at_least(worn as int, 1) as i32,
        ..f
    };
    lemma_with_fighter(w, target, g);
    let v = w.with_fighter(target, g);
    lemma_reported_fits(v, target, attacker);
    let r = v.reported_dead(target, attacker);
    lemma_fallen_remembers(r, target);
    lemma_fallen_lives(r, target);
    lemma_fallen_kin(r, target);
    let d = r.fallen(target);
    assert(d.fighters[target].fits(
        target,
        d.teams.len() as int,
        d.board.cells.len() as int,
        d.effects.len() as int,
    ));
    lemma_followers_below(
        d.teams[d.fighters[target].team as int].fighters,
        d.fighters,
        target as usize,
    );
    assert(r.fighters[t as int].summoner == w.fighters[t as int].summoner);
    assert(r.fighters[target].team == w.fighters[target].team);
    assert(d.fighters[t as int].summoner == r.fighters[t as int].summoner);
    assert(d.fighters[target].team == r.fighters[target].team);
    if d.fighters[t as int].is_dead() {
        lemma_all_dead_keeps_dead(d, d.followers(target), t as int);
    } else {
        lemma_follower_found(
            d.teams[d.fighters[target].team as int].fighters,
            d.fighters,
            target as usize,
            t,
        );
        lemma_all_dead_kills(d, d.followers(target), t);
    }
}

/// Healing gives as much life as it has points, up to the total; one that has
/// its total or more gains nothing, and nobody else changes.
pub proof fn lemma_healing(w: World, target: int, pv: i32)
    requires
        0 <= target < w.fighters.len(),
        pv >= 0,
        0 <= w.fighters[target].life,
        0 <= w.fighters[target].total_life,
    ensures
        ({
            let f = w.fighters[target];
            let after = w.healed(target, pv);
            let most = if f.life > f.total_life {
                f.life
            } else {
                f.total_life
            };
            &&& after.fighters[target] == FighterView {
                life: (if f.life + pv < most {
                    f.life + pv
                } else {
                    most as int
                }) as i32,
                ..f
            }
            &&& forall|i: int|
                0 <= i < w.fighters.len() && i != target ==> #[trigger] after.fighters[i]
                    == w.fighters[i]
        }),
{
}

impl State {
    /// Works out the characteristics and the states of a fighter from the
    /// effects on it.
    pub fn update_buff_stats(&mut self, fid: usize)
        requires
            old(self).wf(),
            fid < old(self)@.fighters.len(),
        ensures
            final(self).wf(),
            final(self)@.extends(old(self)@),
            final(self)@ == old(self)@.refreshed(fid as int),
    {
        let ghost w = self@;
        let ghost list = w.fighters[fid as int].effects;
        let mut stats: Stats = Stats::default();
        let mut states: Vec<EntityState> = Vec::new();
        let mut i: usize = 0;
        assert(list.take(0) =~= Seq::<usize>::empty());
        assert(w.fighters[fid as int] == self.fighters@[fid as int]@);
        assert(w.fighters[fid as int].fits(
            fid as int,
            w.teams.len() as int,
            w.board.cells.len() as int,
            w.effects.len() as int,
        ));
        while i < self.fighters[fid].effects.len()
            invariant
                self.wf(),
                self@ == w,
                fid < w.fighters.len(),
                list == w.fighters[fid as int].effects,
                list == self.fighters@[fid as int].effects@,
                crate::fighter::all_below(list, w.effects.len() as int),
                i <= list.len(),
                stats@ == stat_total(list.take(i as int), w.effects),
                states@ == state_list(list.take(i as int), w.effects),
            decreases list.len() - i,
        {
            let ei: usize = self.fighters[fid].effects[i];
            assert(list.take(i + 1).drop_last() =~= list.take(i as int));
            assert(list[i as int] < w.effects.len());
            assert(w.effects[ei as int] == self.effects@[ei as int]@);
            stats.add(&self.effects[ei].stats);
            if let Some(s) = self.effects[ei].state {
                states.push(s);
            }
            i += 1;
        }
        assert(list.take(i as int) =~= list);
        self.fighters[fid].buff_stats = stats;
        self.fighters[fid].states = states;
        proof {
            assert(self@.fighters =~= w.refreshed(fid as int).fighters);
            assert(self@ =~= w.refreshed(fid as int));
        }
    }

    /// Takes an effect off its target and reports it.
    pub fn remove_effect(&mut self, target: usize, ei: usize)
        requires
            old(self).wf(),
            target < old(self)@.fighters.len(),
            ei < old(self)@.effects.len(),
        ensures
            final(self).wf(),
            final(self)@.extends(old(self)@),
            final(self)@.effects == old(self)@.effects,
            final(self)@ == old(self)@.effect_removed(target as int, ei),
    {
        let ghost w = self@;
        assert(w.effects[ei as int] == self.effects@[ei as int]@);
        self.log(Action::RemoveEffect { log_id: self.effects[ei].log_id });
        proof {
            assert(w.fighters[target as int].fits(
                target as int,
                w.teams.len() as int,
                w.board.cells.len() as int,
                w.effects.len() as int,
            ));
            lemma_without_below(w.fighters[target as int].effects, ei, w.effects.len() as int);
        }
        let ghost w1 = self@;
        crate::lists::drop_all(&mut self.fighters[target].effects, ei);
        proof {
            let f = w1.fighters[target as int];
            let w2 = w1.with_fighter(
                target as int,
                FighterView { effects: crate::lists::without(f.effects, ei), ..f },
            );
            assert(self@.fighters =~= w2.fighters);
            assert(self@ =~= w2);
        }
        self.update_buff_stats(target);
    }

    /// Lets the caster of an effect forget it.
    pub(crate) fn forget_effect(&mut self, ei: usize)
        requires
            old(self).wf(),
            ei < old(self)@.effects.len(),
        ensures
            final(self).wf(),
            final(self)@.extends(old(self)@),
            final(self)@.effects == old(self)@.effects,
            final(self)@ == old(self)@.forgotten(ei),
    {
        let ghost w = self@;
        let caster: usize = self.effects[ei].caster;
        proof {
            assert(w.effects[ei as int] == self.effects@[ei as int]@);
            assert(w.effects[ei as int].fits(w.fighters.len() as int));
            assert(w.fighters[caster as int].fits(
                caster as int,
                w.teams.len() as int,
                w.board.cells.len() as int,
                w.effects.len() as int,
            ));
            lemma_without_below(
                w.fighters[caster as int].launched_effects,
                ei,
                w.effects.len() as int,
            );
        }
        crate::lists::drop_all(&mut self.fighters[caster].launched_effects, ei);
        proof {
            assert(self@.fighters =~= w.forgotten(ei).fighters);
            assert(self@ =~= w.forgotten(ei));
        }
    }

    /// Takes the life of a fighter, and the effects by it and on it.
    fn drop_out(&mut self, fid: usize)
        requires
            old(self).wf(),
            fid < old(self)@.fighters.len(),
        ensures
            final(self).wf(),
            final(self)@.extends(old(self)@),
            final(self)@ == old(self)@.fallen(fid as int),
    {
        let ghost w = self@;
        assert(w.fighters[fid as int] == self.fighters@[fid as int]@);
        assert(w.fighters[fid as int].fits(
            fid as int,
            w.teams.len() as int,
            w.board.cells.len() as int,
            w.effects.len() as int,
        ));
        let launched: Vec<usize> = crate::lists::copy_list(&self.fighters[fid].launched_effects);
        self.fighters[fid].life = 0;
        let ghost w0 = w.with_fighter(
            fid as int,
            FighterView { life: 0, ..w.fighters[fid as int] },
        );
        proof {
            assert(self@.fighters =~= w0.fighters);
            assert(self@ =~= w0);
        }
        let mut i: usize = 0;
        while i < launched.len()
            invariant
                self.wf(),
                self@.extends(w),
                self@.effects == w.effects,
                crate::fighter::all_below(launched@, w.effects.len() as int),
                i <= launched@.len(),
                self@ == w0.undone(launched@, i as nat),
            decreases launched.len() - i,
        {
            let ei: usize = launched[i];
            assert(launched@[i as int] < w.effects.len());
            assert(self@.effects[ei as int] == self.effects@[ei as int]@);
            assert(self@.effects[ei as int].fits(self@.fighters.len() as int));
            self.remove_effect(self.effects[ei].target, ei);
            i += 1;
        }
        let ghost a = self@;
        self.fighters[fid].launched_effects = Vec::new();
        let ghost b = a.with_fighter(
            fid as int,
            FighterView { launched_effects: Seq::empty(), ..a.fighters[fid as int] },
        );
        proof {
            assert(self@.fighters =~= b.fighters);
            assert(self@ =~= b);
            assert(b.fighters[fid as int] == self.fighters@[fid as int]@);
        }
        let own: Vec<usize> = crate::lists::copy_list(&self.fighters[fid].effects);
        assert(b.fighters[fid as int].fits(
            fid as int,
            b.teams.len() as int,
            b.board.cells.len() as int,
            b.effects.len() as int,
        ));
        let mut j: usize = 0;
        while j < own.len()
            invariant
                self.wf(),
                self@.extends(w),
                self@.effects == w.effects,
                crate::fighter::all_below(own@, w.effects.len() as int),
                j <= own@.len(),
                self@ == b.all_forgotten(own@, j as nat),
            decreases own.len() - j,
        {
            assert(own@[j as int] < w.effects.len());
            self.forget_effect(own[j]);
            j += 1;
        }
        let ghost c = self@;
        self.fighters[fid].effects = Vec::new();
        proof {
            let d = c.with_fighter(
                fid as int,
                FighterView { effects: Seq::empty(), ..c.fighters[fid as int] },
            );
            assert(self@.fighters =~= d.fighters);
            assert(self@ =~= d);
        }
        self.update_buff_stats(fid);
    }

    /// The living members of a fighter's team whom it has summoned.
    fn followers(&self, fid: usize) -> (list: Vec<usize>)
        requires
            self.wf(),
            fid < self@.fighters.len(),
        ensures
            list@ == self@.followers(fid as int),
            crate::fighter::all_below(list@, self@.fighters.len() as int),
    {
        let ghost w = self@;
        assert(w.fighters[fid as int] == self.fighters@[fid as int]@);
        assert(w.fighters[fid as int].fits(
            fid as int,
            w.teams.len() as int,
            w.board.cells.len() as int,
            w.effects.len() as int,
        ));
        let team: usize = self.fighters[fid].team;
        let ghost members = w.teams[team as int].fighters;
        assert(members == self.teams@[team as int].fighters@);
        let mut list: Vec<usize> = Vec::new();
        let mut i: usize = 0;
        assert(members.take(0) =~= Seq::<usize>::empty());
        while i < self.teams[team].fighters.len()
            invariant
                self.wf(),
                w == self@,
                team < self.teams@.len(),
                members == self.teams@[team as int].fighters@,
                crate::fighter::all_below(members, w.fighters.len() as int),
                i <= members.len(),
                list@ == followers_of(members.take(i as int), w.fighters, fid),
                crate::fighter::all_below(list@, w.fighters.len() as int),
            decreases members.len() - i,
        {
            let f: usize = self.teams[team].fighters[i];
            assert(members.take(i + 1).drop_last() =~= members.take(i as int));
            assert(members[i as int] < w.fighters.len());
            assert(w.fighters[f as int] == self.fighters@[f as int]@);
            if !self.fighters[f].is_dead() {
                if let Some(s) = self.fighters[f].summoner {
                    if s == fid {
                        list.push(f);
                    }
                }
            }
            i += 1;
        }
        assert(members.take(i as int) =~= members);
        list
    }

    /// Takes a fighter out of the order of play and off the board, and
    /// reports its death.
    pub fn on_player_die(&mut self, fid: usize, killer: Option<usize>)
        requires
            old(self).wf(),
            fid < old(self)@.fighters.len(),
            killer matches Some(k) ==> k < old(self)@.fighters.len(),
        ensures
            final(self).wf(),
            final(self)@.extends(old(self)@),
            final(self)@ == old(self)@.reported_dead(fid as int, killer),
    {
        let ghost w = self@;
        self.order.remove_entity(fid);
        proof {
            let w1 = World { order: w.order.removed(fid), ..w };
            assert(self@ =~= w1);
            crate::lists::lemma_place(w.order.fids, fid);
            assert(crate::fighter::all_below(w1.order.fids, w.fighters.len() as int));
        }
        self.remove_entity_from_map(fid);
        let killer_id: i64 = match killer {
            Some(k) => k as i64,
            None => -1,
        };
        self.log(Action::EntityDie { entity_id: fid as i64, killer_id });
    }

    /// Lets a fighter die, and then everyone it has summoned.
    pub fn die(&mut self, fid: usize)
        requires
            old(self).wf(),
            fid < old(self)@.fighters.len(),
        ensures
            final(self).wf(),
            final(self)@.extends(old(self)@),
            final(self)@ == old(self)@.died(fid as int),
            old(self)@.fighters[fid as int].cell is None ==> final(self)@.withers(old(self)@),
    {
        let ghost w = self@;
        self.drop_out(fid);
        proof {
            lemma_fallen_lives(w, fid as int);
            if w.fighters[fid as int].cell is None {
                assert(self@.withers(w));
            }
        }
        let mut pending: Vec<usize> = self.followers(fid);
        let ghost goal = self@.all_dead(pending@);
        while pending.len() > 0
            invariant
                self.wf(),
                w == old(self)@,
                self@.extends(w),
                w.fighters[fid as int].cell is None ==> self@.withers(w),
                crate::fighter::all_below(pending@, w.fighters.len() as int),
                self@.all_dead(pending@) == goal,
            decreases alive(self@.fighters), pending.len(),
        {
            let ghost now = self@;
            let ghost all = pending@;
            let s: usize = pending[0];
            assert(all[0] < w.fighters.len());
            let _ = pending.remove(0);
            assert(pending@ =~= all.drop_first());
            assert(now.fighters[s as int] == self.fighters@[s as int]@);
            if self.fighters[s].is_dead() {
                continue;
            }
            proof {
                lemma_death_counts(now, s as int);
            }
            self.on_player_die(s, None);
            let ghost gone = self@;
            self.drop_out(s);
            proof {
                lemma_fallen_lives(gone, s as int);
                assert(gone.fighters[s as int].cell is None);
                assert(self@.withers(now));
            }
            let mut more: Vec<usize> = self.followers(s);
            let ghost fresh = more@;
            more.append(&mut pending);
            assert(more@ =~= fresh + all.drop_first());
            pending = more;
            assert forall|i: int| 0 <= i < pending@.len() implies (#[trigger] pending@[i])
                < w.fighters.len() by {
                if i < fresh.len() {
                    assert(pending@[i] == fresh[i]);
                } else {
                    assert(pending@[i] == all[i - fresh.len() + 1]);
                }
            }
        }
    }

    /// Takes life and total life from a fighter, which may die of it.
    pub fn remove_life(&mut self, target: usize, pv: i32, erosion: i32, attacker: Option<usize>)
        requires
            old(self).wf(),
            target < old(self)@.fighters.len(),
            attacker matches Some(k) ==> k < old(self)@.fighters.len(),
        ensures
            final(self).wf(),
            final(self)@.extends(old(self)@),
            final(self)@ == old(self)@.hurt(target as int, pv, erosion, attacker),
            final(self)@.withers(old(self)@),
            final(self)@.fighters[target as int].is_dead() <==> old(
                self,
            )@.fighters[target as int].is_dead() || pv
                >= old(self)@.fighters[target as int].life,
    {
        reveal(World::hurt);
        let ghost w = self@;
        assert(w.fighters[target as int] == self.fighters@[target as int]@);
        if self.fighters[target].is_dead() {
            return;
        }
        let life: i32 = self.fighters[target].life;
        let wanted: i32 = if pv < 0 {
            0
        } else {
            pv
        };
        let loss: i32 = if wanted > life {
            life
        } else {
            wanted
        };
        let wear: i32 = if erosion < 0 {
            0
        } else {
            erosion
        };
        let worn: i32 = self.fighters[target].total_life.wrapping_sub(wear);
        self.fighters[target].life = life - loss;
        self.fighters[target].total_life = if worn < 1 {
            1
        } else {
            worn
        };
        proof {
            let f = w.fighters[target as int];
            let w1 = w.with_fighter(
                target as int,
                FighterView {
                    life: (f.life - loss) as i32,
                    total_life: crate::power::at_least(worn as int, 1) as i32,
                    ..f
                },
            );
            assert(self@.fighters =~= w1.fighters);
            assert(self@ =~= w1);
        }
        if self.fighters[target].life <= 0 {
            self.on_player_die(target, attacker);
            self.die(target);
        }
    }

    /// Gives life to a fighter, up to its total.
    pub fn add_life(&mut self, target: usize, pv: i32)
        requires
            old(self).wf(),
            target < old(self)@.fighters.len(),
            old(self)@.fighters[target as int].life <= old(self)@.fighters[target as int].total_life,
        ensures
            final(self).wf(),
            final(self)@.extends(old(self)@),
            final(self)@ == old(self)@.healed(target as int, pv),
    {
        self.heal(target, pv);
    }

    /// Gives life to a fighter, up to its total; none to one above its total.
    pub(crate) fn heal(&mut self, target: usize, pv: i32)
        requires
            old(self).wf(),
            target < old(self)@.fighters.len(),
        ensures
            final(self).wf(),
            final(self)@.extends(old(self)@),
            final(self)@ == old(self)@.healed(target as int, pv),
    {
        let ghost w = self@;
        assert(w.fighters[target as int] == self.fighters@[target as int]@);
        let life: i32 = self.fighters[target].life;
        let missing: i32 = self.fighters[target].total_life.wrapping_sub(life);
        let room: i32 = if missing < 0 {
            0
        } else {
            missing
        };
        let wanted: i32 = if pv < 0 {
            0
        } else {
            pv
        };
        let gain: i32 = if wanted > room {
            room
        } else {
            wanted
        };
        self.fighters[target].life = life.wrapping_add(gain);
        proof {
            assert(self@.fighters =~= w.healed(target as int, pv).fighters);
            assert(self@ =~= w.healed(target as int, pv));
        }
    }
}

} // verus!
