//! The course of a fight: who plays when, when it ends, how long chips cool
//! down, what effects are laid, and what is summoned and brought back to life.

use crate::attack::EffectParams;
use crate::fighter::{
    FighterView, TeamView, STAT_AGILITY, STAT_LIFE, STAT_MAGIC, STAT_MP, STAT_RESISTANCE,
    STAT_SCIENCE, STAT_STRENGTH, STAT_TP, STAT_WISDOM,
};
use crate::impact::Blow;
use crate::turns::Round;
use crate::world::{BulbTemplate, ChipSpec, EffectView, World};
use vstd::prelude::*;

verus! {

/// The order of play a number of turns later.
pub open spec fn later(r: Round, turns: nat) -> Round
    decreases turns,
{
    if turns == 0 {
        r
    } else {
        later(r, (turns - 1) as nat).advanced()
    }
}

/// The fighters play one after the other, in the order in which they stand in
/// the list, and from its end on from its beginning again; a round is over when
/// the last one has played.
pub proof fn lemma_everyone_plays_in_turn(r: Round, turns: nat)
    requires
        r.wf(),
        r.fids.len() > 0,
        0 <= r.position < r.fids.len(),
        r.turn + (r.position + turns) / (r.fids.len() as int) <= i32::MAX,
    ensures
        ({
            let n = r.fids.len() as int;
            let l = later(r, turns);
            &&& l.current() == Some(r.fids[(r.position + turns) % n])
            &&& l.turn == r.turn + (r.position + turns) / n
            &&& l.fids == r.fids
            &&& l.position == (r.position + turns) % n
        }),
    decreases turns,
{
    let n = r.fids.len() as int;
    if turns == 0 {
        vstd::arithmetic::div_mod::lemma_fundamental_div_mod_converse(
            r.position as int,
            n,
            0,
            r.position as int,
        );
    } else {
        let k = r.position + turns - 1;
        vstd::arithmetic::div_mod::lemma_div_is_ordered(k, k + 1, n);
        lemma_everyone_plays_in_turn(r, (turns - 1) as nat);
        let b = later(r, (turns - 1) as nat);
        vstd::arithmetic::div_mod::lemma_fundamental_div_mod(k, n);
        let q = k / n;
        let m = k % n;
        if m + 1 == n {
            assert(k + 1 == (q + 1) * n + 0) by (nonlinear_arith)
                requires
                    k == n * q + m,
                    m + 1 == n,
            ;
            vstd::arithmetic::div_mod::lemma_fundamental_div_mod_converse(k + 1, n, q + 1, 0);
            vstd::arithmetic::div_mod::lemma_fundamental_div_mod_converse(n, n, 1, 0);
        } else {
            assert(k + 1 == q * n + (m + 1)) by (nonlinear_arith)
                requires
                    k == n * q + m,
            ;
            vstd::arithmetic::div_mod::lemma_fundamental_div_mod_converse(k + 1, n, q, m + 1);
        }
    }
}

/// Whether somebody of a team is alive.
pub open spec fn stands(w: World, t: int) -> bool {
    exists|i: int|
        0 <= i < w.teams[t].fighters.len() && w.fighters[(
        #[trigger] w.teams[t].fighters[i]) as int].life > 0
}

proof fn lemma_team_stands(w: World, t: int)
    ensures
        stands(w, t) == !w.teams[t].is_dead(w.fighters),
{
    if w.teams[t].is_dead(w.fighters) && stands(w, t) {
        let i = choose|i: int|
            0 <= i < w.teams[t].fighters.len() && w.fighters[(
            #[trigger] w.teams[t].fighters[i]) as int].life > 0;
        assert(w.fighters[w.teams[t].fighters[i] as int].is_dead());
    }
}

proof fn lemma_count_alive(w: World, n: nat)
    requires
        n <= w.teams.len(),
    ensures
        0 <= crate::flow::teams_alive(w.teams, w.fighters, n),
        crate::flow::teams_alive(w.teams, w.fighters, n) == 0 <==> forall|t: int|
            0 <= t < n ==> !#[trigger] stands(w, t),
        crate::flow::teams_alive(w.teams, w.fighters, n) >= 2 <==> exists|s: int, t: int|
            0 <= s < t < n && #[trigger] stands(w, s) && #[trigger] stands(w, t),
    decreases n,
{
    if n > 0 {
        let m = (n - 1) as nat;
        lemma_count_alive(w, m);
        lemma_team_stands(w, m as int);
        let c = crate::flow::teams_alive(w.teams, w.fighters, m);
        if stands(w, m as int) && c >= 1 {
            let s = choose|s: int| 0 <= s < m && #[trigger] stands(w, s);
            assert(stands(w, s) && stands(w, m as int));
        }
        if crate::flow::teams_alive(w.teams, w.fighters, n) >= 2 && c >= 2 {
            let (s, t) = choose|s: int, t: int|
                0 <= s < t < m && #[trigger] stands(w, s) && #[trigger] stands(w, t);
            assert(stands(w, s) && stands(w, t));
        }
        if exists|s: int, t: int|
            0 <= s < t < n && #[trigger] stands(w, s) && #[trigger] stands(w, t) {
            let (s, t) = choose|s: int, t: int|
                0 <= s < t < n && #[trigger] stands(w, s) && #[trigger] stands(w, t);
            if t < m {
                assert(stands(w, s) && stands(w, t));
            }
        }
    }
}

/// A fight goes on as long as two teams have somebody alive, and then the next
/// one plays; otherwise it ends.
pub proof fn lemma_fight_ends_with_one_team(w: World)
    requires
        w.running,
    ensures
        w.turn_passed().running <==> exists|s: int, t: int|
            0 <= s < t < w.teams.len() && #[trigger] stands(w, s) && #[trigger] stands(w, t),
        w.turn_passed().running ==> w.turn_passed().order == w.order.advanced(),
        w.turn_passed().fighters == w.fighters,
{
    lemma_count_alive(w, w.teams.len());
}

/// Cooldowns a number of turns later.
pub open spec fn cooled_down(m: Map<i32, i32>, turns: nat) -> Map<i32, i32>
    decreases turns,
{
    if turns == 0 {
        m
    } else {
        crate::fighter::ticked(cooled_down(m, (turns - 1) as nat))
    }
}

/// A chip with a cooldown cannot be used before as many turns have begun, and
/// can be used then.
pub proof fn lemma_chip_cools_for_its_turns(
    w: World,
    fid: int,
    spec: ChipSpec,
    turns: nat,
)
    requires
        0 <= fid < w.fighters.len(),
        spec.cooldown > 0,
        !spec.team_cooldown,
    ensures
        ({
            let f = w.chip_spent(fid, spec).fighters[fid];
            cooled_down(f.cooldowns, turns).contains_key(spec.id) <==> turns < spec.cooldown
        }),
        w.chip_spent(fid, spec).chip_cools(fid, spec.id as int, false),
{
    let m = w.chip_spent(fid, spec).fighters[fid].cooldowns;
    lemma_cooldown_counts(m, spec.id, turns);
}

/// The cooldown of a team counts for all of its members.
pub proof fn lemma_team_cools(w: World, fid: int, other: int, spec: ChipSpec, turns: nat)
    requires
        0 <= fid < w.fighters.len(),
        0 <= other < w.fighters.len(),
        w.fighters[other].team == w.fighters[fid].team,
        w.fighters[fid].team < w.teams.len(),
        spec.cooldown > 0,
        spec.team_cooldown,
    ensures
        ({
            let t = w.chip_spent(fid, spec).teams[w.fighters[fid].team as int];
            cooled_down(t.cooldowns, turns).contains_key(spec.id) <==> turns < spec.cooldown
        }),
        w.chip_spent(fid, spec).chip_cools(other, spec.id as int, true),
{
    let m = w.chip_spent(fid, spec).teams[w.fighters[fid].team as int].cooldowns;
    lemma_cooldown_counts(m, spec.id, turns);
}

proof fn lemma_cooldown_counts(m: Map<i32, i32>, chip: i32, turns: nat)
    requires
        m.contains_key(chip),
        m[chip] > 0,
    ensures
        cooled_down(m, turns).contains_key(chip) <==> turns < m[chip],
        turns < m[chip] ==> cooled_down(m, turns)[chip] == m[chip] - turns,
    decreases turns,
{
    if turns > 0 {
        lemma_cooldown_counts(m, chip, (turns - 1) as nat);
    }
}

/// A chip that cools down for good cannot be used in any turn of a fight.
pub proof fn lemma_chip_cools_for_good(w: World, fid: int, spec: ChipSpec, turns: nat)
    requires
        0 <= fid < w.fighters.len(),
        spec.cooldown == -1,
        !spec.team_cooldown,
        turns <= crate::fighter::MAX_TURNS,
    ensures
        cooled_down(w.chip_spent(fid, spec).fighters[fid].cooldowns, turns).contains_key(spec.id),
{
    let m = w.chip_spent(fid, spec).fighters[fid].cooldowns;
    lemma_cooldown_counts(m, spec.id, turns);
}

/// A use is a critical hit exactly when the draw out of 65536 is a smaller part
/// than the agility of the fighter is of 1000.
pub proof fn lemma_critical_hits_by_agility(w: World, fid: int)
    ensures
        w.next_is_critical(fid) <==> 1000 * crate::rng::fraction(crate::rng::successor(w.rng))
            < 65536 * w.fighters[fid].stat(STAT_AGILITY as int),
        w.use_result(fid) == if w.next_is_critical(fid) {
            2i32
        } else {
            1i32
        },
{
    crate::rng::lemma_fraction_bounds(crate::rng::successor(w.rng));
    crate::formulas::lemma_critical_chance(
        crate::rng::fraction(crate::rng::successor(w.rng)),
        w.fighters[fid].stat(STAT_AGILITY as int) as int,
    );
}

/// A line with turns that has come to something is laid on its target: for as
/// many turns as the line says, with the value that it came to, and the caster
/// remembers it.
pub proof fn lemma_effect_is_laid(w: World, line: EffectParams, b: Blow)
    requires
        b.target < w.fighters.len(),
        b.caster < w.fighters.len(),
        w.effects.len() < usize::MAX,
        line.turns != 0,
        b.stackable || crate::impact::first_of_kind(
            w.fighters[b.target as int].effects,
            w.effects,
            line.effect,
            b.item_id,
        ) is None,
        ({
            let hit = w.impact(line, b);
            &&& hit.value > 0
            &&& hit.world.fighters.len() == w.fighters.len()
            &&& hit.world.effects.len() == w.effects.len()
            &&& crate::impact::first_alike(
                hit.world.fighters[b.target as int].effects,
                hit.world.effects,
                line.effect,
                b.item_id,
                line.turns,
                b.caster,
            ) is None
        }),
    ensures
        ({
            let after = w.struck(line, b);
            let e = after.effects[w.effects.len() as int];
            let new = w.effects.len() as usize;
            &&& after.effects.len() == w.effects.len() + 1
            &&& e.effect == line.effect
            &&& e.turns == line.turns
            &&& e.value == w.impact(line, b).value
            &&& e.caster == b.caster
            &&& e.target == b.target
            &&& e.critical == b.critical
            &&& e.stats == w.impact(line, b).stats
            &&& after.fighters[b.target as int].effects.contains(new)
            &&& after.fighters[b.caster as int].launched_effects.contains(new)
        }),
{
    reveal(World::struck);
    let hit = w.impact(line, b);
    let after = w.struck(line, b);
    let new = w.effects.len() as usize;
    assert(w.replaced(line, b) == w);
    let v = hit.world;
    assert(after == v.stored(line, b, hit));
    let te = v.fighters[b.target as int].effects;
    assert(te.push(new)[te.len() as int] == new);
    assert(te.push(new).contains(new));
    let t = v.fighters[b.target as int];
    let on = v.with_fighter(b.target as int, FighterView { effects: t.effects.push(new), ..t });
    let c = on.fighters[b.caster as int];
    let le = c.launched_effects;
    assert(le.push(new)[le.len() as int] == new);
    assert(le.push(new).contains(new));
}

/// A summoned fighter has of each characteristic what its template and the level
/// of its summoner give: the least at level 0, the greatest from level 300 on,
/// and as large a part of the way as the level is of 300 in between. It stands
/// on its cell, in the team of its summoner, with all of its life.
pub proof fn lemma_summoned_fighter(
    w: World,
    owner: int,
    t: BulbTemplate,
    cell: usize,
    level: i32,
    name: Option<Seq<char>>,
    stat: usize,
    range: (i32, i32),
)
    requires
        w.wf(),
        0 <= owner < w.fighters.len(),
        w.fighters[owner].level >= 0,
        ({
            ||| stat == STAT_LIFE && range == t.life
            ||| stat == STAT_STRENGTH && range == t.strength
            ||| stat == STAT_WISDOM && range == t.wisdom
            ||| stat == STAT_AGILITY && range == t.agility
            ||| stat == STAT_RESISTANCE && range == t.resistance
            ||| stat == STAT_SCIENCE && range == t.science
            ||| stat == STAT_MAGIC && range == t.magic
            ||| stat == STAT_TP && range == t.tp
            ||| stat == STAT_MP && range == t.mp
        }),
        range.0 <= range.1,
        range.1 - range.0 <= i32::MAX,
    ensures
        ({
            let f = w.summoned(owner, t, cell, level, false, name).fighters[w.fighters.len() as int];
            let r = f.base_stats[stat as int];
            let l = w.fighters[owner].level;
            &&& range.0 <= r <= range.1
            &&& l == 0 ==> r == range.0
            &&& l >= 300 ==> r == range.1
            &&& l <= 300 ==> 300 * (r - range.0) <= (range.1 - range.0) * l <= 300 * (r - range.0)
                + 300
            &&& f.buff_stats[stat as int] == 0
            &&& f.life == f.base_stats[STAT_LIFE as int]
            &&& f.total_life == f.base_stats[STAT_LIFE as int]
            &&& f.cell == Some(cell)
            &&& f.team == w.fighters[owner].team
            &&& f.summoner == Some(owner as usize)
            &&& f.level == level
        }),
{
    let o = w.fighters[owner];
    assert(o.fits(owner, w.teams.len() as int, w.board.cells.len() as int, w.effects.len() as int));
    crate::formulas::lemma_summon_follows_level(range.0, range.1, o.level as int);
    let kid = w.offspring(owner, t, level, false, name);
    let j = w.joined(o.team as int, kid);
    let fid = w.fighters.len() as int;
    assert(j.fighters[fid] == (FighterView { fid: fid as usize, team: o.team, ..kid }));
    assert(kid.base_stats == crate::summon::summon_stats(t, o.level, false));
    let r = crate::power::summon_stat(range.0, range.1, o.level as int, false);
    assert(kid.base_stats[stat as int] == r as i32);
}

/// A fighter that is brought back to life with all of it has its total life; any
/// other has half of a total that is itself half of what it was, or 1.3 times
/// that after a critical hit, and at least 10.
pub proof fn lemma_revived_fighter(
    w: World,
    owner: int,
    entity: int,
    cell: usize,
    critical: bool,
    full_life: bool,
) -> (half: int)
    requires
        0 <= entity < w.fighters.len(),
    ensures
        ({
            let f = w.fighters[entity];
            let g = w.revived(owner, entity, cell, critical, full_life).fighters[entity];
            let n = f.total_life * (if critical {
                13int
            } else {
                10
            });
            &&& crate::measure::is_nearest(half, n, 20, crate::map::abs(n))
            &&& full_life ==> g.life == f.total_life && g.total_life == f.total_life
            &&& !full_life ==> g.total_life == (if half < 10 {
                10
            } else {
                half
            }) && g.life == g.total_life / 2
            &&& g.cell == Some(cell)
            &&& g.used_tp == 0 && g.used_mp == 0
        }),
{
    let f = w.fighters[entity];
    crate::formulas::lemma_revived(f.total_life as int, critical);
    let half = crate::power::revived(f.total_life as int, critical);
    let n = f.total_life * crate::formulas::hit_parts(critical);
    assert(-0x7fff_0000 * 20 <= n <= 0x7fff_0000 * 20);
    crate::measure::lemma_nearest_range(half, n, 20, crate::map::abs(n));
    half
}

} // verus!
