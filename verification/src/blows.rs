//! What the lines of an attack come to: by which characteristic of the caster
//! each of them grows, and what it does to its target.

use crate::actions::DamageType;
use crate::attack::{Area, EffectParams, EffectType, EntityState};
use crate::fighter::{
    FighterView, STAT_ABSOLUTE_SHIELD, STAT_AGILITY, STAT_DAMAGE_RETURN, STAT_MAGIC, STAT_MP,
    STAT_POWER, STAT_RELATIVE_SHIELD, STAT_RESISTANCE, STAT_SCIENCE, STAT_STRENGTH, STAT_TP,
    STAT_WISDOM,
};
use crate::impact::Blow;
use crate::world::{EffectView, World};
use vstd::prelude::*;

verus! {

/// Whether a line of whole values `v1` and `v2` strikes at a distance from the
/// centre, with a draw out of 65536.
pub open spec fn measured(
    line: EffectParams,
    b: Blow,
    v1: int,
    v2: int,
    draw: int,
    distance: int,
) -> bool {
    &&& crate::formulas::ordinary(v1, v2, draw)
    &&& 0 <= distance <= i32::MAX
    &&& line.value1 == crate::power::real_of(v1)
    &&& line.value2 == crate::power::real_of(v2)
    &&& b.jet == crate::power::chance(draw)
    &&& b.aoe == crate::power::spread(distance)
}

/// What a value, the distance and a critical hit come to, of which 3276800 make
/// 1.
pub open spec fn thrust(v1: int, v2: int, draw: int, distance: int, critical: bool) -> int {
    crate::formulas::roll_parts(v1, v2, draw) * (5 - distance) * crate::formulas::hit_parts(
        critical,
    )
}

proof fn lemma_reorder(a: int, s: int, d: int, h: int)
    ensures
        a * s * d * h == (a * d * h) * s,
{
    assert(a * s * d * h == (a * d * h) * s) by (nonlinear_arith);
}

/// All of an attack arrives at the centre of its area, and a fifth less with
/// every cell from there; a line, and what strikes a whole team, is as strong
/// everywhere.
pub proof fn lemma_area_power(w: World, area: Area, center: int, cell: int)
    requires
        w.wf(),
        w.board.has(center),
        w.board.has(cell),
    ensures
        w.power_on(area, center, center) == crate::power::one(),
        area is LaserLine || area is FirstInLine || area is Allies || area is Enemies
            ==> w.power_on(area, center, cell) == crate::power::one(),
        !(area is LaserLine || area is FirstInLine || area is Allies || area is Enemies)
            ==> crate::measure::close(
            w.power_on(area, center, cell),
            (5 - crate::map::abs(w.board.x(center) - w.board.x(cell)) - crate::map::abs(
                w.board.y(center) - w.board.y(cell),
            )) * crate::measure::unit(),
            5,
            14,
        ),
{
    w.board.lemma_coords(center);
    w.board.lemma_coords(cell);
    crate::formulas::lemma_power_falls_by_fifths(0);
    crate::formulas::lemma_power_falls_by_fifths(w.board.distance(center, cell));
}

/// Poison is worth its value, times 1 and as many hundredths as magic, where it
/// is above 0, and as power.
pub proof fn lemma_poison_value(
    w: World,
    line: EffectParams,
    b: Blow,
    v1: int,
    v2: int,
    draw: int,
    distance: int,
)
    requires
        line.effect is Poison,
        measured(line, b, v1, v2, draw, distance),
        ({
            let c = w.fighters[b.caster as int];
            let magic = c.stat(STAT_MAGIC as int);
            let n = thrust(v1, v2, draw, distance, b.critical) * (100 + if magic > 0 {
                magic as int
            } else {
                0
            }) * (100 + c.stat(STAT_POWER as int));
            crate::map::abs(n) <= 0x7fff_0000 * (65536int * 500000)
        }),
    ensures
        ({
            let c = w.fighters[b.caster as int];
            let magic = c.stat(STAT_MAGIC as int);
            let n = thrust(v1, v2, draw, distance, b.critical) * (100 + if magic > 0 {
                magic as int
            } else {
                0
            }) * (100 + c.stat(STAT_POWER as int));
            crate::measure::is_nearest(
                w.impact(line, b).value as int,
                n,
                65536int * 500000,
                crate::map::abs(n),
            )
        }),
        w.impact(line, b).world == w,
{
    reveal(World::impact);
    let c = w.fighters[b.caster as int];
    let magic = c.stat(STAT_MAGIC as int) as int;
    let power = c.stat(STAT_POWER as int) as int;
    crate::formulas::lemma_boosted_power(v1, v2, draw, magic, distance, b.critical, power);
    let grown = if magic < 0 {
        100
    } else {
        100 + magic
    };
    let a = crate::formulas::roll_parts(v1, v2, draw);
    let h = crate::formulas::hit_parts(b.critical);
    let n = a * grown * (5 - distance) * h * (100 + power);
    lemma_reorder(a, grown, 5 - distance, h);
    crate::measure::lemma_nearest_range(
        crate::power::whole(
            crate::power::boosted(
                line.value1,
                line.value2,
                b.jet,
                magic,
                b.aoe,
                b.critical,
                power,
            ),
        ),
        n,
        65536int * 500000,
        crate::map::abs(n),
    );
}

/// Poison of a whole value by a caster without power, at the centre and without
/// a critical hit, is worth as many hundredths more as the caster has magic:
/// twice as much with 100.
pub proof fn lemma_poison_of_whole_magic(w: World, line: EffectParams, b: Blow, v: int, magic: int)
    requires
        line.effect is Poison,
        measured(line, b, v, 0, 0, 0),
        !b.critical,
        w.fighters[b.caster as int].stat(STAT_POWER as int) == 0,
        w.fighters[b.caster as int].stat(STAT_MAGIC as int) == magic,
        magic >= 0,
        (v * (100 + magic)) % 100 == 0,
        -0x7fff_0000 <= (v * (100 + magic)) / 100 <= 0x7fff_0000,
    ensures
        w.impact(line, b).value == (v * (100 + magic)) / 100,
{
    let den = 65536int * 500000;
    let q = (v * (100 + magic)) / 100;
    let t = thrust(v, 0, 0, 0, false);
    assert(t == 65536 * v * 50) by (nonlinear_arith)
        requires
            t == (65536 * v + 0 * 0) * (5 - 0) * 10,
    ;
    let s = 100 + magic;
    assert(t * s * 100 == den * q) by (nonlinear_arith)
        requires
            t == 65536 * v * 50,
            100 * q == v * s,
            den == 65536 * 500000,
    ;
    assert(magic == 0 ==> s == 100);
    assert(crate::map::abs(den * q) <= 0x7fff_0000 * den);
    assert(w.fighters[b.caster as int].stat(STAT_POWER as int) + 100 == 100);
    lemma_poison_value(w, line, b, v, 0, 0, 0);
    crate::measure::lemma_nearest_whole(
        w.impact(line, b).value as int,
        den * q,
        den,
        crate::map::abs(den * q),
        q,
    );
}

/// Nothing but magic and power of the caster makes a difference to its poison.
pub proof fn lemma_poison_needs_magic_alone(w: World, v: World, line: EffectParams, b: Blow)
    requires
        line.effect is Poison,
        w.fighters[b.caster as int].stat(STAT_MAGIC as int)
            == v.fighters[b.caster as int].stat(STAT_MAGIC as int),
        w.fighters[b.caster as int].stat(STAT_POWER as int)
            == v.fighters[b.caster as int].stat(STAT_POWER as int),
    ensures
        w.impact(line, b).value == v.impact(line, b).value,
{
    reveal(World::impact);
}

/// Poison takes its value from the life of a fighter when its turn begins, down
/// to death; an invincible one loses nothing.
pub proof fn lemma_poison_bites(w: World, ei: int)
    requires
        w.wf(),
        0 <= ei < w.effects.len(),
        w.effects[ei].effect is Poison,
        !w.fighters[w.effects[ei].target as int].is_dead(),
        w.effects[ei].value > 0,
    ensures
        ({
            let e = w.effects[ei];
            let t = w.fighters[e.target as int];
            let after = w.effect_ticked(ei).fighters[e.target as int];
            &&& t.has_state(EntityState::Invincible) ==> after == t
            &&& !t.has_state(EntityState::Invincible) && e.value < t.life ==> after.life == t.life
                - e.value
            &&& !t.has_state(EntityState::Invincible) && e.value >= t.life ==> after.is_dead()
        }),
{
    let e = w.effects[ei];
    assert(e.fits(w.fighters.len() as int));
    let t = w.fighters[e.target as int];
    if !t.has_state(EntityState::Invincible) {
        let damage = crate::power::at_most(e.value as int, t.life as int);
        let erosion = crate::power::eroded(damage, e.erosion_rate);
        let v = w.logged(
            crate::impact::damage_row(DamageType::Poison, e.target as int, damage, erosion),
        );
        assert(v.wf());
        crate::harm::lemma_hurt_survived(
            v,
            e.target as int,
            damage as i32,
            erosion as i32,
            Some(e.caster),
        );
    }
}

/// An effect that adds to a characteristic: by what it is raised, or lowered,
/// and that nothing else changes.
pub open spec fn only_changes(w: World, after: World, target: int, stat: int, by: i32) -> bool {
    &&& after.fighters[target].buff_stats == w.fighters[target].buff_stats.update(
        stat,
        w.fighters[target].buff_stats[stat].wrapping_add(by),
    )
    &&& after == w.with_fighter(
        target,
        FighterView {
            buff_stats: after.fighters[target].buff_stats,
            ..w.fighters[target]
        },
    )
}

/// What an effect is worth that grows with a characteristic of `grows`, and what
/// it does: it changes the characteristic `stat` by its worth, if that is above
/// 0, upwards or downwards.
proof fn lemma_carrier(
    w: World,
    line: EffectParams,
    b: Blow,
    v1: int,
    v2: int,
    draw: int,
    distance: int,
    grows: int,
    stat: int,
    up: bool,
)
    requires
        measured(line, b, v1, v2, draw, distance),
        b.target < w.fighters.len(),
        line.castable(),
        i32::MIN <= grows <= i32::MAX,
        crate::impact::carrier(line.effect, w.fighters[b.caster as int]) is Some,
        ({
            let how = crate::impact::carrier(line.effect, w.fighters[b.caster as int]).unwrap();
            how.0 == grows && how.1 == stat && how.2 == if up {
                1
            } else {
                -1int
            }
        }),
        crate::map::abs(thrust(v1, v2, draw, distance, b.critical) * (100 + grows)) <= 0x7fff_0000
            * (65536int * 5000),
    ensures
        grown_effect(w, line, b, v1, v2, draw, distance, grows, stat, up),
{
    reveal(World::impact);
    let a = crate::formulas::roll_parts(v1, v2, draw);
    let h = crate::formulas::hit_parts(b.critical);
    lemma_reorder(a, 100 + grows, 5 - distance, h);
    crate::formulas::lemma_scaled_value(v1, v2, draw, grows, distance, b.critical);
    let n = thrust(v1, v2, draw, distance, b.critical) * (100 + grows);
    let r = crate::power::scaled(
        line.value1,
        line.value2,
        b.jet,
        grows,
        b.aoe,
        b.critical,
    );
    crate::measure::lemma_nearest_range(r, n, 65536int * 5000, crate::map::abs(n));
}

/// Whether the line is worth its value, times 1 and `grows` hundredths, and
/// changes the characteristic `stat` of its target by that, and nothing else.
pub open spec fn grown_effect(
    w: World,
    line: EffectParams,
    b: Blow,
    v1: int,
    v2: int,
    draw: int,
    distance: int,
    grows: int,
    stat: int,
    up: bool,
) -> bool {
    let n = thrust(v1, v2, draw, distance, b.critical) * (100 + grows);
    let hit = w.impact(line, b);
    &&& crate::measure::is_nearest(hit.value as int, n, 65536int * 5000, crate::map::abs(n))
    &&& hit.value <= 0 ==> hit.world == w
    &&& hit.value > 0 ==> only_changes(
        w,
        hit.world,
        b.target as int,
        stat,
        if up {
            hit.value
        } else {
            (-hit.value) as i32
        },
    )
    &&& hit.value > 0 ==> hit.stats == crate::fighter::no_stats().update(
        stat,
        if up {
            hit.value
        } else {
            (-hit.value) as i32
        },
    )
}

/// Buffs grow with the science of the caster and raise the characteristic after
/// which they are named.
pub proof fn lemma_buffs_grow_with_science(
    w: World,
    line: EffectParams,
    b: Blow,
    v1: int,
    v2: int,
    draw: int,
    distance: int,
    stat: usize,
)
    requires
        measured(line, b, v1, v2, draw, distance),
        b.target < w.fighters.len(),
        ({
            ||| line.effect is BuffStrength && stat == STAT_STRENGTH
            ||| line.effect is BuffAgility && stat == STAT_AGILITY
            ||| line.effect is BuffMp && stat == STAT_MP
            ||| line.effect is BuffTp && stat == STAT_TP
            ||| line.effect is BuffWisdom && stat == STAT_WISDOM
            ||| line.effect is BuffResistance && stat == STAT_RESISTANCE
        }),
        crate::map::abs(
            thrust(v1, v2, draw, distance, b.critical) * (100 + w.fighters[b.caster as int].stat(
                STAT_SCIENCE as int,
            )),
        ) <= 0x7fff_0000 * (65536int * 5000),
    ensures
        grown_effect(
            w,
            line,
            b,
            v1,
            v2,
            draw,
            distance,
            w.fighters[b.caster as int].stat(STAT_SCIENCE as int) as int,
            stat as int,
            true,
        ),
{
    lemma_carrier(
        w,
        line,
        b,
        v1,
        v2,
        draw,
        distance,
        w.fighters[b.caster as int].stat(STAT_SCIENCE as int) as int,
        stat as int,
        true,
    );
}

/// Shields grow with the resistance of the caster.
pub proof fn lemma_shields_grow_with_resistance(
    w: World,
    line: EffectParams,
    b: Blow,
    v1: int,
    v2: int,
    draw: int,
    distance: int,
    stat: usize,
)
    requires
        measured(line, b, v1, v2, draw, distance),
        b.target < w.fighters.len(),
        ({
            ||| line.effect is AbsoluteShield && stat == STAT_ABSOLUTE_SHIELD
            ||| line.effect is RelativeShield && stat == STAT_RELATIVE_SHIELD
        }),
        crate::map::abs(
            thrust(v1, v2, draw, distance, b.critical) * (100 + w.fighters[b.caster as int].stat(
                STAT_RESISTANCE as int,
            )),
        ) <= 0x7fff_0000 * (65536int * 5000),
    ensures
        grown_effect(
            w,
            line,
            b,
            v1,
            v2,
            draw,
            distance,
            w.fighters[b.caster as int].stat(STAT_RESISTANCE as int) as int,
            stat as int,
            true,
        ),
{
    lemma_carrier(
        w,
        line,
        b,
        v1,
        v2,
        draw,
        distance,
        w.fighters[b.caster as int].stat(STAT_RESISTANCE as int) as int,
        stat as int,
        true,
    );
}

/// The return of damage grows with the agility of the caster.
pub proof fn lemma_damage_return_grows_with_agility(
    w: World,
    line: EffectParams,
    b: Blow,
    v1: int,
    v2: int,
    draw: int,
    distance: int,
)
    requires
        measured(line, b, v1, v2, draw, distance),
        b.target < w.fighters.len(),
        line.effect is DamageReturn,
        crate::map::abs(
            thrust(v1, v2, draw, distance, b.critical) * (100 + w.fighters[b.caster as int].stat(
                STAT_AGILITY as int,
            )),
        ) <= 0x7fff_0000 * (65536int * 5000),
    ensures
        grown_effect(
            w,
            line,
            b,
            v1,
            v2,
            draw,
            distance,
            w.fighters[b.caster as int].stat(STAT_AGILITY as int) as int,
            STAT_DAMAGE_RETURN as int,
            true,
        ),
{
    lemma_carrier(
        w,
        line,
        b,
        v1,
        v2,
        draw,
        distance,
        w.fighters[b.caster as int].stat(STAT_AGILITY as int) as int,
        STAT_DAMAGE_RETURN as int,
        true,
    );
}

/// Shackles grow with the magic of the caster, where it is above 0, and lower
/// the characteristic after which they are named.
pub proof fn lemma_shackles_grow_with_magic(
    w: World,
    line: EffectParams,
    b: Blow,
    v1: int,
    v2: int,
    draw: int,
    distance: int,
    stat: usize,
    magic: int,
)
    requires
        measured(line, b, v1, v2, draw, distance),
        b.target < w.fighters.len(),
        ({
            ||| line.effect is ShackleMp && stat == STAT_MP
            ||| line.effect is ShackleTp && stat == STAT_TP
            ||| line.effect is ShackleStrength && stat == STAT_STRENGTH
            ||| line.effect is ShackleAgility && stat == STAT_AGILITY
            ||| line.effect is ShackleWisdom && stat == STAT_WISDOM
            ||| line.effect is ShackleMagic && stat == STAT_MAGIC
        }),
        magic == if w.fighters[b.caster as int].stat(STAT_MAGIC as int) > 0 {
            w.fighters[b.caster as int].stat(STAT_MAGIC as int) as int
        } else {
            0
        },
        crate::map::abs(thrust(v1, v2, draw, distance, b.critical) * (100 + magic)) <= 0x7fff_0000
            * (65536int * 5000),
    ensures
        grown_effect(w, line, b, v1, v2, draw, distance, magic, stat as int, false),
{
    lemma_carrier(w, line, b, v1, v2, draw, distance, magic, stat as int, false);
}

/// Raw buffs and vulnerabilities grow with nothing.
pub proof fn lemma_raw_effects_grow_with_nothing(
    w: World,
    line: EffectParams,
    b: Blow,
    v1: int,
    v2: int,
    draw: int,
    distance: int,
    stat: usize,
    up: bool,
)
    requires
        measured(line, b, v1, v2, draw, distance),
        b.target < w.fighters.len(),
        ({
            ||| line.effect is RawBuffStrength && stat == STAT_STRENGTH && up
            ||| line.effect is RawBuffAgility && stat == STAT_AGILITY && up
            ||| line.effect is RawBuffMagic && stat == STAT_MAGIC && up
            ||| line.effect is RawBuffScience && stat == STAT_SCIENCE && up
            ||| line.effect is RawBuffWisdom && stat == STAT_WISDOM && up
            ||| line.effect is RawBuffResistance && stat == STAT_RESISTANCE && up
            ||| line.effect is RawBuffPower && stat == STAT_POWER && up
            ||| line.effect is RawAbsoluteShield && stat == STAT_ABSOLUTE_SHIELD && up
            ||| line.effect is RawRelativeShield && stat == STAT_RELATIVE_SHIELD && up
            ||| line.effect is Vulnerability && stat == STAT_RELATIVE_SHIELD && !up
            ||| line.effect is AbsoluteVulnerability && stat == STAT_ABSOLUTE_SHIELD && !up
        }),
        crate::map::abs(thrust(v1, v2, draw, distance, b.critical) * 100) <= 0x7fff_0000 * (65536int
            * 5000),
    ensures
        grown_effect(w, line, b, v1, v2, draw, distance, 0, stat as int, up),
{
    lemma_carrier(w, line, b, v1, v2, draw, distance, 0, stat as int, up);
}

/// Direct damage, by its inputs: the value, times 1 and as many hundredths as
/// strength, where it is above 0, and as power, times the number of targets; of
/// which 32768000000 make 1.
pub open spec fn damage_parts(
    c: FighterView,
    b: Blow,
    v1: int,
    v2: int,
    draw: int,
    distance: int,
) -> int {
    let strength = c.stat(STAT_STRENGTH as int);
    thrust(v1, v2, draw, distance, b.critical) * (100 + if strength > 0 {
        strength as int
    } else {
        0
    }) * b.count * (100 + c.stat(STAT_POWER as int))
}

/// Of how large amounts direct damage and the shields against it are.
pub open spec fn damage_size(
    c: FighterView,
    t: FighterView,
    b: Blow,
    v1: int,
    v2: int,
    draw: int,
    distance: int,
) -> int {
    crate::map::abs(damage_parts(c, b, v1, v2, draw, distance)) * (100 + crate::map::abs(
        t.stat(STAT_RELATIVE_SHIELD as int) as int,
    )) + crate::map::abs(t.stat(STAT_ABSOLUTE_SHIELD as int) as int) * 3276800000000
}

/// Direct damage comes to `shot` behind the shields, which take as many
/// hundredths as the relative and as many points as the absolute one; the
/// target loses that much life, or what it has, and the caster hurts nobody
/// else with it. Of the damage, 5 hundredths wear off the total life, and 10
/// more after a critical hit. A target that returns nothing sends nothing back.
pub proof fn lemma_direct_damage(
    w: World,
    line: EffectParams,
    b: Blow,
    v1: int,
    v2: int,
    draw: int,
    distance: int,
) -> (shot: int)
    requires
        w.wf(),
        b.target < w.fighters.len(),
        b.caster < w.fighters.len(),
        b.target != b.caster,
        line.effect is Damage,
        measured(line, b, v1, v2, draw, distance),
        !w.fighters[b.target as int].is_dead(),
        !w.fighters[b.target as int].has_state(EntityState::Invincible),
        damage_size(
            w.fighters[b.caster as int],
            w.fighters[b.target as int],
            b,
            v1,
            v2,
            draw,
            distance,
        ) <= 0x7fff_0000 * 3276800000000,
    ensures
        ({
            let c = w.fighters[b.caster as int];
            let t = w.fighters[b.target as int];
            let left = damage_parts(c, b, v1, v2, draw, distance) * (100 - t.stat(
                STAT_RELATIVE_SHIELD as int,
            )) - t.stat(STAT_ABSOLUTE_SHIELD as int) * 3276800000000;
            let hit = w.impact(line, b);
            let after = hit.world.fighters[b.target as int];
            &&& crate::measure::is_nearest(
                shot,
                if left < 0 {
                    0
                } else {
                    left
                },
                3276800000000,
                damage_size(c, t, b, v1, v2, draw, distance),
            )
            &&& shot >= 0
            &&& hit.value == if shot < t.life {
                shot
            } else {
                t.life as int
            }
            &&& t.stat(STAT_DAMAGE_RETURN as int) == 0 && shot < t.life ==> {
                &&& after.life == t.life - shot
                &&& forall|i: int|
                    0 <= i < w.fighters.len() && i != b.target && i != b.caster ==> (
                    #[trigger] hit.world.fighters[i]) == w.fighters[i]
                &&& shot < t.total_life ==> crate::measure::is_nearest(
                    t.total_life - after.total_life,
                    shot * (if b.critical {
                        15int
                    } else {
                        5
                    }),
                    100,
                    shot * 15,
                )
                &&& hit.world.fighters[b.caster as int].life >= c.life
            }
            &&& t.stat(STAT_DAMAGE_RETURN as int) == 0 && shot >= t.life ==> after.is_dead()
        }),
{
    reveal(World::impact);
    let c = w.fighters[b.caster as int];
    let t = w.fighters[b.target as int];
    let strength = c.stat(STAT_STRENGTH as int) as int;
    let power = c.stat(STAT_POWER as int) as int;
    let relative = t.stat(STAT_RELATIVE_SHIELD as int) as int;
    let absolute = t.stat(STAT_ABSOLUTE_SHIELD as int) as int;
    let den = 65536int * 500000;
    crate::formulas::lemma_raw_damage(
        v1,
        v2,
        draw,
        strength,
        distance,
        b.critical,
        b.count as int,
        power,
    );
    let grown = if strength < 0 {
        100
    } else {
        100 + strength
    };
    let a = crate::formulas::roll_parts(v1, v2, draw);
    let h = crate::formulas::hit_parts(b.critical);
    lemma_reorder(a, grown, 5 - distance, h);
    let n = damage_parts(c, b, v1, v2, draw, distance);
    assert(n == a * grown * (5 - distance) * h * b.count * (100 + power));
    let d = crate::power::raw_damage(
        line.value1,
        line.value2,
        b.jet,
        strength,
        b.aoe,
        b.critical,
        b.count as int,
        power,
    );
    assert(100 * den == 3276800000000);
    crate::formulas::lemma_shielded_value(d, n, den, 80, relative, absolute);
    let shot = crate::power::whole(crate::power::shielded(d, relative, absolute));
    let left = n * (100 - relative) - absolute * 3276800000000;
    let felt = if left < 0 {
        0
    } else {
        left
    };
    let size = damage_size(c, t, b, v1, v2, draw, distance);
    lemma_felt_size(n, relative, absolute, 3276800000000);
    crate::measure::lemma_nearest_range(shot, felt, 3276800000000, size);
    let value = crate::power::at_most(shot, t.life as int);
    let rate = crate::impact::line_erosion(line, b.critical);
    let erosion = crate::power::eroded(value, rate);
    crate::formulas::lemma_erosion(value, false, b.critical);
    let part = if b.critical {
        15int
    } else {
        5
    };
    let wear = value * part;
    assert(0 <= wear <= 0x7fff_0000 * 100) by (nonlinear_arith)
        requires
            wear == value * part,
            0 <= value <= 0x7fff_ffff,
            5 <= part <= 15,
    ;
    crate::measure::lemma_nearest_range(erosion, wear, 100, wear);
    let v = w.logged(
        crate::impact::damage_row(DamageType::Direct, b.target as int, value, erosion),
    );
    assert(v.wf());
    crate::harm::lemma_hurt_survived(
        v,
        b.target as int,
        value as i32,
        erosion as i32,
        Some(b.caster),
    );
    if t.stat(STAT_DAMAGE_RETURN as int) == 0 {
        assert(n * 0 == 0);
        crate::formulas::lemma_returned(d, n, den, 80, 0);
        crate::measure::lemma_nearest_whole(
            crate::power::returned(d, 0),
            0,
            den * 100,
            0,
            0,
        );
        let hurt = v.hurt(b.target as int, value as i32, erosion as i32, Some(b.caster));
        let steal = crate::power::stolen(value, c.stat(STAT_WISDOM as int) as int);
        let after = hurt.life_stolen(b.caster as int, steal);
        assert(after == w.impact(line, b).world);
        assert(after.fighters[b.target as int] == hurt.fighters[b.target as int]);
        if shot < t.life {
            assert forall|i: int|
                0 <= i < w.fighters.len() && i != b.target && i != b.caster implies (
            #[trigger] after.fighters[i]) == w.fighters[i] by {
                assert(hurt.fighters[i] == v.fighters[i]);
            }
            assert(hurt.fighters[b.caster as int] == v.fighters[b.caster as int]);
            assert(0 <= erosion <= value);
        }
    }
    shot
}

proof fn lemma_felt_size(n: int, relative: int, absolute: int, c: int)
    requires
        c >= 1,
    ensures
        n * (100 - relative) - absolute * c <= crate::map::abs(n) * (100 + crate::map::abs(relative))
            + crate::map::abs(absolute) * c,
        0 <= crate::map::abs(n) * (100 + crate::map::abs(relative)) + crate::map::abs(absolute) * c,
{
    let an = crate::map::abs(n);
    let ar = crate::map::abs(relative);
    let aa = crate::map::abs(absolute);
    assert(n * (100 - relative) <= an * (100 + ar)) by (nonlinear_arith)
        requires
            an == crate::map::abs(n),
            ar == crate::map::abs(relative),
    ;
    assert(-(absolute * c) <= aa * c) by (nonlinear_arith)
        requires
            aa == crate::map::abs(absolute),
            c >= 1,
    ;
    assert(0 <= an * (100 + ar)) by (nonlinear_arith)
        requires
            an >= 0,
            ar >= 0,
    ;
    assert(0 <= aa * c) by (nonlinear_arith)
        requires
            aa >= 0,
            c >= 1,
    ;
}

/// An invincible target loses no life to direct damage, and everything else to
/// which it is struck is worth nothing.
pub proof fn lemma_the_invincible_lose_nothing(w: World, line: EffectParams, b: Blow)
    requires
        w.wf(),
        b.target < w.fighters.len(),
        b.caster < w.fighters.len(),
        b.target != b.caster,
        line.effect is Damage || line.effect is LifeDamage || line.effect is NovaDamage
            || line.effect is Aftereffect,
        w.fighters[b.target as int].has_state(EntityState::Invincible),
        w.fighters[b.target as int].life > 0,
        w.fighters[b.target as int].total_life >= w.fighters[b.target as int].life,
        line.effect is LifeDamage ==> w.fighters[b.target as int].stat(
            STAT_ABSOLUTE_SHIELD as int,
        ) >= 0,
    ensures
        w.impact(line, b).value == 0,
{
    reveal(World::impact);
    lemma_nothing_is_whole();
    let t = w.fighters[b.target as int];
    if line.effect is LifeDamage {
        lemma_nothing_stays_nothing(
            t.stat(STAT_RELATIVE_SHIELD as int) as int,
            t.stat(STAT_ABSOLUTE_SHIELD as int) as int,
        );
    }
}

proof fn lemma_nothing_is_whole()
    ensures
        crate::power::whole(crate::number::nearest(false, 0, 0)) == 0,
{
    reveal(crate::power::whole);
    crate::measure::lemma_int_units(0);
    vstd::arithmetic::power2::lemma_pow2_pos(crate::measure::places());
    crate::measure::lemma_round32_units(crate::number::spec_int(0), 64);
    assert(0 * crate::measure::unit() == 0);
}

proof fn lemma_nothing_stays_nothing(relative: int, absolute: int)
    requires
        i32::MIN <= relative <= i32::MAX,
        0 <= absolute <= i32::MAX,
    ensures
        crate::power::whole(
            crate::power::shielded(crate::number::nearest(false, 0, 0), relative, absolute),
        ) == 0,
{
    lemma_nothing_is_whole();
    let z = crate::number::nearest(false, 0, 0);
    crate::measure::lemma_int_units(0);
    assert(z == crate::number::spec_int(0));
    assert(0 * crate::measure::unit() == 0);
    assert(80 * crate::map::abs(0) == 0);
    assert(crate::measure::close(z, 0 * crate::measure::unit(), 1, 80));
    crate::formulas::lemma_shield_of_nothing(relative, absolute);
}

/// Healing gives its value, times 1 and as many hundredths as wisdom and times
/// the number of targets, at once and as far as life is missing.
pub proof fn lemma_heal(
    w: World,
    line: EffectParams,
    b: Blow,
    v1: int,
    v2: int,
    draw: int,
    distance: int,
) -> (gift: int)
    requires
        b.target < w.fighters.len(),
        line.effect is Heal,
        line.turns == 0,
        measured(line, b, v1, v2, draw, distance),
        !w.fighters[b.target as int].has_state(EntityState::Unhealable),
        0 <= w.fighters[b.target as int].life <= w.fighters[b.target as int].total_life,
        crate::map::abs(
            thrust(v1, v2, draw, distance, b.critical) * (100 + w.fighters[b.caster as int].stat(
                STAT_WISDOM as int,
            )) * b.count,
        ) <= 0x7fff_0000 * (65536int * 5000),
    ensures
        ({
            let t = w.fighters[b.target as int];
            let n = thrust(v1, v2, draw, distance, b.critical) * (100
                + w.fighters[b.caster as int].stat(STAT_WISDOM as int)) * b.count;
            let after = w.impact(line, b).world.fighters[b.target as int];
            &&& crate::measure::is_nearest(gift, n, 65536int * 5000, crate::map::abs(n))
            &&& after.life == if gift <= 0 {
                t.life as int
            } else if t.life + gift < t.total_life {
                t.life + gift
            } else {
                t.total_life as int
            }
            &&& after.total_life == t.total_life
        }),
{
    reveal(World::impact);
    let wisdom = w.fighters[b.caster as int].stat(STAT_WISDOM as int) as int;
    let a = crate::formulas::roll_parts(v1, v2, draw);
    let h = crate::formulas::hit_parts(b.critical);
    lemma_reorder(a, 100 + wisdom, 5 - distance, h);
    crate::formulas::lemma_healing_value(
        v1,
        v2,
        draw,
        wisdom,
        distance,
        b.critical,
        b.count as int,
    );
    let n = thrust(v1, v2, draw, distance, b.critical) * (100 + wisdom) * b.count;
    let r = crate::power::healing(
        line.value1,
        line.value2,
        b.jet,
        wisdom,
        b.aoe,
        b.critical,
        b.count as int,
    );
    crate::measure::lemma_nearest_range(r, n, 65536int * 5000, crate::map::abs(n));
    r
}

/// Vitality raises life and total life alike, by its value, times 1 and as many
/// hundredths as wisdom.
pub proof fn lemma_vitality(
    w: World,
    line: EffectParams,
    b: Blow,
    v1: int,
    v2: int,
    draw: int,
    distance: int,
) -> (gift: int)
    requires
        b.target < w.fighters.len(),
        line.effect is Vitality,
        measured(line, b, v1, v2, draw, distance),
        0 <= w.fighters[b.target as int].life <= w.fighters[b.target as int].total_life,
        w.fighters[b.target as int].total_life <= 0xfff0,
        crate::map::abs(
            thrust(v1, v2, draw, distance, b.critical) * (100 + w.fighters[b.caster as int].stat(
                STAT_WISDOM as int,
            )),
        ) <= 0x7ffe_0000 * (65536int * 5000),
    ensures
        ({
            let t = w.fighters[b.target as int];
            let n = thrust(v1, v2, draw, distance, b.critical) * (100
                + w.fighters[b.caster as int].stat(STAT_WISDOM as int));
            let after = w.impact(line, b).world.fighters[b.target as int];
            let more = if gift < 0 {
                0
            } else {
                gift
            };
            &&& crate::measure::is_nearest(gift, n, 65536int * 5000, crate::map::abs(n))
            &&& after.life == t.life + more
            &&& after.total_life == t.total_life + more
        }),
{
    reveal(World::impact);
    let wisdom = w.fighters[b.caster as int].stat(STAT_WISDOM as int) as int;
    let a = crate::formulas::roll_parts(v1, v2, draw);
    let h = crate::formulas::hit_parts(b.critical);
    lemma_reorder(a, 100 + wisdom, 5 - distance, h);
    crate::formulas::lemma_scaled_value(v1, v2, draw, wisdom, distance, b.critical);
    let n = thrust(v1, v2, draw, distance, b.critical) * (100 + wisdom);
    let r = crate::power::scaled(line.value1, line.value2, b.jet, wisdom, b.aoe, b.critical);
    crate::measure::lemma_nearest_range(r, n, 65536int * 5000, crate::map::abs(n));
    assert(r <= 0x7ffe_0001) by (nonlinear_arith)
        requires
            2 * (65536 * 5000 * r - n) * 0x100_0000_0000 <= 65536 * 5000 * 0x100_0000_0000
                + crate::map::abs(n),
            crate::map::abs(n) <= 0x7ffe_0000 * (65536 * 5000),
    ;
    r
}

/// An aftereffect hurts at once: its value, times 1 and as many hundredths as
/// science; shields do not help.
pub proof fn lemma_aftereffect(
    w: World,
    line: EffectParams,
    b: Blow,
    v1: int,
    v2: int,
    draw: int,
    distance: int,
) -> (shot: int)
    requires
        w.wf(),
        b.target < w.fighters.len(),
        line.effect is Aftereffect,
        measured(line, b, v1, v2, draw, distance),
        !w.fighters[b.target as int].is_dead(),
        !w.fighters[b.target as int].has_state(EntityState::Invincible),
        crate::map::abs(
            thrust(v1, v2, draw, distance, b.critical) * (100 + w.fighters[b.caster as int].stat(
                STAT_SCIENCE as int,
            )),
        ) <= 0x7fff_0000 * (65536int * 5000),
    ensures
        ({
            let t = w.fighters[b.target as int];
            let n = thrust(v1, v2, draw, distance, b.critical) * (100
                + w.fighters[b.caster as int].stat(STAT_SCIENCE as int));
            let after = w.impact(line, b).world.fighters[b.target as int];
            &&& crate::measure::is_nearest(shot, n, 65536int * 5000, crate::map::abs(n))
            &&& shot < t.life ==> after.life == t.life - (if shot < 0 {
                0
            } else {
                shot
            })
            &&& shot >= t.life ==> after.is_dead()
        }),
{
    reveal(World::impact);
    let science = w.fighters[b.caster as int].stat(STAT_SCIENCE as int) as int;
    let a = crate::formulas::roll_parts(v1, v2, draw);
    let h = crate::formulas::hit_parts(b.critical);
    lemma_reorder(a, 100 + science, 5 - distance, h);
    crate::formulas::lemma_scaled_value(v1, v2, draw, science, distance, b.critical);
    let n = thrust(v1, v2, draw, distance, b.critical) * (100 + science);
    let r = crate::power::scaled(line.value1, line.value2, b.jet, science, b.aoe, b.critical);
    crate::measure::lemma_nearest_range(r, n, 65536int * 5000, crate::map::abs(n));
    let t = w.fighters[b.target as int];
    let value = crate::power::at_most(crate::power::at_least(r, 0), t.life as int);
    let erosion = crate::power::eroded(value, crate::impact::line_erosion(line, b.critical));
    let v = w.logged(
        crate::impact::damage_row(DamageType::Poison, b.target as int, value, erosion),
    );
    assert(v.wf());
    crate::harm::lemma_hurt_survived(
        v,
        b.target as int,
        value as i32,
        erosion as i32,
        Some(b.caster),
    );
    r
}

/// Nova damage grows with science, where it is above 0, and with power; it takes
/// total life, as far as life is missing, and no life.
pub proof fn lemma_nova_damage(
    w: World,
    line: EffectParams,
    b: Blow,
    v1: int,
    v2: int,
    draw: int,
    distance: int,
) -> (shot: int)
    requires
        w.wf(),
        b.target < w.fighters.len(),
        line.effect is NovaDamage,
        measured(line, b, v1, v2, draw, distance),
        0 < w.fighters[b.target as int].life <= w.fighters[b.target as int].total_life,
        !w.fighters[b.target as int].has_state(EntityState::Invincible),
        ({
            let c = w.fighters[b.caster as int];
            let science = c.stat(STAT_SCIENCE as int);
            crate::map::abs(
                thrust(v1, v2, draw, distance, b.critical) * (100 + if science > 0 {
                    science as int
                } else {
                    0
                }) * (100 + c.stat(STAT_POWER as int)),
            ) <= 0x7fff_0000 * (65536int * 500000)
        }),
    ensures
        ({
            let c = w.fighters[b.caster as int];
            let t = w.fighters[b.target as int];
            let science = c.stat(STAT_SCIENCE as int);
            let n = thrust(v1, v2, draw, distance, b.critical) * (100 + if science > 0 {
                science as int
            } else {
                0
            }) * (100 + c.stat(STAT_POWER as int));
            let after = w.impact(line, b).world.fighters[b.target as int];
            &&& crate::measure::is_nearest(shot, n, 65536int * 500000, crate::map::abs(n))
            &&& after.life == t.life
            &&& after.total_life == if shot < 0 {
                t.total_life as int
            } else if shot < t.total_life - t.life {
                t.total_life - shot
            } else {
                t.life as int
            }
        }),
{
    reveal(World::impact);
    let c = w.fighters[b.caster as int];
    let science = c.stat(STAT_SCIENCE as int) as int;
    let power = c.stat(STAT_POWER as int) as int;
    crate::formulas::lemma_boosted_power(v1, v2, draw, science, distance, b.critical, power);
    let grown = if science < 0 {
        100
    } else {
        100 + science
    };
    let a = crate::formulas::roll_parts(v1, v2, draw);
    let h = crate::formulas::hit_parts(b.critical);
    lemma_reorder(a, grown, 5 - distance, h);
    let n = a * grown * (5 - distance) * h * (100 + power);
    let r = crate::power::whole(
        crate::power::boosted(
            line.value1,
            line.value2,
            b.jet,
            science,
            b.aoe,
            b.critical,
            power,
        ),
    );
    crate::measure::lemma_nearest_range(r, n, 65536int * 500000, crate::map::abs(n));
    let t = w.fighters[b.target as int];
    let value = crate::power::at_most(r, t.total_life.wrapping_sub(t.life) as int);
    let v = w.logged(crate::impact::damage_row(DamageType::Nova, b.target as int, value, 0));
    assert(v.wf());
    crate::harm::lemma_hurt_survived(v, b.target as int, 0, value as i32, Some(b.caster));
    crate::harm::lemma_hurt_wears(v, b.target as int, 0, value as i32, Some(b.caster));
    r
}

/// Nova vitality raises the total life, and not the life, by its value, times 1
/// and as many hundredths as science.
pub proof fn lemma_nova_vitality(
    w: World,
    line: EffectParams,
    b: Blow,
    v1: int,
    v2: int,
    draw: int,
    distance: int,
) -> (gift: int)
    requires
        b.target < w.fighters.len(),
        line.effect is NovaVitality,
        measured(line, b, v1, v2, draw, distance),
        crate::map::abs(
            thrust(v1, v2, draw, distance, b.critical) * (100 + w.fighters[b.caster as int].stat(
                STAT_SCIENCE as int,
            )),
        ) <= 0x7fff_0000 * (65536int * 5000),
    ensures
        ({
            let t = w.fighters[b.target as int];
            let n = thrust(v1, v2, draw, distance, b.critical) * (100
                + w.fighters[b.caster as int].stat(STAT_SCIENCE as int));
            let after = w.impact(line, b).world.fighters[b.target as int];
            &&& crate::measure::is_nearest(gift, n, 65536int * 5000, crate::map::abs(n))
            &&& after.life == t.life
            &&& i32::MIN <= t.total_life + gift <= i32::MAX ==> after.total_life == t.total_life
                + gift
        }),
{
    reveal(World::impact);
    let science = w.fighters[b.caster as int].stat(STAT_SCIENCE as int) as int;
    let a = crate::formulas::roll_parts(v1, v2, draw);
    let h = crate::formulas::hit_parts(b.critical);
    lemma_reorder(a, 100 + science, 5 - distance, h);
    crate::formulas::lemma_scaled_value(v1, v2, draw, science, distance, b.critical);
    let n = thrust(v1, v2, draw, distance, b.critical) * (100 + science);
    let r = crate::power::scaled(line.value1, line.value2, b.jet, science, b.aoe, b.critical);
    crate::measure::lemma_nearest_range(r, n, 65536int * 5000, crate::map::abs(n));
    r
}

/// Damage measured by the life of the caster is as many hundredths of it as the
/// value, and grows with power; shields take from it what they take from other
/// damage, and the target loses what is left.
pub proof fn lemma_life_damage(
    w: World,
    line: EffectParams,
    b: Blow,
    v1: int,
    v2: int,
    draw: int,
    distance: int,
) -> (shot: int)
    requires
        w.wf(),
        b.target < w.fighters.len(),
        b.caster < w.fighters.len(),
        b.target != b.caster,
        line.effect is LifeDamage,
        measured(line, b, v1, v2, draw, distance),
        !w.fighters[b.target as int].is_dead(),
        !w.fighters[b.target as int].has_state(EntityState::Invincible),
        w.fighters[b.target as int].stat(STAT_DAMAGE_RETURN as int) == 0,
        ({
            let c = w.fighters[b.caster as int];
            let t = w.fighters[b.target as int];
            let n = thrust(v1, v2, draw, distance, b.critical) * c.life * (100 + c.stat(
                STAT_POWER as int,
            ));
            crate::map::abs(n) * (100 + crate::map::abs(
                t.stat(STAT_RELATIVE_SHIELD as int) as int,
            )) + crate::map::abs(t.stat(STAT_ABSOLUTE_SHIELD as int) as int) * 3276800000000
                <= 0x7fff_0000 * 3276800000000
        }),
    ensures
        ({
            let c = w.fighters[b.caster as int];
            let t = w.fighters[b.target as int];
            let n = thrust(v1, v2, draw, distance, b.critical) * c.life * (100 + c.stat(
                STAT_POWER as int,
            ));
            let left = n * (100 - t.stat(STAT_RELATIVE_SHIELD as int)) - t.stat(
                STAT_ABSOLUTE_SHIELD as int,
            ) * 3276800000000;
            let hit = w.impact(line, b);
            let after = hit.world.fighters[b.target as int];
            &&& crate::measure::is_nearest(
                shot,
                if left < 0 {
                    0
                } else {
                    left
                },
                3276800000000,
                crate::map::abs(n) * (100 + crate::map::abs(
                    t.stat(STAT_RELATIVE_SHIELD as int) as int,
                )) + crate::map::abs(t.stat(STAT_ABSOLUTE_SHIELD as int) as int) * 3276800000000,
            )
            &&& shot < t.life ==> after.life == t.life - shot && hit.value == shot
            &&& shot >= t.life ==> after.is_dead() && hit.value == t.life
        }),
{
    reveal(World::impact);
    let c = w.fighters[b.caster as int];
    let t = w.fighters[b.target as int];
    let power = c.stat(STAT_POWER as int) as int;
    let relative = t.stat(STAT_RELATIVE_SHIELD as int) as int;
    let absolute = t.stat(STAT_ABSOLUTE_SHIELD as int) as int;
    let den = 65536int * 500000;
    let life = c.life as int;
    crate::formulas::lemma_raw_life_damage(v1, v2, draw, life, distance, b.critical, power);
    let a = crate::formulas::roll_parts(v1, v2, draw);
    let h = crate::formulas::hit_parts(b.critical);
    lemma_reorder(a, life, 5 - distance, h);
    let n = thrust(v1, v2, draw, distance, b.critical) * life * (100 + power);
    assert(n == a * life * (5 - distance) * h * (100 + power));
    let d = crate::power::raw_life_damage(
        line.value1,
        line.value2,
        b.jet,
        life,
        b.aoe,
        b.critical,
        power,
    );
    assert(100 * den == 3276800000000);
    crate::formulas::lemma_shielded_value(d, n, den, 60, relative, absolute);
    let shot = crate::power::whole(crate::power::shielded(d, relative, absolute));
    let left = n * (100 - relative) - absolute * 3276800000000;
    let felt = if left < 0 {
        0
    } else {
        left
    };
    lemma_felt_size(n, relative, absolute, 3276800000000);
    crate::measure::lemma_nearest_range(
        shot,
        felt,
        3276800000000,
        crate::map::abs(n) * (100 + crate::map::abs(relative)) + crate::map::abs(absolute)
            * 3276800000000,
    );
    let value = crate::power::at_most(shot, t.life as int);
    let erosion = crate::power::eroded(value, crate::impact::line_erosion(line, b.critical));
    let v = w.logged(
        crate::impact::damage_row(DamageType::Life, b.target as int, value, erosion),
    );
    assert(v.wf());
    crate::harm::lemma_hurt_survived(
        v,
        b.target as int,
        value as i32,
        erosion as i32,
        Some(b.caster),
    );
    assert(n * 0 == 0);
    crate::formulas::lemma_returned(d, n, den, 60, 0);
    crate::measure::lemma_nearest_whole(crate::power::returned(d, 0), 0, den * 100, 0, 0);
    shot
}

/// The damage that goes back: as many hundredths of the damage before shields
/// as the target returns.
pub proof fn lemma_return_of_damage(
    w: World,
    line: EffectParams,
    b: Blow,
    v1: int,
    v2: int,
    draw: int,
    distance: int,
) -> (back: int)
    requires
        measured(line, b, v1, v2, draw, distance),
        crate::map::abs(
            damage_parts(w.fighters[b.caster as int], b, v1, v2, draw, distance)
                * w.fighters[b.target as int].stat(STAT_DAMAGE_RETURN as int),
        ) <= 0x7fff_0000 * 3276800000000,
    ensures
        ({
            let c = w.fighters[b.caster as int];
            let t = w.fighters[b.target as int];
            let n = damage_parts(c, b, v1, v2, draw, distance) * t.stat(STAT_DAMAGE_RETURN as int);
            &&& crate::measure::is_nearest(back, n, 3276800000000, crate::map::abs(n))
            &&& back == crate::power::returned(
                crate::power::raw_damage(
                    line.value1,
                    line.value2,
                    b.jet,
                    c.stat(STAT_STRENGTH as int) as int,
                    b.aoe,
                    b.critical,
                    b.count as int,
                    c.stat(STAT_POWER as int) as int,
                ),
                t.stat(STAT_DAMAGE_RETURN as int) as int,
            )
        }),
{
    let c = w.fighters[b.caster as int];
    let t = w.fighters[b.target as int];
    let strength = c.stat(STAT_STRENGTH as int) as int;
    let power = c.stat(STAT_POWER as int) as int;
    let share = t.stat(STAT_DAMAGE_RETURN as int) as int;
    let den = 65536int * 500000;
    crate::formulas::lemma_raw_damage(
        v1,
        v2,
        draw,
        strength,
        distance,
        b.critical,
        b.count as int,
        power,
    );
    let grown = if strength < 0 {
        100
    } else {
        100 + strength
    };
    let a = crate::formulas::roll_parts(v1, v2, draw);
    let h = crate::formulas::hit_parts(b.critical);
    lemma_reorder(a, grown, 5 - distance, h);
    let n = damage_parts(c, b, v1, v2, draw, distance);
    let d = crate::power::raw_damage(
        line.value1,
        line.value2,
        b.jet,
        strength,
        b.aoe,
        b.critical,
        b.count as int,
        power,
    );
    assert(den * 100 == 3276800000000);
    crate::formulas::lemma_returned(d, n, den, 80, share);
    crate::power::returned(d, share)
}

/// Damage that comes back takes as much life from the caster, or what it has;
/// an invincible one loses nothing.
pub proof fn lemma_struck_back(w: World, caster: int, amount: int, rate: crate::number::Real, target: usize)
    requires
        w.wf(),
        0 <= caster < w.fighters.len(),
        !w.fighters[caster].is_dead(),
        0 < amount <= i32::MAX,
    ensures
        ({
            let c = w.fighters[caster];
            let after = w.struck_back(caster, amount, rate, target).fighters[caster];
            &&& c.has_state(EntityState::Invincible) ==> after == c
            &&& !c.has_state(EntityState::Invincible) && amount < c.life ==> after.life == c.life
                - amount
            &&& !c.has_state(EntityState::Invincible) && amount >= c.life ==> after.is_dead()
        }),
{
    let c = w.fighters[caster];
    if !c.has_state(EntityState::Invincible) {
        let r = crate::power::at_most(amount, c.life as int);
        let e = crate::power::eroded(r, rate);
        let v = w.logged(crate::impact::damage_row(DamageType::Return, caster, r, e));
        assert(v.wf());
        crate::harm::lemma_hurt_survived(v, caster, r as i32, e as i32, Some(target));
    }
}

/// Stolen life comes to the caster, as far as it misses some, unless it is dead
/// or cannot be healed; as many thousandths of the damage as it has wisdom.
pub proof fn lemma_life_steal(w: World, caster: int, steal: int)
    requires
        0 <= caster < w.fighters.len(),
        i32::MIN <= steal <= i32::MAX,
        w.fighters[caster].life <= w.fighters[caster].total_life,
    ensures
        ({
            let c = w.fighters[caster];
            let after = w.life_stolen(caster, steal).fighters[caster];
            &&& c.is_dead() || steal <= 0 || c.has_state(EntityState::Unhealable) ==> after.life
                == c.life
            &&& !c.is_dead() && steal > 0 && !c.has_state(EntityState::Unhealable) && c.life + steal
                <= i32::MAX ==> after.life == if c.life + steal < c.total_life {
                c.life + steal
            } else {
                c.total_life as int
            }
            &&& after.total_life == c.total_life
        }),
{
}

/// Points of movement and of turns that grow with nothing but the number of
/// targets and a critical hit.
pub proof fn lemma_raw_points_raise(
    w: World,
    line: EffectParams,
    b: Blow,
    v1: int,
    v2: int,
    draw: int,
    distance: int,
    stat: usize,
)
    requires
        measured(line, b, v1, v2, draw, distance),
        b.target < w.fighters.len(),
        line.effect is RawBuffMp && stat == STAT_MP || line.effect is RawBuffTp && stat == STAT_TP,
        crate::map::abs(
            crate::formulas::roll_parts(v1, v2, draw) * b.count * crate::formulas::hit_parts(
                b.critical,
            ),
        ) <= 0x7fff_0000 * 655360,
    ensures
        ({
            let n = crate::formulas::roll_parts(v1, v2, draw) * b.count
                * crate::formulas::hit_parts(b.critical);
            let hit = w.impact(line, b);
            &&& crate::measure::is_nearest(hit.value as int, n, 655360, crate::map::abs(n))
            &&& hit.value <= 0 ==> hit.world == w
            &&& hit.value > 0 ==> only_changes(
                w,
                hit.world,
                b.target as int,
                stat as int,
                hit.value,
            )
        }),
{
    reveal(World::impact);
    crate::formulas::lemma_raw_points(v1, v2, draw, b.critical, b.count as int);
    let n = crate::formulas::roll_parts(v1, v2, draw) * b.count * crate::formulas::hit_parts(
        b.critical,
    );
    let r = crate::power::raw_points(
        line.value1,
        line.value2,
        b.jet,
        b.critical,
        b.count as int,
    );
    crate::measure::lemma_nearest_range(r, n, 655360, crate::map::abs(n));
}

/// Raw healing grows with no characteristic.
pub proof fn lemma_raw_heal(
    w: World,
    line: EffectParams,
    b: Blow,
    v1: int,
    v2: int,
    draw: int,
    distance: int,
) -> (gift: int)
    requires
        b.target < w.fighters.len(),
        line.effect is RawHeal,
        measured(line, b, v1, v2, draw, distance),
        !w.fighters[b.target as int].has_state(EntityState::Unhealable),
        0 <= w.fighters[b.target as int].life <= w.fighters[b.target as int].total_life <= 0xfff0,
        crate::map::abs(thrust(v1, v2, draw, distance, b.critical) * b.count) <= 0x7ffe_0000
            * 3276800,
    ensures
        ({
            let t = w.fighters[b.target as int];
            let n = thrust(v1, v2, draw, distance, b.critical) * b.count;
            let after = w.impact(line, b).world.fighters[b.target as int];
            &&& crate::measure::is_nearest(gift, n, 3276800, crate::map::abs(n))
            &&& after.life == if gift <= 0 {
                t.life as int
            } else if t.life + gift < t.total_life {
                t.life + gift
            } else {
                t.total_life as int
            }
        }),
{
    reveal(World::impact);
    crate::formulas::lemma_raw_healing(
        v1,
        v2,
        draw,
        distance,
        b.critical,
        b.count as int,
    );
    let n = thrust(v1, v2, draw, distance, b.critical) * b.count;
    let r = crate::power::raw_healing(
        line.value1,
        line.value2,
        b.jet,
        b.aoe,
        b.critical,
        b.count as int,
    );
    crate::measure::lemma_nearest_range(r, n, 3276800, crate::map::abs(n));
    assert(r <= 0x7ffe_0001) by (nonlinear_arith)
        requires
            2 * (3276800 * r - n) * 0x100_0000_0000 <= 3276800 * 0x100_0000_0000 + crate::map::abs(
                n,
            ),
            crate::map::abs(n) <= 0x7ffe_0000 * 3276800,
    ;
    r
}

/// What a kill, a theft of a shield, and a permutation do.
pub proof fn lemma_plain_effects(w: World, line: EffectParams, b: Blow)
    requires
        w.wf(),
        b.target < w.fighters.len(),
        b.caster < w.fighters.len(),
    ensures
        line.effect is Kill && !w.fighters[b.target as int].is_dead() ==> w.impact(
            line,
            b,
        ).world.fighters[b.target as int].is_dead(),
        line.effect is StealAbsoluteShield && b.previous > 0 ==> only_changes(
            w,
            w.impact(line, b).world,
            b.target as int,
            STAT_ABSOLUTE_SHIELD as int,
            b.previous,
        ),
        line.effect is Permutation && b.target != b.caster && !w.fighters[b.target as int].has_state(
            EntityState::Static,
        ) && w.fighters[b.target as int].cell is Some && w.fighters[b.caster as int].cell is Some
            ==> {
            let after = w.impact(line, b).world;
            &&& after.fighters[b.target as int].cell == w.fighters[b.caster as int].cell
            &&& after.fighters[b.caster as int].cell == w.fighters[b.target as int].cell
        },
{
    reveal(World::impact);
    if line.effect is Kill && !w.fighters[b.target as int].is_dead() {
        let v = w.logged(
            crate::json::row(
                seq![crate::actions::KILL as int, b.target as int, b.target as int],
            ),
        );
        assert(v.wf());
        crate::harm::lemma_hurt_survived(
            v,
            b.target as int,
            w.fighters[b.target as int].life,
            0,
            Some(b.caster),
        );
    }
}

} // verus!
