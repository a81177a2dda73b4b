//! How strong an attack is: the formulas from the values of an effect and the
//! characteristics of the fighters to whole numbers.

use crate::number::{java_round, Real};
use vstd::prelude::*;

verus! {

/// 1
pub open spec fn one() -> Real {
    Real { neg: false, mant: 0x10_0000_0000_0000, exp: (-52) as i32 }
}

/// 0.5
pub open spec fn half() -> Real {
    Real { neg: false, mant: 0x10_0000_0000_0000, exp: (-53) as i32 }
}

/// The double nearest to 0.2: what an attack loses with every cell of
/// distance.
pub open spec fn loss_per_cell() -> Real {
    Real { neg: false, mant: 0x19_9999_9999_999a, exp: (-55) as i32 }
}

/// The double nearest to 1.3: what a critical hit multiplies.
pub open spec fn critical_factor() -> Real {
    Real { neg: false, mant: 0x14_cccc_cccc_cccd, exp: (-52) as i32 }
}

/// The double nearest to 0.05: the part of direct damage that wears off the
/// total life.
pub open spec fn erosion_of_damage() -> Real {
    Real { neg: false, mant: 0x19_9999_9999_999a, exp: (-57) as i32 }
}

/// The double nearest to 0.1: the part of poison that wears off the total
/// life, and what a critical hit adds to that part.
pub open spec fn erosion_of_poison() -> Real {
    Real { neg: false, mant: 0x19_9999_9999_999a, exp: (-56) as i32 }
}

/// The double nearest to 1.2: what a critical hit multiplies in a summoned
/// fighter.
pub open spec fn summon_factor() -> Real {
    Real { neg: false, mant: 0x13_3333_3333_3333, exp: (-52) as i32 }
}

/// 1.3 for a critical hit, 1 otherwise.
pub open spec fn hit_factor(critical: bool) -> Real {
    if critical {
        critical_factor()
    } else {
        one()
    }
}

/// The part of the damage that wears off the total life.
pub open spec fn erosion_rate(poison: bool, critical: bool) -> Real {
    let base = if poison {
        erosion_of_poison()
    } else {
        erosion_of_damage()
    };
    if critical {
        base.spec_add(erosion_of_poison())
    } else {
        base
    }
}

pub open spec fn at_least(v: int, low: int) -> int {
    if v < low {
        low
    } else {
        v
    }
}

pub open spec fn at_most(v: int, high: int) -> int {
    if v > high {
        high
    } else {
        v
    }
}

pub open spec fn real_of(i: int) -> Real {
    crate::number::spec_int(i)
}

/// A characteristic as a factor: 1 and as many hundredths.
pub open spec fn percent(stat: int) -> Real {
    one().spec_add(real_of(stat).spec_div(real_of(100)))
}

/// What the attack has by chance: the first value, and a part of the second.
pub open spec fn roll(v1: Real, v2: Real, jet: Real) -> Real {
    v1.spec_add(jet.spec_mul(v2))
}

/// The part of the power that arrives at a distance.
#[verifier::opaque]
pub open spec fn spread(distance: int) -> Real {
    one().spec_sub(real_of(distance).spec_mul(loss_per_cell()))
}

/// A part of 65536, as a number below 1.
pub open spec fn chance(draw: int) -> Real {
    crate::number::nearest(false, draw as nat, -16)
}

/// Effects that grow with one characteristic.
#[verifier::opaque]
pub open spec fn scaled(
    v1: Real,
    v2: Real,
    jet: Real,
    stat: int,
    aoe: Real,
    critical: bool,
) -> int {
    roll(v1, v2, jet).spec_mul(percent(stat)).spec_mul(aoe).spec_mul(
        hit_factor(critical),
    ).spec_round32()
}

/// Healing: grows with wisdom and with the number of targets.
#[verifier::opaque]
pub open spec fn healing(
    v1: Real,
    v2: Real,
    jet: Real,
    wisdom: int,
    aoe: Real,
    critical: bool,
    count: int,
) -> int {
    roll(v1, v2, jet).spec_mul(percent(wisdom)).spec_mul(aoe).spec_mul(
        hit_factor(critical),
    ).spec_mul(real_of(count)).spec_round32()
}

/// Power that grows with a characteristic, not below 0, and with the power of
/// the caster.
#[verifier::opaque]
pub open spec fn boosted(
    v1: Real,
    v2: Real,
    jet: Real,
    stat: int,
    aoe: Real,
    critical: bool,
    power: int,
) -> Real {
    roll(v1, v2, jet).spec_mul(percent(at_least(stat, 0))).spec_mul(aoe).spec_mul(
        hit_factor(critical),
    ).spec_mul(percent(power))
}

/// Direct damage before any shield.
#[verifier::opaque]
pub open spec fn raw_damage(
    v1: Real,
    v2: Real,
    jet: Real,
    strength: int,
    aoe: Real,
    critical: bool,
    count: int,
    power: int,
) -> Real {
    roll(v1, v2, jet).spec_mul(percent(at_least(strength, 0))).spec_mul(aoe).spec_mul(
        hit_factor(critical),
    ).spec_mul(real_of(count)).spec_mul(percent(power))
}

/// Damage measured by the life of the caster, before any shield.
#[verifier::opaque]
pub open spec fn raw_life_damage(
    v1: Real,
    v2: Real,
    jet: Real,
    life: int,
    aoe: Real,
    critical: bool,
    power: int,
) -> Real {
    roll(v1, v2, jet).spec_div(real_of(100)).spec_mul(real_of(life)).spec_mul(aoe).spec_mul(
        hit_factor(critical),
    ).spec_mul(percent(power))
}

/// A share of the effects of a fighter, in hundredths.
#[verifier::opaque]
pub open spec fn debuff(
    v1: Real,
    v2: Real,
    jet: Real,
    aoe: Real,
    critical: bool,
    count: int,
) -> int {
    crate::rng::saturate32(
        roll(v1, v2, jet).spec_mul(aoe).spec_mul(hit_factor(critical)).spec_mul(
            real_of(count),
        ).spec_trunc(),
    )
}

/// Points that grow with the number of targets alone.
#[verifier::opaque]
pub open spec fn raw_points(v1: Real, v2: Real, jet: Real, critical: bool, count: int) -> int {
    roll(v1, v2, jet).spec_mul(real_of(count)).spec_mul(hit_factor(critical)).spec_round32()
}

/// Healing that grows with no characteristic.
#[verifier::opaque]
pub open spec fn raw_healing(
    v1: Real,
    v2: Real,
    jet: Real,
    aoe: Real,
    critical: bool,
    count: int,
) -> int {
    roll(v1, v2, jet).spec_mul(aoe).spec_mul(hit_factor(critical)).spec_mul(
        real_of(count),
    ).spec_round32()
}

/// The nearest whole number.
#[verifier::opaque]
pub open spec fn whole(d: Real) -> int {
    d.spec_round32()
}

/// The damage that goes back to the caster.
#[verifier::opaque]
pub open spec fn returned(d: Real, share: int) -> int {
    d.spec_mul(real_of(share)).spec_div(real_of(100)).spec_round32()
}

/// What passes the shields.
#[verifier::opaque]
pub open spec fn shielded(d: Real, relative: int, absolute: int) -> Real {
    d.spec_sub(
        d.spec_mul(real_of(relative).spec_div(real_of(100))).spec_add(real_of(absolute)),
    ).spec_at_least_zero()
}

/// The part of the damage that wears off the total life.
#[verifier::opaque]
pub open spec fn eroded(value: int, rate: Real) -> int {
    real_of(value).spec_mul(rate).spec_round32()
}

/// The part of the damage that the caster gets as life.
#[verifier::opaque]
pub open spec fn stolen(value: int, wisdom: int) -> int {
    real_of(value).spec_mul(real_of(wisdom)).spec_div(real_of(1000)).spec_round32()
}

/// What is left after a share, in hundredths, is taken away.
#[verifier::opaque]
pub open spec fn remainder(share: int) -> Real {
    one().spec_sub(real_of(share).spec_div(real_of(100))).spec_at_least_zero()
}

/// A value of which a part is left.
#[verifier::opaque]
pub open spec fn reduced(value: int, part: Real) -> int {
    real_of(value).spec_mul(part).spec_round32()
}

/// The life that keeps its share of the total when the total becomes
/// `total_after`.
#[verifier::opaque]
pub open spec fn kept_share(life: int, total: int, total_after: int) -> int {
    let share = if total > 0 {
        real_of(life).spec_div(real_of(total))
    } else {
        one()
    };
    real_of(total_after).spec_mul(share).spec_round32()
}

/// Half of a total life, more after a critical hit.
#[verifier::opaque]
pub open spec fn revived(total: int, critical: bool) -> int {
    real_of(total).spec_mul(half()).spec_mul(hit_factor(critical)).spec_round32()
}

/// A characteristic of a summoned fighter: between `min` and `max` by the
/// level of the summoner, out of 300.
#[verifier::opaque]
pub open spec fn summon_stat(min: i32, max: i32, level: int, critical: bool) -> int {
    let coeff = real_of(at_most(level, 300)).spec_div(real_of(300));
    let span = real_of(max.wrapping_sub(min) as int).spec_mul(coeff);
    let steps = if span.exp >= 0 {
        span
    } else {
        real_of(span.spec_floor())
    };
    let factor = if critical {
        summon_factor()
    } else {
        one()
    };
    crate::rng::saturate32(real_of(min as int).spec_add(steps).spec_mul(factor).spec_trunc())
}

/// Whether a draw makes a critical hit: agility is in thousandths.
#[verifier::opaque]
pub open spec fn hits_critically(draw: int, agility: int) -> bool {
    chance(draw).spec_less(real_of(agility).spec_div(real_of(1000)))
}

/// 1
pub(crate) fn exec_one() -> (r: Real)
    ensures
        r == one(),
        r.within(4),
{
    Real { neg: false, mant: 0x10_0000_0000_0000, exp: -52 }
}

/// 1.3 for a critical hit, 1 otherwise.
fn exec_hit_factor(critical: bool) -> (r: Real)
    ensures
        r == hit_factor(critical),
        r.within(4),
{
    if critical {
        Real { neg: false, mant: 0x14_cccc_cccc_cccd, exp: -52 }
    } else {
        exec_one()
    }
}

/// A whole number.
fn exec_real(i: i64) -> (r: Real)
    ensures
        r == real_of(i as int),
        r.within(130),
        r.mant == 0 <==> i == 0,
{
    Real::from_int(i)
}

/// A characteristic as a factor.
fn exec_percent(stat: i32) -> (r: Real)
    ensures
        r == percent(stat as int),
        r.within(500),
{
    exec_one().plus(exec_real(stat as i64).over(exec_real(100)))
}

/// What the attack has by chance.
fn exec_roll(v1: Real, v2: Real, jet: Real) -> (r: Real)
    requires
        v1.within(1200),
        v2.within(1200),
        jet.within(200),
    ensures
        r == roll(v1, v2, jet),
        r.within(2000),
{
    v1.plus(jet.mul(v2))
}

/// The part of the damage that wears off the total life.
pub(crate) fn rate_of_erosion(poison: bool, critical: bool) -> (r: Real)
    ensures
        r == erosion_rate(poison, critical),
        r.within(100),
{
    let base: Real = if poison {
        Real { neg: false, mant: 0x19_9999_9999_999a, exp: -56 }
    } else {
        Real { neg: false, mant: 0x19_9999_9999_999a, exp: -57 }
    };
    if critical {
        base.plus(Real { neg: false, mant: 0x19_9999_9999_999a, exp: -56 })
    } else {
        base
    }
}

/// A draw as a number below 1.
pub(crate) fn chance_of(draw: i64) -> (r: Real)
    requires
        0 <= draw <= 65536,
    ensures
        r == chance(draw as int),
        r.within(200),
{
    Real::from_fraction(draw as u64, 16)
}

/// The whole power.
pub(crate) fn full_power() -> (r: Real)
    ensures
        r == one(),
        r.within(200),
{
    exec_one()
}

/// The part of the power that arrives at a distance.
pub(crate) fn power_at(distance: i32) -> (r: Real)
    ensures
        r == spread(distance as int),
        r.within(200),
{
    reveal(spread);
    exec_one().minus(
        exec_real(distance as i64).mul(Real { neg: false, mant: 0x19_9999_9999_999a, exp: -55 }),
    )
}

pub(crate) fn scaled_value(
    v1: Real,
    v2: Real,
    jet: Real,
    stat: i32,
    aoe: Real,
    critical: bool,
) -> (r: i32)
    requires
        v1.within(1200),
        v2.within(1200),
        jet.within(200),
        aoe.within(200),
    ensures
        r == scaled(v1, v2, jet, stat as int, aoe, critical),
{
    reveal(scaled);
    java_round(
        exec_roll(v1, v2, jet).mul(exec_percent(stat)).mul(aoe).mul(exec_hit_factor(critical)),
    )
}

pub(crate) fn healing_value(
    v1: Real,
    v2: Real,
    jet: Real,
    wisdom: i32,
    aoe: Real,
    critical: bool,
    count: i32,
) -> (r: i32)
    requires
        v1.within(1200),
        v2.within(1200),
        jet.within(200),
        aoe.within(200),
    ensures
        r == healing(v1, v2, jet, wisdom as int, aoe, critical, count as int),
{
    reveal(healing);
    java_round(
        exec_roll(v1, v2, jet).mul(exec_percent(wisdom)).mul(aoe).mul(
            exec_hit_factor(critical),
        ).mul(exec_real(count as i64)),
    )
}

fn positive(v: i32) -> (r: i32)
    ensures
        r == at_least(v as int, 0),
{
    if v < 0 {
        0
    } else {
        v
    }
}

pub(crate) fn boosted_power(
    v1: Real,
    v2: Real,
    jet: Real,
    stat: i32,
    aoe: Real,
    critical: bool,
    power: i32,
) -> (r: Real)
    requires
        v1.within(1200),
        v2.within(1200),
        jet.within(200),
        aoe.within(200),
    ensures
        r == boosted(v1, v2, jet, stat as int, aoe, critical, power as int),
        r.within(10000),
{
    reveal(boosted);
    exec_roll(v1, v2, jet).mul(exec_percent(positive(stat))).mul(aoe).mul(
        exec_hit_factor(critical),
    ).mul(exec_percent(power))
}

pub(crate) fn damage_power(
    v1: Real,
    v2: Real,
    jet: Real,
    strength: i32,
    aoe: Real,
    critical: bool,
    count: i32,
    power: i32,
) -> (r: Real)
    requires
        v1.within(1200),
        v2.within(1200),
        jet.within(200),
        aoe.within(200),
    ensures
        r == raw_damage(
            v1,
            v2,
            jet,
            strength as int,
            aoe,
            critical,
            count as int,
            power as int,
        ),
        r.within(10000),
{
    reveal(raw_damage);
    exec_roll(v1, v2, jet).mul(exec_percent(positive(strength))).mul(aoe).mul(
        exec_hit_factor(critical),
    ).mul(exec_real(count as i64)).mul(exec_percent(power))
}

pub(crate) fn life_damage_power(
    v1: Real,
    v2: Real,
    jet: Real,
    life: i32,
    aoe: Real,
    critical: bool,
    power: i32,
) -> (r: Real)
    requires
        v1.within(1200),
        v2.within(1200),
        jet.within(200),
        aoe.within(200),
    ensures
        r == raw_life_damage(v1, v2, jet, life as int, aoe, critical, power as int),
        r.within(10000),
{
    reveal(raw_life_damage);
    exec_roll(v1, v2, jet).over(exec_real(100)).mul(exec_real(life as i64)).mul(aoe).mul(
        exec_hit_factor(critical),
    ).mul(exec_percent(power))
}

pub(crate) fn debuff_value(
    v1: Real,
    v2: Real,
    jet: Real,
    aoe: Real,
    critical: bool,
    count: i32,
) -> (r: i32)
    requires
        v1.within(1200),
        v2.within(1200),
        jet.within(200),
        aoe.within(200),
    ensures
        r == debuff(v1, v2, jet, aoe, critical, count as int),
{
    reveal(debuff);
    exec_roll(v1, v2, jet).mul(aoe).mul(exec_hit_factor(critical)).mul(
        exec_real(count as i64),
    ).trunc_i32()
}

pub(crate) fn raw_points_value(v1: Real, v2: Real, jet: Real, critical: bool, count: i32) -> (r:
    i32)
    requires
        v1.within(1200),
        v2.within(1200),
        jet.within(200),
    ensures
        r == raw_points(v1, v2, jet, critical, count as int),
{
    reveal(raw_points);
    java_round(
        exec_roll(v1, v2, jet).mul(exec_real(count as i64)).mul(exec_hit_factor(critical)),
    )
}

pub(crate) fn raw_healing_value(
    v1: Real,
    v2: Real,
    jet: Real,
    aoe: Real,
    critical: bool,
    count: i32,
) -> (r: i32)
    requires
        v1.within(1200),
        v2.within(1200),
        jet.within(200),
        aoe.within(200),
    ensures
        r == raw_healing(v1, v2, jet, aoe, critical, count as int),
{
    reveal(raw_healing);
    java_round(
        exec_roll(v1, v2, jet).mul(aoe).mul(exec_hit_factor(critical)).mul(
            exec_real(count as i64),
        ),
    )
}

pub(crate) fn whole_of(d: Real) -> (r: i32)
    requires
        d.wf(),
    ensures
        r == whole(d),
{
    reveal(whole);
    java_round(d)
}

pub(crate) fn returned_damage(d: Real, share: i32) -> (r: i32)
    requires
        d.within(10000),
    ensures
        r == returned(d, share as int),
{
    reveal(returned);
    java_round(d.mul(exec_real(share as i64)).over(exec_real(100)))
}

pub(crate) fn behind_shields(d: Real, relative: i32, absolute: i32) -> (r: Real)
    requires
        d.within(10000),
    ensures
        r == shielded(d, relative as int, absolute as int),
        r.within(30000),
{
    reveal(shielded);
    d.minus(
        d.mul(exec_real(relative as i64).over(exec_real(100))).plus(exec_real(absolute as i64)),
    ).at_least_zero()
}

pub(crate) fn erosion_of(value: i32, rate: Real) -> (r: i32)
    requires
        rate.within(100),
    ensures
        r == eroded(value as int, rate),
{
    reveal(eroded);
    java_round(exec_real(value as i64).mul(rate))
}

pub(crate) fn stolen_life(value: i32, wisdom: i32) -> (r: i32)
    ensures
        r == stolen(value as int, wisdom as int),
{
    reveal(stolen);
    java_round(exec_real(value as i64).mul(exec_real(wisdom as i64)).over(exec_real(1000)))
}

pub(crate) fn part_left(share: i32) -> (r: Real)
    ensures
        r == remainder(share as int),
        r.within(600),
{
    reveal(remainder);
    exec_one().minus(exec_real(share as i64).over(exec_real(100))).at_least_zero()
}

pub(crate) fn reduced_value(value: i64, part: Real) -> (r: i32)
    requires
        part.within(600),
    ensures
        r == reduced(value as int, part),
{
    reveal(reduced);
    java_round(exec_real(value).mul(part))
}

pub(crate) fn life_of_same_share(life: i32, total: i32, total_after: i32) -> (r: i32)
    ensures
        r == kept_share(life as int, total as int, total_after as int),
{
    reveal(kept_share);
    let share: Real = if total > 0 {
        exec_real(life as i64).over(exec_real(total as i64))
    } else {
        exec_one()
    };
    java_round(exec_real(total_after as i64).mul(share))
}

pub(crate) fn revived_total(total: i32, critical: bool) -> (r: i32)
    ensures
        r == revived(total as int, critical),
{
    reveal(revived);
    java_round(
        exec_real(total as i64).mul(
            Real { neg: false, mant: 0x10_0000_0000_0000, exp: -53 },
        ).mul(exec_hit_factor(critical)),
    )
}

pub(crate) fn summon_value(min: i32, max: i32, level: i32, critical: bool) -> (r: i32)
    ensures
        r == summon_stat(min, max, level as int, critical),
{
    reveal(summon_stat);
    let capped: i32 = if level > 300 {
        300
    } else {
        level
    };
    let coeff: Real = exec_real(capped as i64).over(exec_real(300));
    let span: Real = exec_real(max.wrapping_sub(min) as i64).mul(coeff);
    let steps: Real = span.floor();
    let factor: Real = if critical {
        Real { neg: false, mant: 0x13_3333_3333_3333, exp: -52 }
    } else {
        exec_one()
    };
    exec_real(min as i64).plus(steps).mul(factor).trunc_i32()
}

pub(crate) fn is_critical(draw: i64, agility: i32) -> (b: bool)
    requires
        0 <= draw <= 65536,
    ensures
        b == hits_critically(draw as int, agility as int),
{
    reveal(hits_critically);
    chance_of(draw).less(exec_real(agility as i64).over(exec_real(1000)))
}

} // verus!
