//! How strong an effect is on a plain grid: the formulas from the values of
//! an effect and the characteristics of the entities to whole numbers.

use crate::number::Real;
use vstd::prelude::*;

verus! {

/// A number that 32 bits hold, and 0 for any other.
pub open spec fn small(v: i64) -> int {
    if i32::MIN <= v <= i32::MAX {
        v as int
    } else {
        0
    }
}

/// A number that 32 bits hold, and 0 for any other.
pub(crate) fn small_of(v: i64) -> (r: i64)
    ensures
        r == small(v),
{
    if v < -0x8000_0000 || v > 0x7fff_ffff {
        0
    } else {
        v
    }
}

/// The number between 0 and the greatest of 32 bits that is nearest.
pub open spec fn positive(v: i64) -> int {
    if v < 0 {
        0
    } else if v > i32::MAX {
        i32::MAX as int
    } else {
        v as int
    }
}

/// A characteristic as a factor: 1 and as many hundredths, not below 1.
#[verifier::opaque]
pub open spec fn factor(stat: i64) -> Real {
    crate::power::one().spec_add(
        crate::power::real_of(positive(stat)).spec_div(crate::power::real_of(100)),
    )
}

/// The nearest whole number that is not below 0.
#[verifier::opaque]
pub open spec fn rounded(v: Real) -> int {
    v.spec_round64()
}

/// A value that grows with one characteristic, and with the number of
/// targets.
#[verifier::opaque]
pub open spec fn grown(base: Real, stat: i64, critical: bool) -> Real {
    base.spec_mul(factor(stat)).spec_mul(crate::power::hit_factor(critical))
}

/// A value that grows with nothing but a critical hit.
#[verifier::opaque]
pub open spec fn plain(base: Real, critical: bool) -> Real {
    base.spec_mul(crate::power::hit_factor(critical))
}

/// A value for each target.
#[verifier::opaque]
pub open spec fn times(v: Real, count: i64) -> Real {
    v.spec_mul(crate::power::real_of(count as int))
}

/// A value that grows with the power of the caster.
#[verifier::opaque]
pub open spec fn powered(v: Real, power: i64) -> Real {
    v.spec_mul(factor(power))
}

/// A share, in hundredths, of the life of the caster.
#[verifier::opaque]
pub open spec fn life_part(base: Real, life: i64) -> Real {
    base.spec_div(crate::power::real_of(100)).spec_mul(crate::power::real_of(small(life)))
}

/// The damage that goes back, in hundredths.
#[verifier::opaque]
pub open spec fn sent_back(d: Real, share: i64) -> int {
    d.spec_mul(crate::power::real_of(small(share))).spec_div(
        crate::power::real_of(100),
    ).spec_round64()
}

/// What passes the shields.
#[verifier::opaque]
pub open spec fn passed(d: Real, relative: i64, absolute: i64) -> int {
    d.spec_sub(
        d.spec_mul(
            crate::power::real_of(small(relative)).spec_div(crate::power::real_of(100)),
        ).spec_add(crate::power::real_of(small(absolute))),
    ).spec_round64()
}

/// The part of the damage that wears off the total life.
#[verifier::opaque]
pub open spec fn worn_off(dealt: i64, poison: bool, critical: bool) -> int {
    crate::power::real_of(small(dealt)).spec_mul(
        crate::power::erosion_rate(poison, critical),
    ).spec_round64()
}

/// The life that the caster takes over, in thousandths.
#[verifier::opaque]
pub open spec fn taken_over(dealt: i64, wisdom: i64) -> int {
    crate::power::real_of(small(dealt)).spec_mul(crate::power::real_of(small(wisdom))).spec_div(
        crate::power::real_of(1000),
    ).spec_round64()
}

/// A value without its fraction.
#[verifier::opaque]
pub open spec fn cut_off(v: Real) -> int {
    crate::number::saturate64(v.spec_trunc())
}

/// What is left of a value after a share, in hundredths, is taken away; the
/// sign stays.
#[verifier::opaque]
pub open spec fn lessened(value: i64, share: i64) -> int {
    let left = crate::power::one().spec_sub(
        crate::power::real_of(small(share)).spec_div(crate::power::real_of(100)),
    ).spec_at_least_zero();
    let size = if value == i64::MIN {
        0
    } else {
        small(crate::map::abs(value as int) as i64)
    };
    crate::map::sign(value as int) * crate::power::real_of(size).spec_mul(left).spec_round64()
}

/// The total life of a revived entity.
#[verifier::opaque]
pub open spec fn halved(total: i64, critical: bool) -> int {
    crate::power::real_of(small(total)).spec_mul(crate::power::half()).spec_mul(
        crate::power::hit_factor(critical),
    ).spec_round64()
}

/// A random number as a part of 1.
pub open spec fn part_of_one(x: u64) -> Real {
    crate::number::nearest(false, (x / 2048) as nat, -53)
}

/// Whether a roll makes a critical hit: agility is in thousandths.
#[verifier::opaque]
pub open spec fn strikes_critically(jet: Real, agility: i64) -> bool {
    jet.spec_less(crate::power::real_of(small(agility)).spec_div(crate::power::real_of(1000)))
}

fn hundred() -> (r: Real)
    ensures
        r == crate::power::real_of(100),
        r.within(130),
        r.mant != 0,
{
    Real::from_int(100)
}

fn whole(v: i64) -> (r: Real)
    ensures
        r == crate::power::real_of(v as int),
        r.within(130),
{
    Real::from_int(v)
}

fn hit(critical: bool) -> (r: Real)
    ensures
        r == crate::power::hit_factor(critical),
        r.within(4),
{
    if critical {
        Real { neg: false, mant: 0x14_cccc_cccc_cccd, exp: -52 }
    } else {
        crate::power::full_power()
    }
}

fn factor_of(stat: i64) -> (r: Real)
    ensures
        r == factor(stat),
        r.within(500),
{
    reveal(factor);
    let s: i64 = if stat < 0 {
        0
    } else if stat > 0x7fff_ffff {
        0x7fff_ffff
    } else {
        stat
    };
    crate::power::full_power().plus(whole(s).over(hundred()))
}

pub(crate) fn rolled(v1: Real, v2: Real, jet: Real) -> (r: Real)
    requires
        v1.within(1200),
        v2.within(1200),
        jet.within(200),
    ensures
        r == crate::power::roll(v1, v2, jet),
        r.within(2000),
{
    v1.plus(jet.mul(v2))
}

pub(crate) fn rounded_of(v: Real) -> (r: i64)
    requires
        v.wf(),
    ensures
        r == rounded(v),
        r >= 0,
{
    reveal(rounded);
    v.round_i64()
}

pub(crate) fn grown_of(base: Real, stat: i64, critical: bool) -> (r: Real)
    requires
        base.within(2000),
    ensures
        r == grown(base, stat, critical),
        r.within(2600),
{
    reveal(grown);
    base.mul(factor_of(stat)).mul(hit(critical))
}

pub(crate) fn plain_of(base: Real, critical: bool) -> (r: Real)
    requires
        base.within(2000),
    ensures
        r == plain(base, critical),
        r.within(2600),
{
    reveal(plain);
    base.mul(hit(critical))
}

pub(crate) fn times_of(v: Real, count: i64) -> (r: Real)
    requires
        v.within(4000),
    ensures
        r == times(v, count),
        r.within(4200),
{
    reveal(times);
    v.mul(whole(count))
}

pub(crate) fn powered_of(v: Real, power: i64) -> (r: Real)
    requires
        v.within(2600),
    ensures
        r == powered(v, power),
        r.within(3200),
{
    reveal(powered);
    v.mul(factor_of(power))
}

pub(crate) fn life_part_of(base: Real, life: i64) -> (r: Real)
    requires
        base.within(2000),
    ensures
        r == life_part(base, life),
        r.within(2500),
{
    reveal(life_part);
    base.over(hundred()).mul(whole(small_of(life)))
}

pub(crate) fn hit_times_of(v: Real, critical: bool) -> (r: Real)
    requires
        v.within(2500),
    ensures
        r == plain(v, critical),
        r.within(2600),
{
    reveal(plain);
    v.mul(hit(critical))
}

pub(crate) fn sent_back_of(d: Real, share: i64) -> (r: i64)
    requires
        d.within(6000),
    ensures
        r == sent_back(d, share),
        r >= 0,
{
    reveal(sent_back);
    d.mul(whole(small_of(share))).over(hundred()).round_i64()
}

pub(crate) fn passed_of(d: Real, relative: i64, absolute: i64) -> (r: i64)
    requires
        d.within(6000),
    ensures
        r == passed(d, relative, absolute),
        r >= 0,
{
    reveal(passed);
    d.minus(
        d.mul(whole(small_of(relative)).over(hundred())).plus(whole(small_of(absolute))),
    ).round_i64()
}

pub(crate) fn worn_off_of(dealt: i64, poison: bool, critical: bool) -> (r: i64)
    ensures
        r == worn_off(dealt, poison, critical),
        r >= 0,
{
    reveal(worn_off);
    whole(small_of(dealt)).mul(crate::power::rate_of_erosion(poison, critical)).round_i64()
}

pub(crate) fn taken_over_of(dealt: i64, wisdom: i64) -> (r: i64)
    ensures
        r == taken_over(dealt, wisdom),
        r >= 0,
{
    reveal(taken_over);
    whole(small_of(dealt)).mul(whole(small_of(wisdom))).over(Real::from_int(1000)).round_i64()
}

pub(crate) fn cut_off_of(v: Real) -> (r: i64)
    requires
        v.wf(),
    ensures
        r == cut_off(v),
{
    reveal(cut_off);
    v.trunc_i64()
}

pub(crate) fn lessened_of(value: i64, share: i64) -> (r: i64)
    ensures
        r == lessened(value, share),
{
    reveal(lessened);
    let left: Real = crate::power::full_power().minus(
        whole(small_of(share)).over(hundred()),
    ).at_least_zero();
    let size: i64 = if value == -0x8000_0000_0000_0000 {
        0
    } else if value < 0 {
        small_of(-value)
    } else {
        small_of(value)
    };
    let n: i64 = whole(size).mul(left).round_i64();
    if value < 0 {
        -n
    } else if value == 0 {
        0
    } else {
        n
    }
}

pub(crate) fn halved_of(total: i64, critical: bool) -> (r: i64)
    ensures
        r == halved(total, critical),
        r >= 0,
{
    reveal(halved);
    whole(small_of(total)).mul(Real { neg: false, mant: 0x10_0000_0000_0000, exp: -53 }).mul(
        hit(critical),
    ).round_i64()
}

pub(crate) fn part_of(x: u64) -> (r: Real)
    ensures
        r == part_of_one(x),
        r.within(200),
{
    Real::from_fraction(x / 2048, 53)
}

pub(crate) fn is_critical_strike(jet: Real, agility: i64) -> (b: bool)
    requires
        jet.within(200),
    ensures
        b == strikes_critically(jet, agility),
{
    reveal(strikes_critically);
    jet.less(whole(small_of(agility)).over(Real::from_int(1000)))
}

} // verus!
