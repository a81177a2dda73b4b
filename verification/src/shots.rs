//! What the effects of weapons and chips come to on a plain grid: by which
//! characteristic of the caster each one grows, what shields leave of damage,
//! and how effects act and grow older.

use crate::assault::Shot;
use crate::effects::{ActiveEffect, EffectKind, Stat};
use crate::entity::EntityView;
use crate::fight::FightView;
use crate::number::Real;
use vstd::arithmetic::div_mod::*;
use vstd::arithmetic::power2::*;
use vstd::prelude::*;

verus! {

/// The nearest integer of a number that is not negative and near an amount of
/// units is the nearest to that amount.
proof fn lemma_round64_near(a: Real, x: int, den: int, size: int, k: int)
    requires
        a.within(k),
        0 <= k <= 40000,
        a.units() >= 0,
        den >= 1,
        (den * a.units() - x) * 0x400_0000_0000 <= size,
        (x - den * a.units()) * 0x400_0000_0000 <= size,
        x <= 0x10_0000_0000_0000 * (den * crate::measure::unit()),
        size <= 0x10_0000_0000_0000 * (den * crate::measure::unit()),
    ensures
        crate::measure::is_nearest(a.spec_round64(), x, den * crate::measure::unit(), size),
        0 <= a.spec_round64() <= 0x20_0000_0000_0000,
{
    let p = crate::measure::unit();
    lemma_pow2_pos(crate::measure::places());
    let u = a.units();
    let dp = den * p;
    assert(dp > 0) by (nonlinear_arith)
        requires
            dp == den * p,
            den >= 1,
            p > 0,
    ;
    crate::measure::lemma_sign_units(a);
    crate::measure::lemma_floor_units(a, k);
    lemma_fundamental_div_mod(u, p);
    lemma_div_pos_is_pos(u, p);
    let f = u / p;
    let up: int = if a.upper_half() {
        1
    } else {
        0
    };
    let r = f + up;
    let h = 2 * (r * p - u);
    assert(r * p == p * f + up * p) by (nonlinear_arith)
        requires
            r == f + up,
    ;
    assert(up * p == if a.upper_half() {
        p
    } else {
        0
    }) by (nonlinear_arith)
        requires
            up == if a.upper_half() {
                1int
            } else {
                0int
            },
    ;
    assert(-p <= h <= p);
    let du = den * u;
    let g = du - x;
    assert(du <= 0x10_0000_0000_1000 * dp);
    assert(u <= 0x10_0000_0000_1000 * p) by (nonlinear_arith)
        requires
            den * u <= 0x10_0000_0000_1000 * (den * p),
            den >= 1,
    ;
    assert(f <= 0x10_0000_0000_1000) by (nonlinear_arith)
        requires
            p * f <= 0x10_0000_0000_1000 * p,
            p > 0,
    ;
    if a.neg {
        assert(u == 0);
        assert(f == 0 && !a.upper_half());
    }
    assert(a.spec_round64() == r);
    let q = dp * r - x;
    assert(2 * q == den * h + 2 * g) by (nonlinear_arith)
        requires
            q == (den * p) * r - x,
            h == 2 * (r * p - u),
            g == den * u - x,
    ;
    assert(-dp <= den * h <= dp) by (nonlinear_arith)
        requires
            -p <= h <= p,
            dp == den * p,
            den >= 1,
    ;
}

/// The same of a number that is close to the amount.
proof fn lemma_round64_close(a: Real, x: int, den: int, t: int, k: int)
    requires
        a.within(k),
        0 <= k <= 40000,
        crate::measure::close(a, x, den, t),
        den >= 1,
        0 <= t <= 100,
        0 <= x <= 0x10_0000_0000_0000 * (den * crate::measure::unit()),
    ensures
        crate::measure::is_nearest(a.spec_round64(), x, den * crate::measure::unit(), x),
        0 <= a.spec_round64() <= 0x20_0000_0000_0000,
{
    let u = a.units();
    assert(t * x <= 100 * x) by (nonlinear_arith)
        requires
            t <= 100,
            x >= 0,
    ;
    assert(u >= 0) by {
        if u < 0 {
            assert(den * u < 0) by (nonlinear_arith)
                requires
                    u < 0,
                    den >= 1,
            ;
        }
    }
    lemma_round64_near(a, x, den, x, k);
}

/// The hundredths of a factor that grows with a characteristic: 100 and the
/// characteristic, where it is positive.
pub open spec fn gain(stat: Option<i64>) -> int {
    match stat {
        Some(v) => if v < 0 {
            100
        } else if v > i32::MAX {
            100 + i32::MAX
        } else {
            100 + v
        },
        None => 100,
    }
}

/// Whether a value is what a roll of `base` comes to that grows to `parts` of
/// `den`, in whole points.
pub open spec fn comes_to(value: int, base: Real, parts: int, den: int) -> bool {
    crate::measure::is_nearest(
        value,
        base.units() * parts,
        den * crate::measure::unit(),
        base.units() * parts,
    )
}

/// Whether a roll is an ordinary one: not negative, and below a million.
pub open spec fn ordinary(base: Real) -> bool {
    base.within(2000) && 0 <= base.units() <= 0x10_0000 * crate::measure::unit()
}

/// A roll that grows with a characteristic and a critical hit, before rounding.
proof fn lemma_grown(base: Real, stat: i64, critical: bool)
    requires
        base.within(2000),
    ensures
        ({
            let n = base.units() * gain(Some(stat)) * crate::formulas::hit_parts(critical);
            let g = crate::might::grown(base, stat, critical);
            crate::measure::close(g, n, 1000, 33) && g.within(2300)
        }),
{
    reveal(crate::might::grown);
    reveal(crate::might::factor);
    let x = base.units();
    let v = crate::might::positive(stat);
    crate::formulas::lemma_percent(v);
    crate::formulas::lemma_hit(critical);
    let f = crate::might::factor(stat);
    assert(f == crate::power::percent(v)) by {
        reveal(crate::power::percent);
    }
    assert(0 * crate::map::abs(x) == 0);
    crate::measure::lemma_mul_keeps_close(base, f, x, 100 + v, 1, 100, 0, 30, 2000, 200);
    let h = crate::formulas::hit_parts(critical);
    crate::measure::lemma_mul_keeps_close(
        base.spec_mul(f),
        crate::power::hit_factor(critical),
        x * (100 + v),
        h,
        100,
        10,
        31,
        1,
        2204,
        4,
    );
}

/// How much an ordinary roll comes to at most.
proof fn lemma_gain_bound(u: int, parts: int, den: int)
    requires
        0 <= u <= 0x10_0000 * crate::measure::unit(),
        0 <= parts <= 0x1_0000_0000 * den,
        den >= 1,
    ensures
        0 <= u * parts <= 0x10_0000_0000_0000 * (den * crate::measure::unit()),
{
    let p = crate::measure::unit();
    lemma_pow2_pos(crate::measure::places());
    assert(0 <= u * parts <= 0x10_0000_0000_0000 * (den * p)) by (nonlinear_arith)
        requires
            0 <= u <= 0x10_0000 * p,
            0 <= parts <= 0x1_0000_0000 * den,
            den >= 1,
            p > 0,
    ;
}

/// A roll that grows with one characteristic comes to 1 and as many hundredths
/// of it, and 1.3 times that after a critical hit.
proof fn lemma_grown_rounded(base: Real, stat: i64, critical: bool)
    requires
        ordinary(base),
    ensures
        comes_to(
            crate::might::rounded(crate::might::grown(base, stat, critical)),
            base,
            gain(Some(stat)) * crate::formulas::hit_parts(critical),
            1000,
        ),
        0 <= crate::might::rounded(crate::might::grown(base, stat, critical))
            <= 0x20_0000_0000_0000,
{
    reveal(crate::might::rounded);
    lemma_grown(base, stat, critical);
    let g = gain(Some(stat));
    let h = crate::formulas::hit_parts(critical);
    let u = base.units();
    assert(u * g * h == u * (g * h)) by (nonlinear_arith);
    lemma_gain_bound(u, g * h, 1000);
    lemma_round64_close(crate::might::grown(base, stat, critical), u * (g * h), 1000, 33, 2300);
}

/// Which characteristic of the caster the lasting effects grow with: shields
/// with resistance, buffs and the total life that novas give with science,
/// returned damage with agility, poison and shackles with magic, regeneration
/// and vitality with wisdom. Each comes to the roll, 1 and as many hundredths
/// of it as the characteristic, and 1.3 times that after a critical hit.
pub proof fn lemma_effects_grow_with_characteristics(f: FightView, s: Shot, base: Real)
    requires
        ordinary(base),
    ensures
        ({
            let v = f.effect_value(s, base) as int;
            let h = crate::formulas::hit_parts(s.critical);
            let kind = s.effect.kind;
            &&& kind is AbsoluteShield || kind is RelativeShield ==> comes_to(
                v,
                base,
                gain(f.stat(s.caster, Stat::Resistance)) * h,
                1000,
            )
            &&& kind is Buff || kind is NovaVitality ==> comes_to(
                v,
                base,
                gain(f.stat(s.caster, Stat::Science)) * h,
                1000,
            )
            &&& kind is DamageReturn ==> comes_to(
                v,
                base,
                gain(f.stat(s.caster, Stat::Agility)) * h,
                1000,
            )
            &&& kind is Poison || kind is Shackle ==> comes_to(
                v,
                base,
                gain(f.stat(s.caster, Stat::Magic)) * h,
                1000,
            )
            &&& kind is Regeneration || kind is Vitality ==> comes_to(
                v,
                base,
                gain(f.stat(s.caster, Stat::Wisdom)) * h,
                1000,
            )
        }),
{
    lemma_grown_rounded(
        base,
        crate::assault::or_none(f.stat(s.caster, Stat::Resistance)),
        s.critical,
    );
    lemma_grown_rounded(
        base,
        crate::assault::or_none(f.stat(s.caster, Stat::Science)),
        s.critical,
    );
    lemma_grown_rounded(
        base,
        crate::assault::or_none(f.stat(s.caster, Stat::Agility)),
        s.critical,
    );
    lemma_grown_rounded(
        base,
        crate::assault::or_none(f.stat(s.caster, Stat::Magic)),
        s.critical,
    );
    lemma_grown_rounded(
        base,
        crate::assault::or_none(f.stat(s.caster, Stat::Wisdom)),
        s.critical,
    );
}

/// Parts of a number and of its unit may be counted in units or in wholes.
proof fn lemma_nearest_in_wholes(r: int, n: int, den: int, size: int)
    requires
        crate::measure::is_nearest(
            r,
            n * crate::measure::unit(),
            den * crate::measure::unit(),
            size * crate::measure::unit(),
        ),
    ensures
        crate::measure::is_nearest(r, n, den, size),
{
    let p = crate::measure::unit();
    lemma_pow2_pos(crate::measure::places());
    assert((den * p) * r - n * p == (den * r - n) * p) by (nonlinear_arith);
    let e = den * r - n;
    let b = den * 0x100_0000_0000 + size;
    assert((den * p) * 0x100_0000_0000 + size * p == b * p) by (nonlinear_arith)
        requires
            b == den * 0x100_0000_0000 + size,
    ;
    assert(2 * e * 0x100_0000_0000 <= b && -2 * e * 0x100_0000_0000 <= b) by (nonlinear_arith)
        requires
            2 * (e * p) * 0x100_0000_0000 <= b * p,
            -2 * (e * p) * 0x100_0000_0000 <= b * p,
            p > 0,
    ;
}

/// The rounding of what is close to a fraction.
proof fn lemma_round64_fraction(a: Real, n: int, den: int, t: int, k: int)
    requires
        a.within(k),
        0 <= k <= 40000,
        crate::measure::close(a, n * crate::measure::unit(), den, t),
        den >= 1,
        0 <= t <= 100,
        0 <= n <= 0x10_0000_0000_0000 * den,
    ensures
        crate::measure::is_nearest(a.spec_round64(), n, den, n),
        0 <= a.spec_round64() <= 0x20_0000_0000_0000,
{
    let p = crate::measure::unit();
    lemma_pow2_pos(crate::measure::places());
    assert(0 <= n * p <= 0x10_0000_0000_0000 * (den * p)) by (nonlinear_arith)
        requires
            0 <= n <= 0x10_0000_0000_0000 * den,
            p > 0,
    ;
    lemma_round64_close(a, n * p, den, t, k);
    lemma_nearest_in_wholes(a.spec_round64(), n, den, n);
}

/// Whether so many points of total life wear off with damage: 5 hundredths of
/// it, 10 of poison, and 10 more after a critical hit.
pub open spec fn wears_off(worn: int, dealt: int, poison: bool, critical: bool) -> bool {
    let rate: int = (if poison {
        10int
    } else {
        5
    }) + if critical {
        10int
    } else {
        0
    };
    crate::measure::is_nearest(worn, dealt * rate, 100, dealt * rate)
}

/// Damage and poison wear off total life by that rule.
pub proof fn lemma_wear(dealt: i64, poison: bool, critical: bool)
    requires
        0 <= dealt <= i32::MAX,
    ensures
        wears_off(
            crate::might::worn_off(dealt, poison, critical),
            dealt as int,
            poison,
            critical,
        ),
        0 <= crate::might::worn_off(dealt, poison, critical) <= 0x20_0000_0000_0000,
{
    reveal(crate::might::worn_off);
    let p = crate::measure::unit();
    let rate: int = (if poison {
        10int
    } else {
        5
    }) + if critical {
        10int
    } else {
        0
    };
    let d = dealt as int;
    crate::formulas::lemma_whole(d);
    crate::formulas::lemma_erosion_rate(poison, critical);
    let r = crate::power::erosion_rate(poison, critical);
    let a = crate::power::real_of(d);
    crate::measure::lemma_mul_keeps_close(a, r, d * p, rate, 1, 100, 0, 3, 64, 80);
    let n = d * rate;
    assert((d * p) * rate == n * p) by (nonlinear_arith)
        requires
            n == d * rate,
    ;
    assert(0 <= n <= 0x10_0000_0000_0000 * 100) by (nonlinear_arith)
        requires
            n == d * rate,
            0 <= d <= 0x7fff_ffff,
            0 <= rate <= 20,
    ;
    lemma_round64_fraction(a.spec_mul(r), n, 100, 4, 200);
}

/// Direct damage gives the caster as many thousandths of it as life as the
/// caster has wisdom.
pub proof fn lemma_taken_over(dealt: i64, wisdom: i64)
    requires
        0 <= dealt <= i32::MAX,
        0 <= wisdom <= 0x10_0000,
    ensures
        crate::measure::is_nearest(
            crate::might::taken_over(dealt, wisdom),
            dealt * wisdom,
            1000,
            dealt * wisdom,
        ),
{
    reveal(crate::might::taken_over);
    let p = crate::measure::unit();
    let d = dealt as int;
    let w = wisdom as int;
    crate::formulas::lemma_whole(d);
    crate::formulas::lemma_whole(w);
    let a = crate::power::real_of(d);
    let b = crate::power::real_of(w);
    crate::measure::lemma_mul_keeps_close(a, b, d * p, w, 1, 1, 0, 0, 64, 64);
    let n = d * w;
    assert((d * p) * w == n * p) by (nonlinear_arith)
        requires
            n == d * w,
    ;
    crate::measure::lemma_div_keeps_close(a.spec_mul(b), 1000, n * p, 1, 1, 132);
    assert(0 <= n <= 0x10_0000_0000_0000 * 1000) by (nonlinear_arith)
        requires
            n == d * w,
            0 <= d <= 0x7fff_ffff,
            0 <= w <= 0x10_0000,
    ;
    lemma_round64_fraction(a.spec_mul(b).spec_div(crate::power::real_of(1000)), n, 1000, 2, 300);
}

/// The total life of who is brought back: half of the one before, or 1.3 times
/// that after a critical hit.
pub proof fn lemma_halved(total: i64, critical: bool)
    requires
        0 <= total <= i32::MAX,
    ensures
        crate::measure::is_nearest(
            crate::might::halved(total, critical),
            total * crate::formulas::hit_parts(critical),
            20,
            total * crate::formulas::hit_parts(critical),
        ),
        0 <= crate::might::halved(total, critical) <= 0x20_0000_0000_0000,
{
    reveal(crate::might::halved);
    let p = crate::measure::unit();
    lemma2_to64();
    lemma2_to64_rest();
    let d = total as int;
    crate::formulas::lemma_whole(d);
    crate::formulas::lemma_hit(critical);
    let a = crate::power::real_of(d);
    let b = crate::power::half();
    crate::formulas::lemma_constant(b, 53, 1, 2);
    crate::measure::lemma_mul_keeps_close(a, b, d * p, 1, 1, 2, 0, 1, 64, 4);
    let h = crate::formulas::hit_parts(critical);
    let c = crate::power::hit_factor(critical);
    crate::measure::lemma_mul_keeps_close(a.spec_mul(b), c, (d * p) * 1, h, 2, 10, 2, 1, 72, 4);
    let n = d * h;
    assert(((d * p) * 1) * h == n * p) by (nonlinear_arith)
        requires
            n == d * h,
    ;
    assert(0 <= n <= 0x10_0000_0000_0000 * 20) by (nonlinear_arith)
        requires
            n == d * h,
            0 <= d <= 0x7fff_ffff,
            10 <= h <= 13,
    ;
    lemma_round64_fraction(a.spec_mul(b).spec_mul(c), n, 20, 4, 100);
}

/// Whether shields leave so many points of an amount of units, of which `den`
/// make one: the relative one takes as many hundredths, the absolute one as
/// many points, and nothing less than nothing is left.
pub open spec fn shields_leave(felt: int, x: int, den: int, relative: int, absolute: int) -> bool {
    let whole = 100 * den * crate::measure::unit();
    let left = x * (100 - relative) - absolute * whole;
    crate::measure::is_nearest(
        felt,
        if left < 0 {
            0
        } else {
            left
        },
        whole,
        x * (100 + crate::map::abs(relative)) + crate::map::abs(absolute) * whole,
    )
}

/// Damage passes the shields of its target by that rule.
pub proof fn lemma_shields(d: Real, x: int, den: int, t: int, relative: i64, absolute: i64)
    requires
        d.within(6000),
        crate::measure::close(d, x, den, t),
        den >= 1,
        0 <= t <= 100,
        0 <= x <= 0x1000_0000 * (den * crate::measure::unit()),
        -0x4000_0000 <= relative <= 0x4000_0000,
        -0x4000_0000 <= absolute <= 0x4000_0000,
    ensures
        shields_leave(
            crate::might::passed(d, relative, absolute),
            x,
            den,
            relative as int,
            absolute as int,
        ),
        0 <= crate::might::passed(d, relative, absolute) <= 0x20_0000_0000_0000,
{
    reveal(crate::might::passed);
    reveal(crate::power::shielded);
    let p = crate::measure::unit();
    lemma_pow2_pos(crate::measure::places());
    let rel = relative as int;
    let abs = absolute as int;
    crate::formulas::lemma_shielded_close(d, x, den, t, rel, abs, 6000);
    let r = crate::power::shielded(d, rel, abs);
    let q = 100 * den;
    let whole = 100 * den * p;
    let left = x * (100 - rel) - abs * whole;
    let ar = crate::map::abs(rel);
    let aa = crate::map::abs(abs);
    let size = x * (100 + ar) + aa * whole;
    let felt = if left < 0 {
        0
    } else {
        left
    };
    assert(q * p == whole);
    let dp = den * p;
    assert(whole == 100 * dp) by (nonlinear_arith)
        requires
            whole == 100 * den * p,
            dp == den * p,
    ;
    assert(dp > 0) by (nonlinear_arith)
        requires
            dp == den * p,
            den >= 1,
            p > 0,
    ;
    assert(x * (100 + ar) <= 0x400_0006_4000_0000int * dp) by (nonlinear_arith)
        requires
            0 <= x <= 0x1000_0000 * dp,
            0 <= ar <= 0x4000_0000,
    ;
    assert(0 <= aa * whole <= 0x4000_0000 * whole) by (nonlinear_arith)
        requires
            0 <= aa <= 0x4000_0000,
            whole > 0,
    ;
    assert(size <= 0x10_0000_0000_0000 * whole);
    assert(left <= size) by {
        assert(x * (100 - rel) <= x * (100 + ar)) by (nonlinear_arith)
            requires
                x >= 0,
                -rel <= ar,
        ;
        assert(-(abs * whole) <= aa * whole) by (nonlinear_arith)
            requires
                -abs <= aa,
                whole > 0,
        ;
    }
    assert(x * (100 + ar) >= 0) by (nonlinear_arith)
        requires
            x >= 0,
            ar >= 0,
    ;
    lemma_round64_near(r, felt, q, size, 12500);
    let o = d.spec_sub(
        d.spec_mul(crate::power::real_of(rel).spec_div(crate::power::real_of(100))).spec_add(
            crate::power::real_of(abs),
        ),
    );
    assert(r == o.spec_at_least_zero());
    if o.neg {
        lemma2_to64();
        assert(r.units() == 0 || r.spec_round64() == 0);
    }
    assert(r.spec_round64() == o.spec_round64());
}

/// Direct damage before any shield grows with strength, with power, with a
/// critical hit, and with the number of targets.
proof fn lemma_strength(f: FightView, s: Shot, base: Real)
    requires
        base.within(2000),
        0 <= s.count <= 0x1000,
    ensures
        ({
            let x = base.units() * gain(f.stat(s.caster, Stat::Strength))
                * crate::formulas::hit_parts(s.critical) * gain(f.stat(s.caster, Stat::Power))
                * s.count;
            crate::measure::close(f.strength_damage(s, base), x, 100000, 65)
        }),
        f.strength_damage(s, base).within(6000),
{
    reveal(crate::might::powered);
    reveal(crate::might::times);
    reveal(crate::might::factor);
    let strength = crate::assault::or_none(f.stat(s.caster, Stat::Strength));
    let power = crate::assault::or_none(f.stat(s.caster, Stat::Power));
    lemma_grown(base, strength, s.critical);
    let g = crate::might::grown(base, strength, s.critical);
    let n = base.units() * gain(Some(strength)) * crate::formulas::hit_parts(s.critical);
    let v = crate::might::positive(power);
    crate::formulas::lemma_percent(v);
    let c = crate::might::factor(power);
    assert(c == crate::power::percent(v));
    crate::measure::lemma_mul_keeps_close(g, c, n, 100 + v, 1000, 100, 33, 30, 2300, 200);
    crate::formulas::lemma_whole(s.count as int);
    crate::measure::lemma_mul_keeps_close(
        g.spec_mul(c),
        crate::power::real_of(s.count as int),
        n * (100 + v),
        s.count as int,
        100000,
        1,
        64,
        0,
        2504,
        64,
    );
}

/// Direct damage on another entity that sends nothing back: the roll grows
/// with strength, power, a critical hit and the number of targets; the shields
/// of the target take their share and their points; the target loses what is
/// left of it in life, or all its life, and 5 hundredths of that in total life,
/// 15 after a critical hit; nothing else of it changes.
pub proof fn lemma_direct_shot(f: FightView, s: Shot, base: Real, e: EntityView)
    requires
        ordinary(base),
        s.effect.kind is Damage,
        s.caster != s.target,
        0 <= s.count <= 0x1000,
        f.entity(s.target) == Some(e),
        0 <= e.life <= e.max_life <= i32::MAX,
        f.damage_return(s.target) == Some(0i64),
        -0x4000_0000 <= f.relative_shield(s.target) <= 0x4000_0000,
        -0x4000_0000 <= f.absolute_shield(s.target) <= 0x4000_0000,
        base.units() * gain(f.stat(s.caster, Stat::Strength)) * crate::formulas::hit_parts(
            s.critical,
        ) * gain(f.stat(s.caster, Stat::Power)) * s.count <= 0x1000_0000 * (100000
            * crate::measure::unit()),
    ensures
        ({
            let x = base.units() * gain(f.stat(s.caster, Stat::Strength))
                * crate::formulas::hit_parts(s.critical) * gain(f.stat(s.caster, Stat::Power))
                * s.count;
            let relative = f.relative_shield(s.target) as int;
            let absolute = f.absolute_shield(s.target) as int;
            let v = f.effect_value(s, base);
            let after = f.effect_done(s, base, v).entity(s.target);
            &&& exists|felt: int|
                {
                    &&& #[trigger] shields_leave(felt, x, 100000, relative, absolute)
                    &&& v == if felt < e.life {
                        felt
                    } else {
                        e.life as int
                    }
                }
            &&& exists|worn: int|
                {
                    &&& #[trigger] wears_off(worn, v as int, false, s.critical)
                    &&& after matches Some(a) && a.max_life == (if worn < e.max_life {
                        e.max_life - worn
                    } else {
                        0
                    }) && a.life == (if e.life - v < a.max_life {
                        e.life - v
                    } else {
                        a.max_life as int
                    }) && a == EntityView { life: a.life, max_life: a.max_life, ..e }
                }
        }),
{
    reveal(FightView::shot_damage);
    reveal(FightView::shot_value);
    reveal(crate::might::sent_back);
    lemma_strength(f, s, base);
    let d = f.strength_damage(s, base);
    let relative = f.relative_shield(s.target);
    let absolute = f.absolute_shield(s.target);
    let st = gain(f.stat(s.caster, Stat::Strength));
    let h = crate::formulas::hit_parts(s.critical);
    let po = gain(f.stat(s.caster, Stat::Power));
    let u = base.units();
    let x = u * st * h * po * s.count;
    assert(x >= 0) by (nonlinear_arith)
        requires
            x == u * st * h * po * s.count,
            u >= 0,
            st >= 0,
            h >= 0,
            po >= 0,
            s.count >= 0,
    {
        assert(u * st >= 0);
        assert(u * st * h >= 0);
        assert(u * st * h * po >= 0);
    }
    lemma_shields(d, x, 100000, 65, relative, absolute);
    let felt = crate::might::passed(d, relative, absolute);
    let v = f.effect_value(s, base);
    lemma_wear(v, false, s.critical);
    let worn = crate::might::worn_off(v, false, s.critical);
    lemma_nothing_back(d, 6000);
    lemma_first_keeps(f, s.target);
    let hit = e.damaged(felt as i64);
    f.lemma_changed(s.target, hit);
    let f1 = f.changed(s.target, hit);
    let w = hit.worn(worn as i64);
    f1.lemma_changed(s.target, w);
    let f2 = f1.changed(s.target, w);
    let stolen = crate::might::taken_over(
        v,
        crate::assault::or_none(f2.stat(s.caster, Stat::Wisdom)),
    ) as i64;
    if let Some(c) = f2.entity(s.caster) {
        crate::fight::lemma_first(f2.entities, s.caster);
        f2.lemma_changed(s.caster, c.healed(stolen));
    }
}

proof fn lemma_first_keeps(f: FightView, id: i64)
    ensures
        f.entity(id) matches Some(e) ==> e.id == id,
{
    crate::fight::lemma_first(f.entities, id);
}

/// Nothing of damage goes back to the caster where the target returns nothing.
proof fn lemma_nothing_back(d: Real, k: int)
    requires
        d.within(k),
        0 <= k <= 20000,
    ensures
        crate::might::sent_back(d, 0) == 0,
{
    reveal(crate::might::sent_back);
    let p = crate::measure::unit();
    lemma_pow2_pos(crate::measure::places());
    crate::formulas::lemma_whole(0);
    let u = d.units();
    assert(0 * crate::map::abs(u) == 0);
    crate::measure::lemma_mul_keeps_close(
        d,
        crate::power::real_of(0),
        u,
        0,
        1,
        1,
        0,
        0,
        k,
        64,
    );
    let m = d.spec_mul(crate::power::real_of(0));
    assert(u * 0 == 0);
    crate::measure::lemma_div_keeps_close(m, 100, 0, 1, 1, k + 68);
    assert(0 * p == 0) by (nonlinear_arith);
    lemma_round64_fraction(m.spec_div(crate::power::real_of(100)), 0, 100, 2, k + 136);
    crate::measure::lemma_nearest_whole(crate::might::sent_back(d, 0), 0, 100, 0, 0);
}

/// At the end of a round poison takes its points of life and a tenth of them
/// of the total life, regeneration gives its points of life, and the life
/// stays within 0 and the total; the effects grow older, and nothing else of
/// the entity changes.
pub proof fn lemma_effects_act(e: EntityView)
    requires
        0 <= e.life <= e.max_life <= i32::MAX,
        0 <= crate::entity::sum_of(e.effects, EffectKind::Poison) <= i32::MAX,
        0 <= crate::entity::sum_of(e.effects, EffectKind::Regeneration) <= i32::MAX,
    ensures
        ({
            let poison = crate::entity::sum_of(e.effects, EffectKind::Poison);
            let cure = crate::entity::sum_of(e.effects, EffectKind::Regeneration);
            let a = e.effects_ticked();
            let left = if poison < e.life {
                e.life - poison
            } else {
                0
            };
            &&& exists|worn: int|
                {
                    &&& #[trigger] wears_off(worn, poison as int, true, false)
                    &&& a.max_life == if worn < e.max_life {
                        e.max_life - worn
                    } else {
                        0
                    }
                }
            &&& a.life == if left + cure < a.max_life {
                left + cure
            } else {
                a.max_life as int
            }
            &&& a == EntityView {
                life: a.life,
                max_life: a.max_life,
                effects: crate::entity::aged(e.effects),
                ..e
            }
        }),
{
    let poison = crate::entity::sum_of(e.effects, EffectKind::Poison);
    lemma_wear(poison, true, false);
    let worn = crate::might::worn_off(poison, true, false);
    if poison == 0 {
        crate::measure::lemma_nearest_whole(worn, 0, 100, 0, 0);
    }
}

/// What the effects of a kind come to together grows by each of them.
pub proof fn lemma_effects_add_up(effects: Seq<ActiveEffect>, e: ActiveEffect, kind: EffectKind)
    requires
        i64::MIN <= crate::entity::sum_of(effects, kind) + e.value <= i64::MAX,
    ensures
        crate::entity::sum_of(Seq::empty(), kind) == 0,
        crate::entity::sum_of(effects.push(e), kind) == crate::entity::sum_of(effects, kind)
            + if e.kind == kind {
            e.value as int
        } else {
            0
        },
{
    assert(effects.push(e).drop_last() =~= effects);
}

/// What a shot lays on a target without effects: shields, poison,
/// regeneration and buffs of what the shot came to; shackles and
/// vulnerabilities as buffs and shields below 0; healing that lasts as
/// regeneration. The effect bears the turns of the shot, its item and its
/// caster.
pub proof fn lemma_shot_lays(f: FightView, s: Shot, base: Real, v: i64, e: EntityView)
    requires
        f.entity(s.target) == Some(e),
        e.effects.len() == 0,
        s.effect.turns > 0,
        v > 0,
    ensures
        ({
            let kind = s.effect.kind;
            let after = f.effect_done(s, base, v).entity(s.target);
            let lays = |k: EffectKind, value: int|
                after matches Some(a) && a.effects == seq![
                    ActiveEffect {
                        kind: k,
                        value: value as i64,
                        turns: s.effect.turns,
                        item: s.item,
                        caster: s.caster,
                        modifiers: s.effect.modifiers,
                    },
                ];
            &&& kind is Poison ==> lays(EffectKind::Poison, v as int)
            &&& kind is AbsoluteShield || kind is RawAbsoluteShield ==> lays(
                EffectKind::AbsoluteShield,
                v as int,
            )
            &&& kind is RelativeShield || kind is RawRelativeShield ==> lays(
                EffectKind::RelativeShield,
                v as int,
            )
            &&& kind is Heal || kind is RawHeal || kind is Regeneration ==> lays(
                EffectKind::Regeneration,
                v as int,
            )
            &&& kind is DamageReturn ==> lays(EffectKind::DamageReturn, v as int)
            &&& forall|stat: Stat|
                kind == EffectKind::Buff(stat) || kind == EffectKind::RawBuff(stat)
                    ==> #[trigger] lays(EffectKind::Buff(stat), v as int)
            &&& forall|stat: Stat|
                kind == EffectKind::Shackle(stat) ==> #[trigger] lays(
                    EffectKind::Buff(stat),
                    -v,
                )
            &&& kind == EffectKind::Vulnerability { absolute: true } ==> lays(
                EffectKind::AbsoluteShield,
                -v,
            )
            &&& kind == EffectKind::Vulnerability { absolute: false } ==> lays(
                EffectKind::RelativeShield,
                -v,
            )
        }),
{
    lemma_first_keeps(f, s.target);
    assert forall|kind: EffectKind, value: i64| value != 0 implies {
        &&& (#[trigger] f.lasting(s, kind, value)).entity(s.target) matches Some(a)
        &&& a.effects == seq![
            ActiveEffect {
                kind,
                value,
                turns: s.effect.turns,
                item: s.item,
                caster: s.caster,
                modifiers: s.effect.modifiers,
            },
        ]
    } by {
        let x = ActiveEffect {
            kind,
            value,
            turns: s.effect.turns,
            item: s.item,
            caster: s.caster,
            modifiers: s.effect.modifiers,
        };
        f.lemma_changed(s.target, e.affected(x));
        assert(e.effects.push(x) =~= seq![x]);
    }
}

/// Healing at once gives its points of life, up to the total.
pub proof fn lemma_shot_heals(f: FightView, s: Shot, base: Real, v: i64, e: EntityView)
    requires
        s.effect.kind is Heal || s.effect.kind is RawHeal,
        f.entity(s.target) == Some(e),
        s.effect.turns <= 0,
        0 <= e.life <= e.max_life,
        0 <= v <= i64::MAX - e.life,
    ensures
        f.effect_done(s, base, v).entity(s.target) == Some(
            EntityView {
                life: (if e.life + v < e.max_life {
                    e.life + v
                } else {
                    e.max_life as int
                }) as i64,
                ..e
            },
        ),
{
    lemma_first_keeps(f, s.target);
    f.lemma_changed(s.target, e.healed(v));
}

/// A heal grows with wisdom, a critical hit and the number of targets.
pub proof fn lemma_heal_value(f: FightView, s: Shot, base: Real)
    requires
        ordinary(base),
        s.effect.kind is Heal,
        0 <= s.count <= 0x40,
    ensures
        comes_to(
            f.effect_value(s, base) as int,
            base,
            gain(f.stat(s.caster, Stat::Wisdom)) * crate::formulas::hit_parts(s.critical)
                * s.count,
            1000,
        ),
{
    reveal(crate::might::times);
    reveal(crate::might::rounded);
    let wisdom = crate::assault::or_none(f.stat(s.caster, Stat::Wisdom));
    lemma_grown(base, wisdom, s.critical);
    let g = crate::might::grown(base, wisdom, s.critical);
    let u = base.units();
    let w = gain(Some(wisdom));
    let h = crate::formulas::hit_parts(s.critical);
    let c = s.count as int;
    crate::formulas::lemma_whole(c);
    crate::measure::lemma_mul_keeps_close(
        g,
        crate::power::real_of(c),
        u * w * h,
        c,
        1000,
        1,
        33,
        0,
        2300,
        64,
    );
    assert(u * w * h * c == u * (w * h * c)) by (nonlinear_arith);
    assert(0 <= w * h * c <= 0x1_0000_0000 * 1000) by (nonlinear_arith)
        requires
            0 <= w <= 0x8000_0100,
            10 <= h <= 13,
            0 <= c <= 0x40,
    {
        assert(0 <= w * h <= 0x8000_0100 * 13);
    }
    lemma_gain_bound(u, w * h * c, 1000);
    lemma_round64_close(g.spec_mul(crate::power::real_of(c)), u * (w * h * c), 1000, 34, 2400);
}

/// Raw shields and vulnerabilities grow with nothing but a critical hit.
pub proof fn lemma_raw_shields(f: FightView, s: Shot, base: Real)
    requires
        ordinary(base),
        s.effect.kind is RawAbsoluteShield || s.effect.kind is RawRelativeShield
            || s.effect.kind is Vulnerability,
    ensures
        comes_to(
            f.effect_value(s, base) as int,
            base,
            crate::formulas::hit_parts(s.critical),
            10,
        ),
{
    reveal(crate::might::plain);
    reveal(crate::might::rounded);
    let u = base.units();
    let h = crate::formulas::hit_parts(s.critical);
    crate::formulas::lemma_hit(s.critical);
    assert(0 * crate::map::abs(u) == 0);
    crate::measure::lemma_mul_keeps_close(
        base,
        crate::power::hit_factor(s.critical),
        u,
        h,
        1,
        10,
        0,
        1,
        2000,
        4,
    );
    lemma_gain_bound(u, h, 10);
    lemma_round64_close(
        base.spec_mul(crate::power::hit_factor(s.critical)),
        u * h,
        10,
        2,
        2100,
    );
}

/// A roll is a part of 1 out of 2 to the power of 53. It makes a critical hit
/// when it is a smaller part than agility is of 1000, but for the last few of
/// those parts.
pub proof fn lemma_critical_shots(x: u64, agility: i64)
    requires
        i32::MIN <= agility <= i32::MAX,
    ensures
        ({
            let n = x as int / 2048;
            let critical = crate::might::strikes_critically(
                crate::might::part_of_one(x),
                agility,
            );
            &&& 1000 * n + 8 * agility < 0x20_0000_0000_0000 * agility ==> critical
            &&& agility >= 0 && 1000 * n > 0x20_0000_0000_0000 * agility + 8 * agility ==> !critical
            &&& agility <= 0 ==> !critical
        }),
{
    reveal(crate::might::strikes_critically);
    let p = crate::measure::unit();
    lemma_pow2_pos(crate::measure::places());
    lemma2_to64();
    lemma2_to64_rest();
    let w = pow2((crate::measure::places() - 53) as nat);
    lemma_pow2_pos((crate::measure::places() - 53) as nat);
    lemma_pow2_adds(53, (crate::measure::places() - 53) as nat);
    assert(p == 0x20_0000_0000_0000 * w);
    let n = x as int / 2048;
    let ag = agility as int;
    assert(0 <= n < 0x20_0000_0000_0000);
    let jet = crate::might::part_of_one(x);
    crate::measure::lemma_nearest_units(false, n as nat, -53, 1);
    crate::measure::lemma_rounded_exact(n, (crate::measure::places() - 53) as nat);
    assert(jet.units() == n * w);
    crate::formulas::lemma_whole(ag);
    let a = crate::power::real_of(ag);
    crate::measure::lemma_div_keeps_close(a, 1000, ag * p, 1, 0, 64);
    let q = a.spec_div(crate::power::real_of(1000));
    crate::measure::lemma_less_units(jet, q, 200);
    let u = q.units();
    let z = ag * w;
    assert(ag * p == 0x20_0000_0000_0000 * z) by (nonlinear_arith)
        requires
            p == 0x20_0000_0000_0000 * w,
            z == ag * w,
    ;
    let az = crate::map::abs(z);
    let g = 1000 * u - 0x20_0000_0000_0000 * z;
    assert(g <= 8 * az && -g <= 8 * az);
    assert(n * w >= 0) by (nonlinear_arith)
        requires
            n >= 0,
            w > 0,
    ;
    if ag >= 0 {
        assert(az == z) by (nonlinear_arith)
            requires
                ag >= 0,
                w > 0,
                z == ag * w,
                az == crate::map::abs(z),
        ;
        let e = 0x20_0000_0000_0000 * ag - 1000 * n;
        assert(1000 * (u - n * w) == e * w + g) by (nonlinear_arith)
            requires
                g == 1000 * u - 0x20_0000_0000_0000 * z,
                z == ag * w,
                e == 0x20_0000_0000_0000 * ag - 1000 * n,
        ;
        if e > 8 * ag {
            assert(e * w > 8 * z) by (nonlinear_arith)
                requires
                    e > 8 * ag,
                    w > 0,
                    z == ag * w,
            ;
        }
        if e < -8 * ag {
            assert(e * w < -8 * z) by (nonlinear_arith)
                requires
                    e < -8 * ag,
                    w > 0,
                    z == ag * w,
            ;
        }
    } else {
        assert(z < 0) by (nonlinear_arith)
            requires
                ag < 0,
                w > 0,
                z == ag * w,
        ;
    }
}

/// One turn later every effect that has more turns to go has one less, every
/// effect that had one turn or none is gone, and no effect is new.
pub proof fn lemma_effects_age(effects: Seq<ActiveEffect>)
    requires
        forall|i: int| 0 <= i < effects.len() ==> (#[trigger] effects[i]).turns > i64::MIN,
    ensures
        forall|i: int|
            0 <= i < effects.len() && (#[trigger] effects[i]).turns > 1
                ==> crate::entity::aged(effects).contains(
                ActiveEffect { turns: (effects[i].turns - 1) as i64, ..effects[i] },
            ),
        forall|e: ActiveEffect| #[trigger]
            crate::entity::aged(effects).contains(e) ==> e.turns >= 1 && effects.contains(
                ActiveEffect { turns: (e.turns + 1) as i64, ..e },
            ),
        crate::entity::aged(effects).len() <= effects.len(),
    decreases effects.len(),
{
    if effects.len() > 0 {
        let rest = effects.drop_last();
        let last = effects.last();
        assert forall|i: int| 0 <= i < rest.len() implies (#[trigger] rest[i]).turns > i64::MIN by {
            assert(rest[i] == effects[i]);
        }
        lemma_effects_age(rest);
        let before = crate::entity::aged(rest);
        let after = crate::entity::aged(effects);
        let older = ActiveEffect { turns: last.turns.wrapping_sub(1), ..last };
        assert(last == effects[effects.len() - 1]);
        assert forall|e: ActiveEffect| before.contains(e) implies #[trigger] after.contains(e) by {
            let i = choose|i: int| 0 <= i < before.len() && before[i] == e;
            assert(after[i] == e);
        }
        if last.turns > 1 {
            assert(after == before.push(older));
            assert(after[before.len() as int] == older);
        }
        assert forall|i: int| 0 <= i < effects.len() && (#[trigger] effects[i]).turns > 1 implies
            after.contains(
            ActiveEffect { turns: (effects[i].turns - 1) as i64, ..effects[i] },
        ) by {
            if i < rest.len() {
                assert(rest[i] == effects[i]);
            }
        }
        assert forall|e: ActiveEffect| #[trigger] after.contains(e) implies e.turns >= 1
            && effects.contains(ActiveEffect { turns: (e.turns + 1) as i64, ..e }) by {
            let i = choose|i: int| 0 <= i < after.len() && after[i] == e;
            if i < before.len() {
                assert(before[i] == e);
                assert(before.contains(e));
                let o = ActiveEffect { turns: (e.turns + 1) as i64, ..e };
                let j = choose|j: int| 0 <= j < rest.len() && rest[j] == o;
                assert(effects[j] == o);
            } else {
                assert(e == older);
                assert(ActiveEffect { turns: (e.turns + 1) as i64, ..e } == last);
            }
        }
    }
}

/// Items that wait have one turn less to wait a turn later; those that waited
/// their last turn are free, and no other begins to wait.
pub proof fn lemma_items_wait(e: EntityView, item: i64)
    requires
        e.item_cooldowns.contains_key(item) ==> e.item_cooldowns[item] >= 1,
    ensures
        ({
            let before = e.item_cooldowns;
            let after = e.regenerated().item_cooldowns;
            &&& before.contains_key(item) && before[item] > 1 ==> after.contains_key(item)
                && after[item] == before[item] - 1
            &&& !before.contains_key(item) || before[item] == 1 ==> !after.contains_key(item)
        }),
{
}

} // verus!
