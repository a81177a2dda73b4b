//! What the formulas of attacks come to: how much of an attack arrives at a
//! distance, and to which whole numbers values, characteristics, chance and
//! critical hits lead.

use crate::number::{Real, HIDDEN, TOP};
use vstd::arithmetic::div_mod::*;
use vstd::arithmetic::mul::*;
use vstd::arithmetic::power2::*;
use vstd::prelude::*;

verus! {

/// A constant with `j` binary places is close to the fraction for which it
/// stands.
pub(crate) proof fn lemma_constant(r: Real, j: nat, n: int, den: int)
    requires
        r.wf(),
        !r.neg,
        r.exp == -j,
        j <= 100,
        n >= 0,
        (den * r.mant - n * pow2(j)) * 0x4_0000_0000_0000 <= n * pow2(j),
        (n * pow2(j) - den * r.mant) * 0x4_0000_0000_0000 <= n * pow2(j),
    ensures
        crate::measure::close(r, n * crate::measure::unit(), den, 1),
{
    let w = pow2((crate::measure::places() - j) as nat);
    let h = pow2(j);
    lemma_pow2_adds(j, (crate::measure::places() - j) as nat);
    lemma_pow2_pos((crate::measure::places() - j) as nat);
    lemma_pow2_pos(j);
    let m = 0x4_0000_0000_0000int;
    let u = r.mant * w;
    assert(r.units() == u);
    let x = n * crate::measure::unit();
    assert(x == (n * h) * w) by (nonlinear_arith)
        requires
            x == n * (h * w),
    ;
    let nh = n * h;
    assert(nh >= 0) by (nonlinear_arith)
        requires
            nh == n * h,
            n >= 0,
            h > 0,
    ;
    assert(x >= 0) by (nonlinear_arith)
        requires
            x == nh * w,
            nh >= 0,
            w > 0,
    ;
    let g = den * r.mant - nh;
    assert(den * u - x == g * w) by (nonlinear_arith)
        requires
            u == r.mant * w,
            x == nh * w,
            g == den * r.mant - nh,
    ;
    assert((g * w) * m <= nh * w && -(g * w) * m <= nh * w) by (nonlinear_arith)
        requires
            g * m <= nh,
            -g * m <= nh,
            w > 0,
    ;
    assert(1 * crate::map::abs(x) == x);
}

pub(crate) proof fn lemma_one()
    ensures
        crate::power::one().units() == crate::measure::unit(),
        crate::power::one().within(4),
        crate::measure::close(crate::power::one(), 1 * crate::measure::unit(), 1, 0),
{
    lemma2_to64();
    lemma2_to64_rest();
    lemma_pow2_adds(52, (crate::measure::places() - 52) as nat);
    assert(0 * crate::map::abs(crate::measure::unit()) == 0);
}

/// A whole number stands for itself.
pub(crate) proof fn lemma_whole(i: int)
    requires
        -TOP <= i <= TOP,
    ensures
        crate::power::real_of(i).units() == i * crate::measure::unit(),
        crate::power::real_of(i).within(64),
        crate::measure::close(crate::power::real_of(i), i * crate::measure::unit(), 1, 0),
{
    crate::measure::lemma_int_units(i);
    assert(0 * crate::map::abs(i * crate::measure::unit()) == 0) by (nonlinear_arith);
}

/// The factor of a critical hit is 13 tenths, that of another one 10.
pub open spec fn hit_parts(critical: bool) -> int {
    if critical {
        13
    } else {
        10
    }
}

pub(crate) proof fn lemma_hit(critical: bool)
    ensures
        crate::measure::close(crate::power::hit_factor(critical), hit_parts(critical) * crate::measure::unit(), 10, 1),
        crate::power::hit_factor(critical).within(4),
        crate::power::hit_factor(critical).units() >= crate::measure::unit(),
{
    lemma2_to64();
    lemma2_to64_rest();
    lemma_constant(crate::power::hit_factor(critical), 52, hit_parts(critical), 10);
    lemma_pow2_adds(52, (crate::measure::places() - 52) as nat);
    let w = pow2((crate::measure::places() - 52) as nat);
    let m = crate::power::hit_factor(critical).mant;
    assert(m * w >= 0x10_0000_0000_0000 * w) by (nonlinear_arith)
        requires
            m >= 0x10_0000_0000_0000,
            w >= 0,
    ;
}

/// A characteristic of `stat` makes a factor of 1 and `stat` hundredths, exact
/// for whole factors; the larger the characteristic, the larger the factor.
pub proof fn lemma_percent(stat: int)
    requires
        i32::MIN <= stat <= i32::MAX,
    ensures
        crate::measure::close(crate::power::percent(stat), (100 + stat) * crate::measure::unit(), 100, 30),
        crate::power::percent(stat).within(200),
        stat % 100 == 0 ==> crate::power::percent(stat).units() == (1 + stat / 100) * crate::measure::unit(),
        stat >= -100 ==> crate::power::percent(stat).units() >= 0,
{
    let p = crate::measure::unit();
    lemma_pow2_pos(crate::measure::places());
    lemma_one();
    lemma_whole(stat);
    lemma_whole(100);
    let a = crate::power::real_of(stat);
    let b = crate::power::real_of(100);
    crate::measure::lemma_int_units(100);
    crate::measure::lemma_div_close(a, b, 64, 64);
    let q = a.spec_div(b);
    let x = q.units();
    let s = crate::map::abs(stat);
    assert(crate::map::abs(stat * p) == s * p) by (nonlinear_arith)
        requires
            p > 0,
            s == crate::map::abs(stat),
    ;
    let g = 100 * x - stat * p;
    assert(x * (100 * p) - (stat * p) * p == g * p) by (nonlinear_arith)
        requires
            g == 100 * x - stat * p,
    ;
    assert(g * HIDDEN <= s * p && -g * HIDDEN <= s * p) by (nonlinear_arith)
        requires
            (g * p) * HIDDEN <= (s * p) * p,
            -(g * p) * HIDDEN <= (s * p) * p,
            p > 0,
    ;
    crate::measure::lemma_add_units(crate::power::one(), q, 4, 132);
    let e = p + x;
    let r = crate::power::percent(stat).units();
    assert(r == crate::measure::rounded(e));
    crate::measure::lemma_rounded_close(e);
    if stat % 100 == 0 {
        let k = stat / 100;
        assert(stat * p == k * (100 * p)) by (nonlinear_arith)
            requires
                stat == 100 * k,
        ;
        crate::measure::lemma_div_exact(a, b, k, 64, 64);
        assert(p + k * p == (1 + k) * p) by (nonlinear_arith);
        crate::measure::lemma_rounded_exact(1 + k, crate::measure::places());
    }
    let y = (100 + stat) * p;
    assert(y == 100 * p + stat * p) by (nonlinear_arith)
        requires
            y == (100 + stat) * p,
    ;
    if stat == -100 {
        assert(stat / 100 == -1);
        assert(r == 0 && y == 0);
    } else {
        let n = crate::map::abs(100 + stat);
        assert(crate::map::abs(y) == n * p) by (nonlinear_arith)
            requires
                y == (100 + stat) * p,
                n == crate::map::abs(100 + stat),
                p > 0,
        ;
        assert(s <= 101 * n);
        assert(s * p <= 101 * (n * p)) by (nonlinear_arith)
            requires
                s <= 101 * n,
                p > 0,
        ;
        assert(100 * e - y == g);
    }
    if stat >= -100 {
        crate::measure::lemma_int_units(-100);
        assert((-100) * p <= stat * p) by (nonlinear_arith)
            requires
                stat >= -100,
                p > 0,
        ;
        lemma_whole(-100);
        crate::measure::lemma_div_monotone(crate::power::real_of(-100), a, b, 64);
        assert((-100) * p == (-1) * (100 * p));
        crate::measure::lemma_div_exact(crate::power::real_of(-100), b, -1, 64, 64);
        crate::measure::lemma_rounded_monotone(0, e);
    }
}

pub proof fn lemma_percent_grows(stat: int, more: int)
    requires
        i32::MIN <= stat <= more <= i32::MAX,
    ensures
        crate::power::percent(stat).units() <= crate::power::percent(more).units(),
        stat < more ==> crate::power::percent(stat).units() < crate::power::percent(more).units(),
{
    let p = crate::measure::unit();
    lemma_pow2_pos(crate::measure::places());
    lemma_percent(stat);
    lemma_percent(more);
    if stat < more {
        let x = crate::power::percent(stat).units();
        let y = crate::power::percent(more).units();
        let a = (100 + stat) * p;
        let b = (100 + more) * p;
        assert(b - a >= p && crate::map::abs(a) <= 0x1_0000_0000 * p && crate::map::abs(b)
            <= 0x1_0000_0000 * p) by (nonlinear_arith)
            requires
                a == (100 + stat) * p,
                b == (100 + more) * p,
                more >= stat + 1,
                -0x8000_0000 <= stat <= 0x7fff_ffff,
                -0x8000_0000 <= more <= 0x7fff_ffff,
                p > 0,
        ;
    }
}

/// Of an attack, all arrives at its centre, and with every cell of distance a
/// fifth less: 4 fifths, 3 fifths and so on, as near as numbers of 53 bits
/// come.
pub proof fn lemma_power_falls_by_fifths(distance: int)
    requires
        0 <= distance <= i32::MAX,
    ensures
        crate::power::spread(0) == crate::power::one(),
        crate::power::spread(distance).within(200),
        crate::measure::close(crate::power::spread(distance), (5 - distance) * crate::measure::unit(), 5, 14),
{
    reveal(crate::power::spread);
    lemma2_to64();
    lemma2_to64_rest();
    lemma_pow2_adds(52, 3);
    assert(pow2(55) == 0x80_0000_0000_0000);
    let p = crate::measure::unit();
    lemma_pow2_pos(crate::measure::places());
    lemma_one();
    lemma_whole(distance);
    let c = crate::power::loss_per_cell();
    lemma_constant(c, 55, 1, 5);
    let a = crate::power::real_of(distance);
    crate::measure::lemma_mul_keeps_close(a, c, distance * p, 1, 1, 5, 0, 1, 64, 4);
    let m = a.spec_mul(c);
    let x = m.units();
    let dp = distance * p;
    assert(dp * 1 == dp);
    assert(dp >= 0) by (nonlinear_arith)
        requires
            dp == distance * p,
            distance >= 0,
            p > 0,
    ;
    crate::measure::lemma_negate_units(m);
    crate::measure::lemma_add_units(crate::power::one(), m.spec_negate(), 4, 72);
    let e = p - x;
    let r = crate::power::spread(distance).units();
    assert(r == crate::measure::rounded(e));
    crate::measure::lemma_rounded_close(e);
    let y = (5 - distance) * p;
    assert(y == 5 * p - dp) by (nonlinear_arith)
        requires
            y == (5 - distance) * p,
            dp == distance * p,
    ;
    assert(crate::power::spread(0) == crate::power::one()) by {
        crate::measure::lemma_int_units(0);
        crate::measure::lemma_mul_units(crate::power::real_of(0), c, 64, 4);
    }
    if distance == 5 {
        crate::measure::lemma_mul_units(a, c, 64, 4);
        let w = pow2((crate::measure::places() - 55) as nat);
        lemma_pow2_adds(crate::measure::places(), (crate::measure::places() - 55) as nat);
        lemma_pow2_adds(55, (crate::measure::places() - 55) as nat);
        let big = 0x80_0000_0000_0002int;
        assert(a.units() * c.units() == big * (p * w)) by (nonlinear_arith)
            requires
                a.units() == 5 * p,
                c.units() == 0x19_9999_9999_999a * w,
                big == 0x80_0000_0000_0002,
        ;
        crate::measure::lemma_rounded_scaled(big, crate::measure::places() + (crate::measure::places() - 55) as nat);
        crate::measure::lemma_one_fifth();
        assert(x * p == 0x80_0000_0000_0000 * (p * w));
        assert(x == p) by (nonlinear_arith)
            requires
                x * p == 0x80_0000_0000_0000 * (p * w),
                p == 0x80_0000_0000_0000 * w,
                p > 0,
        ;
        assert(r == 0) by {
            crate::measure::lemma_rounded_exact(0, 0);
        }
        assert(y == 0);
    } else {
        let n = crate::map::abs(5 - distance);
        assert(crate::map::abs(y) == n * p) by (nonlinear_arith)
            requires
                y == (5 - distance) * p,
                n == crate::map::abs(5 - distance),
                p > 0,
        ;
        assert(distance <= 6 * n);
        assert(dp <= 6 * (n * p)) by (nonlinear_arith)
            requires
                dp == distance * p,
                distance <= 6 * n,
                p > 0,
        ;
    }
}

/// The further from its centre, the less of an attack arrives.
pub proof fn lemma_power_falls(near: int, far: int)
    requires
        0 <= near < far <= i32::MAX,
    ensures
        crate::power::spread(far).units() < crate::power::spread(near).units(),
        crate::power::spread(far).spec_less(crate::power::spread(near)),
        crate::power::spread(far).spec_less(crate::power::one()),
{
    let p = crate::measure::unit();
    lemma_pow2_pos(crate::measure::places());
    lemma_one();
    lemma_falls(near, far);
    if near > 0 {
        lemma_falls(0, far);
    }
    lemma_power_falls_by_fifths(near);
    lemma_power_falls_by_fifths(far);
    crate::measure::lemma_less_units(crate::power::spread(far), crate::power::spread(near), 200);
    crate::measure::lemma_less_units(crate::power::spread(far), crate::power::one(), 200);
}

proof fn lemma_falls(near: int, far: int)
    requires
        0 <= near < far <= i32::MAX,
    ensures
        crate::power::spread(far).units() < crate::power::spread(near).units(),
{
    let p = crate::measure::unit();
    lemma_pow2_pos(crate::measure::places());
    lemma_power_falls_by_fifths(near);
    lemma_power_falls_by_fifths(far);
    let a = (5 - near) * p;
    let b = (5 - far) * p;
    assert(a - b >= p && crate::map::abs(a) <= 0x1_0000_0000 * p && crate::map::abs(b)
        <= 0x1_0000_0000 * p) by (nonlinear_arith)
        requires
            a == (5 - near) * p,
            b == (5 - far) * p,
            0 <= near,
            near + 1 <= far <= 0x7fff_ffff,
            p > 0,
    ;
}

/// The parts, of which 65536 make 1, of a value that chance draws between a
/// first one and that one with a second one.
pub open spec fn roll_parts(v1: int, v2: int, draw: int) -> int {
    65536 * v1 + draw * v2
}

/// Whether two values and a draw are of a size that attacks have.
pub open spec fn ordinary(v1: int, v2: int, draw: int) -> bool {
    &&& -0x4000_0000 <= v1 <= 0x4000_0000
    &&& -0x4000_0000 <= v2 <= 0x4000_0000
    &&& 0 <= draw <= 65536
}

/// Chance adds the drawn part of the second value to the first.
pub proof fn lemma_roll(v1: int, v2: int, draw: int)
    requires
        ordinary(v1, v2, draw),
    ensures
        crate::measure::close(
            crate::power::roll(crate::power::real_of(v1), crate::power::real_of(v2), crate::power::chance(draw)),
            roll_parts(v1, v2, draw) * crate::measure::unit(),
            65536,
            0,
        ),
        crate::power::roll(crate::power::real_of(v1), crate::power::real_of(v2), crate::power::chance(draw)).within(300),
{
    lemma2_to64();
    lemma2_to64_rest();
    let p = crate::measure::unit();
    lemma_pow2_pos(crate::measure::places());
    let w = pow2((crate::measure::places() - 16) as nat);
    lemma_pow2_adds(16, (crate::measure::places() - 16) as nat);
    assert(p == 65536 * w);
    lemma_pow2_adds(crate::measure::places(), (crate::measure::places() - 16) as nat);
    let jet = crate::power::chance(draw);
    crate::measure::lemma_nearest_units(false, draw as nat, -16, 1);
    crate::measure::lemma_rounded_exact(draw, (crate::measure::places() - 16) as nat);
    assert(jet.units() == draw * w);
    assert(jet.within(100));
    lemma_whole(v1);
    lemma_whole(v2);
    let a = crate::power::real_of(v1);
    let b = crate::power::real_of(v2);
    let dv = draw * v2;
    assert(-0x4000_0000_0000 <= dv <= 0x4000_0000_0000) by (nonlinear_arith)
        requires
            dv == draw * v2,
            0 <= draw <= 65536,
            -0x4000_0000 <= v2 <= 0x4000_0000,
    ;
    crate::measure::lemma_mul_units(jet, b, 100, 64);
    assert(jet.units() * b.units() == dv * (p * w)) by (nonlinear_arith)
        requires
            jet.units() == draw * w,
            b.units() == v2 * p,
            dv == draw * v2,
    ;
    crate::measure::lemma_rounded_exact(dv, crate::measure::places() + (crate::measure::places() - 16) as nat);
    let m = jet.spec_mul(b);
    let x = m.units();
    assert(x == dv * w) by (nonlinear_arith)
        requires
            x * p == dv * (p * w),
            p > 0,
    ;
    crate::measure::lemma_add_units(a, m, 64, 168);
    let n = roll_parts(v1, v2, draw);
    assert(a.units() + x == n * w) by (nonlinear_arith)
        requires
            a.units() == v1 * p,
            p == 65536 * w,
            x == dv * w,
            n == 65536 * v1 + dv,
    ;
    crate::measure::lemma_rounded_exact(n, (crate::measure::places() - 16) as nat);
    assert(65536 * (n * w) == n * p) by (nonlinear_arith)
        requires
            p == 65536 * w,
    ;
    assert(0 * crate::map::abs(n * p) == 0) by (nonlinear_arith);
}

/// A value, a characteristic, the distance and a critical hit together.
proof fn lemma_common(v1: int, v2: int, draw: int, stat: int, distance: int, critical: bool)
    requires
        ordinary(v1, v2, draw),
        i32::MIN <= stat <= i32::MAX,
        0 <= distance <= i32::MAX,
    ensures
        ({
            let r = crate::power::roll(crate::power::real_of(v1), crate::power::real_of(v2), crate::power::chance(draw)).spec_mul(crate::power::percent(stat)).spec_mul(
                crate::power::spread(distance),
            ).spec_mul(crate::power::hit_factor(critical));
            &&& crate::measure::close(
                r,
                roll_parts(v1, v2, draw) * (100 + stat) * (5 - distance) * hit_parts(critical)
                    * crate::measure::unit(),
                65536int * 5000,
                48,
            )
            &&& r.within(720)
        }),
{
    let p = crate::measure::unit();
    lemma_roll(v1, v2, draw);
    lemma_percent(stat);
    lemma_power_falls_by_fifths(distance);
    lemma_hit(critical);
    let n = roll_parts(v1, v2, draw);
    let a = crate::power::roll(crate::power::real_of(v1), crate::power::real_of(v2), crate::power::chance(draw));
    let s = 100 + stat;
    let d = 5 - distance;
    let h = hit_parts(critical);
    crate::measure::lemma_mul_keeps_close(a, crate::power::percent(stat), n * p, s, 65536, 100, 0, 30, 300, 200);
    let b = a.spec_mul(crate::power::percent(stat));
    crate::measure::lemma_mul_keeps_close(
        b,
        crate::power::spread(distance),
        (n * p) * s,
        d,
        6553600,
        5,
        31,
        14,
        504,
        200,
    );
    let c = b.spec_mul(crate::power::spread(distance));
    crate::measure::lemma_mul_keeps_close(
        c,
        crate::power::hit_factor(critical),
        ((n * p) * s) * d,
        h,
        32768000,
        10,
        46,
        1,
        708,
        4,
    );
    assert((((n * p) * s) * d) * h == n * s * d * h * p) by (nonlinear_arith);
}

/// An effect that grows with one characteristic has the nearest whole number to
/// its value, times 1 and as many hundredths as the characteristic, less a
/// fifth for every cell of distance, and 1.3 times that for a critical hit.
pub proof fn lemma_scaled_value(
    v1: int,
    v2: int,
    draw: int,
    stat: int,
    distance: int,
    critical: bool,
)
    requires
        ordinary(v1, v2, draw),
        i32::MIN <= stat <= i32::MAX,
        0 <= distance <= i32::MAX,
        ({
            let n = roll_parts(v1, v2, draw) * (100 + stat) * (5 - distance) * hit_parts(critical);
            crate::map::abs(n) <= 0x7fff_0000 * (65536int * 5000)
        }),
    ensures
        ({
            let n = roll_parts(v1, v2, draw) * (100 + stat) * (5 - distance) * hit_parts(critical);
            crate::measure::is_nearest(
                crate::power::scaled(crate::power::real_of(v1), crate::power::real_of(v2), crate::power::chance(draw), stat, crate::power::spread(distance), critical),
                n,
                65536int * 5000,
                crate::map::abs(n),
            )
        }),
{
    reveal(crate::power::scaled);
    lemma_common(v1, v2, draw, stat, distance, critical);
    let r = crate::power::roll(crate::power::real_of(v1), crate::power::real_of(v2), crate::power::chance(draw)).spec_mul(crate::power::percent(stat)).spec_mul(
        crate::power::spread(distance),
    ).spec_mul(crate::power::hit_factor(critical));
    let n = roll_parts(v1, v2, draw) * (100 + stat) * (5 - distance) * hit_parts(critical);
    crate::measure::lemma_round_is_nearest(r, n, 65536int * 5000, 48, 720);
}

/// Healing has the value of an effect that grows with wisdom, times the number
/// of targets.
pub proof fn lemma_healing_value(
    v1: int,
    v2: int,
    draw: int,
    wisdom: int,
    distance: int,
    critical: bool,
    count: int,
)
    requires
        ordinary(v1, v2, draw),
        i32::MIN <= wisdom <= i32::MAX,
        i32::MIN <= count <= i32::MAX,
        0 <= distance <= i32::MAX,
        ({
            let n = roll_parts(v1, v2, draw) * (100 + wisdom) * (5 - distance) * hit_parts(critical)
                * count;
            crate::map::abs(n) <= 0x7fff_0000 * (65536int * 5000)
        }),
    ensures
        ({
            let n = roll_parts(v1, v2, draw) * (100 + wisdom) * (5 - distance) * hit_parts(critical)
                * count;
            crate::measure::is_nearest(
                crate::power::healing(
                    crate::power::real_of(v1),
                    crate::power::real_of(v2),
                    crate::power::chance(draw),
                    wisdom,
                    crate::power::spread(distance),
                    critical,
                    count,
                ),
                n,
                65536int * 5000,
                crate::map::abs(n),
            )
        }),
{
    reveal(crate::power::healing);
    lemma_common(v1, v2, draw, wisdom, distance, critical);
    let p = crate::measure::unit();
    let r = crate::power::roll(crate::power::real_of(v1), crate::power::real_of(v2), crate::power::chance(draw)).spec_mul(crate::power::percent(wisdom)).spec_mul(
        crate::power::spread(distance),
    ).spec_mul(crate::power::hit_factor(critical));
    let m = roll_parts(v1, v2, draw) * (100 + wisdom) * (5 - distance) * hit_parts(critical);
    lemma_whole(count);
    crate::measure::lemma_mul_keeps_close(
        r,
        crate::power::real_of(count),
        m * p,
        count,
        65536int * 5000,
        1,
        48,
        0,
        720,
        64,
    );
    assert((m * p) * count == m * count * p) by (nonlinear_arith);
    crate::measure::lemma_round_is_nearest(
        r.spec_mul(crate::power::real_of(count)),
        m * count,
        65536int * 5000,
        49,
        800,
    );
}

/// Power that grows with a characteristic of at least 0 and with the power of
/// the caster: both make a factor of 1 and as many hundredths.
pub proof fn lemma_boosted_power(
    v1: int,
    v2: int,
    draw: int,
    stat: int,
    distance: int,
    critical: bool,
    power: int,
)
    requires
        ordinary(v1, v2, draw),
        i32::MIN <= stat <= i32::MAX,
        i32::MIN <= power <= i32::MAX,
        0 <= distance <= i32::MAX,
    ensures
        ({
            let grown = if stat < 0 {
                100
            } else {
                100 + stat
            };
            let n = roll_parts(v1, v2, draw) * grown * (5 - distance) * hit_parts(critical) * (100
                + power);
            let r = crate::power::boosted(
                crate::power::real_of(v1),
                crate::power::real_of(v2),
                crate::power::chance(draw),
                stat,
                crate::power::spread(distance),
                critical,
                power,
            );
            &&& crate::measure::close(r, n * crate::measure::unit(), 65536int * 500000, 79)
            &&& r.within(930)
            &&& crate::map::abs(n) <= 0x7fff_0000 * (65536int * 500000) ==> crate::measure::is_nearest(
                crate::power::whole(r),
                n,
                65536int * 500000,
                crate::map::abs(n),
            )
        }),
{
    reveal(crate::power::boosted);
    reveal(crate::power::whole);
    let s = crate::power::at_least(stat, 0);
    lemma_common(v1, v2, draw, s, distance, critical);
    lemma_percent(power);
    let p = crate::measure::unit();
    let r = crate::power::roll(crate::power::real_of(v1), crate::power::real_of(v2), crate::power::chance(draw)).spec_mul(crate::power::percent(s)).spec_mul(
        crate::power::spread(distance),
    ).spec_mul(crate::power::hit_factor(critical));
    let m = roll_parts(v1, v2, draw) * (100 + s) * (5 - distance) * hit_parts(critical);
    let q = 100 + power;
    crate::measure::lemma_mul_keeps_close(
        r,
        crate::power::percent(power),
        m * p,
        q,
        65536int * 5000,
        100,
        48,
        30,
        720,
        200,
    );
    assert((m * p) * q == m * q * p) by (nonlinear_arith);
    let n = m * q;
    if crate::map::abs(n) <= 0x7fff_0000 * (65536int * 500000) {
        crate::measure::lemma_round_is_nearest(
            r.spec_mul(crate::power::percent(power)),
            n,
            65536int * 500000,
            79,
            930,
        );
    }
}

/// Direct damage before any shield: the value, times 1 and as many hundredths
/// as strength and as power, less a fifth for every cell of distance, 1.3 times
/// that for a critical hit, and times the number of targets.
pub proof fn lemma_raw_damage(
    v1: int,
    v2: int,
    draw: int,
    strength: int,
    distance: int,
    critical: bool,
    count: int,
    power: int,
)
    requires
        ordinary(v1, v2, draw),
        i32::MIN <= strength <= i32::MAX,
        i32::MIN <= power <= i32::MAX,
        i32::MIN <= count <= i32::MAX,
        0 <= distance <= i32::MAX,
    ensures
        ({
            let grown = if strength < 0 {
                100
            } else {
                100 + strength
            };
            let n = roll_parts(v1, v2, draw) * grown * (5 - distance) * hit_parts(critical) * count
                * (100 + power);
            let r = crate::power::raw_damage(
                crate::power::real_of(v1),
                crate::power::real_of(v2),
                crate::power::chance(draw),
                strength,
                crate::power::spread(distance),
                critical,
                count,
                power,
            );
            &&& crate::measure::close(r, n * crate::measure::unit(), 65536int * 500000, 80)
            &&& r.within(1000)
            &&& crate::map::abs(n) <= 0x7fff_0000 * (65536int * 500000) ==> crate::measure::is_nearest(
                crate::power::whole(r),
                n,
                65536int * 500000,
                crate::map::abs(n),
            )
        }),
{
    reveal(crate::power::raw_damage);
    reveal(crate::power::whole);
    let s = crate::power::at_least(strength, 0);
    lemma_common(v1, v2, draw, s, distance, critical);
    lemma_percent(power);
    lemma_whole(count);
    let p = crate::measure::unit();
    let r = crate::power::roll(crate::power::real_of(v1), crate::power::real_of(v2), crate::power::chance(draw)).spec_mul(crate::power::percent(s)).spec_mul(
        crate::power::spread(distance),
    ).spec_mul(crate::power::hit_factor(critical));
    let m = roll_parts(v1, v2, draw) * (100 + s) * (5 - distance) * hit_parts(critical);
    let q = 100 + power;
    crate::measure::lemma_mul_keeps_close(
        r,
        crate::power::real_of(count),
        m * p,
        count,
        65536int * 5000,
        1,
        48,
        0,
        720,
        64,
    );
    let c = r.spec_mul(crate::power::real_of(count));
    crate::measure::lemma_mul_keeps_close(
        c,
        crate::power::percent(power),
        (m * p) * count,
        q,
        65536int * 5000,
        100,
        49,
        30,
        788,
        200,
    );
    assert(((m * p) * count) * q == m * count * q * p) by (nonlinear_arith);
    let n = m * count * q;
    if crate::map::abs(n) <= 0x7fff_0000 * (65536int * 500000) {
        crate::measure::lemma_round_is_nearest(
            c.spec_mul(crate::power::percent(power)),
            n,
            65536int * 500000,
            80,
            1000,
        );
    }
}

/// Nobody off the centre of an area is hit harder than somebody nearer to it,
/// whatever the values are, as long as they are not negative.
pub proof fn lemma_damage_falls_with_distance(
    v1: Real,
    v2: Real,
    jet: Real,
    strength: int,
    near: int,
    far: int,
    critical: bool,
    count: int,
    power: int,
)
    requires
        v1.within(1200),
        v2.within(1200),
        jet.within(200),
        v1.units() >= 0,
        v2.units() >= 0,
        jet.units() >= 0,
        i32::MIN <= strength <= i32::MAX,
        -100 <= power <= i32::MAX,
        0 <= count <= i32::MAX,
        0 <= near <= far <= i32::MAX,
    ensures
        crate::power::raw_damage(v1, v2, jet, strength, crate::power::spread(far), critical, count, power).units()
            <= crate::power::raw_damage(v1, v2, jet, strength, crate::power::spread(near), critical, count, power).units(),
        crate::power::raw_damage(v1, v2, jet, strength, crate::power::spread(far), critical, count, power).units()
            <= crate::power::raw_damage(v1, v2, jet, strength, crate::power::one(), critical, count, power).units(),
{
    lemma_power_falls_by_fifths(near);
    lemma_power_falls_by_fifths(far);
    lemma_one();
    lemma_pow2_pos(crate::measure::places());
    if near < far {
        lemma_power_falls(near, far);
    }
    if 0 < far {
        lemma_power_falls(0, far);
    }
    lemma_damage_grows_with_power(
        v1,
        v2,
        jet,
        strength,
        crate::power::spread(far),
        crate::power::spread(near),
        critical,
        count,
        power,
    );
    lemma_damage_grows_with_power(
        v1,
        v2,
        jet,
        strength,
        crate::power::spread(far),
        crate::power::one(),
        critical,
        count,
        power,
    );
}

proof fn lemma_damage_grows_with_power(
    v1: Real,
    v2: Real,
    jet: Real,
    strength: int,
    less: Real,
    more: Real,
    critical: bool,
    count: int,
    power: int,
)
    requires
        v1.within(1200),
        v2.within(1200),
        jet.within(200),
        v1.units() >= 0,
        v2.units() >= 0,
        jet.units() >= 0,
        less.within(200),
        more.within(200),
        less.units() <= more.units(),
        i32::MIN <= strength <= i32::MAX,
        -100 <= power <= i32::MAX,
        0 <= count <= i32::MAX,
    ensures
        crate::power::raw_damage(v1, v2, jet, strength, less, critical, count, power).units() <= crate::power::raw_damage(
            v1,
            v2,
            jet,
            strength,
            more,
            critical,
            count,
            power,
        ).units(),
{
    reveal(crate::power::raw_damage);
    let s = crate::power::at_least(strength, 0);
    let p = crate::measure::unit();
    lemma_pow2_pos(crate::measure::places());
    let a = crate::power::roll(v1, v2, jet);
    lemma_roll_positive(v1, v2, jet);
    lemma_percent(s);
    lemma_percent(power);
    lemma_hit(critical);
    lemma_whole(count);
    assert(count * p >= 0) by (nonlinear_arith)
        requires
            count >= 0,
            p > 0,
    ;
    crate::measure::lemma_mul_monotone(a, a, crate::power::percent(s), 3000);
    let b = a.spec_mul(crate::power::percent(s));
    crate::measure::lemma_mul_units(a, crate::power::percent(s), 2700, 200);
    crate::measure::lemma_mul_units(b, less, 3000, 200);
    crate::measure::lemma_mul_units(b, more, 3000, 200);
    crate::measure::lemma_mul_monotone(less, more, b, 3000);
    let x = b.spec_mul(less);
    let y = b.spec_mul(more);
    let h = crate::power::hit_factor(critical);
    crate::measure::lemma_mul_monotone(x, y, h, 4000);
    crate::measure::lemma_mul_units(x, h, 3300, 4);
    crate::measure::lemma_mul_units(y, h, 3300, 4);
    let c = crate::power::real_of(count);
    let x2 = x.spec_mul(h);
    let y2 = y.spec_mul(h);
    crate::measure::lemma_mul_monotone(x2, y2, c, 4000);
    crate::measure::lemma_mul_units(x2, c, 3310, 64);
    crate::measure::lemma_mul_units(y2, c, 3310, 64);
    crate::measure::lemma_mul_monotone(x2.spec_mul(c), y2.spec_mul(c), crate::power::percent(power), 4000);
}

proof fn lemma_roll_positive(v1: Real, v2: Real, jet: Real)
    requires
        v1.within(1200),
        v2.within(1200),
        jet.within(200),
        v1.units() >= 0,
        v2.units() >= 0,
        jet.units() >= 0,
    ensures
        crate::power::roll(v1, v2, jet).within(2700),
        crate::power::roll(v1, v2, jet).units() >= v1.units(),
{
    crate::measure::lemma_mul_units(jet, v2, 200, 1200);
    crate::measure::lemma_mul_monotone(jet, jet, v2, 1200);
    let m = jet.spec_mul(v2);
    crate::measure::lemma_add_units(v1, m, 1200, 1404);
    crate::measure::lemma_rounded_monotone(v1.units(), v1.units() + m.units());
    crate::measure::lemma_rounded_exact(v1.signed(), (v1.exp + crate::measure::places()) as nat);
}

/// The summoned characteristic before a critical hit: the least one, and some
/// of the steps up to the greatest.
proof fn lemma_summon_steps(min: i32, max: i32, level: int) -> (f: int)
    requires
        min <= max,
        max - min <= i32::MAX,
        0 <= level <= i32::MAX,
    ensures
        0 <= f <= max - min,
        level == 0 ==> f == 0,
        level >= 300 ==> f == max - min,
        level <= 300 ==> 300 * f <= (max - min) * level <= 300 * f + 300,
        crate::power::summon_stat(min, max, level, false) == min + f,
        ({
            let c = crate::power::summon_stat(min, max, level, true);
            0 <= min && 6 * (min + f) <= 5 * i32::MAX ==> 5 * c <= 6 * (min + f) <= 5 * c + 5
        }),
{
    reveal(crate::power::summon_stat);
    let p = crate::measure::unit();
    lemma_pow2_pos(crate::measure::places());
    let lv = crate::power::at_most(level, 300);
    let d = (max - min) as int;
    assert(max.wrapping_sub(min) == d);
    lemma_whole(lv);
    lemma_whole(300);
    lemma_whole(d);
    lemma_whole(min as int);
    crate::measure::lemma_int_units(300);
    let a = crate::power::real_of(lv);
    let t = crate::power::real_of(300);
    let coeff = a.spec_div(t);
    crate::measure::lemma_div_keeps_close(a, 300, lv * p, 1, 0, 64);
    crate::measure::lemma_div_keeps_close(t, 300, 300 * p, 1, 0, 64);
    let rd = crate::power::real_of(d);
    let span = rd.spec_mul(coeff);
    crate::measure::lemma_mul_keeps_close(rd, coeff, d * p, lv, 1, 300, 0, 1, 64, 132);
    let zero = crate::power::real_of(0);
    lemma_whole(0);
    assert(0 * p <= lv * p && lv * p <= 300 * p) by (nonlinear_arith)
        requires
            0 <= lv <= 300,
            p > 0,
    ;
    crate::measure::lemma_div_monotone(zero, a, t, 64);
    crate::measure::lemma_div_monotone(a, t, t, 64);
    assert(0 * p == 0 * (300 * p));
    crate::measure::lemma_div_exact(zero, t, 0, 64, 64);
    assert(300 * p == 1 * (300 * p));
    crate::measure::lemma_div_exact(t, t, 1, 64, 64);
    assert(0 <= coeff.units() <= p);
    assert(d * p >= 0) by (nonlinear_arith)
        requires
            d >= 0,
            p > 0,
    ;
    crate::measure::lemma_mul_monotone(coeff, t.spec_div(t), rd, 200);
    crate::measure::lemma_mul_by_one(rd, t.spec_div(t), 200);
    crate::measure::lemma_mul_monotone(zero, coeff, rd, 200);
    crate::measure::lemma_mul_whole(rd, zero, d, 0, 200);
    let u = span.units();
    assert(0 <= u <= d * p);
    if lv == 300 {
        assert(coeff == t.spec_div(t));
        assert(u == d * p);
    }
    if lv == 0 {
        assert(u == 0);
    }
    crate::measure::lemma_floor_units(span, 300);
    let f = span.spec_floor();
    lemma_fundamental_div_mod(u, p);
    assert(p * f <= u < p * f + p);
    assert(0 <= f <= d) by (nonlinear_arith)
        requires
            p * f <= u,
            u < p * f + p,
            0 <= u <= d * p,
            p > 0,
    ;
    if lv == 300 {
        lemma_fundamental_div_mod_converse(u, p, d, 0);
    }
    if lv == 0 {
        lemma_fundamental_div_mod_converse(u, p, 0, 0);
    }
    let steps = if span.exp >= 0 {
        span
    } else {
        crate::power::real_of(f)
    };
    lemma_whole(f);
    assert(steps.units() == f * p) by {
        if span.exp >= 0 {
            assert(u == p * f);
            assert(p * f == f * p) by (nonlinear_arith);
        }
    }
    let lo = crate::power::real_of(min as int);
    crate::measure::lemma_add_units(lo, steps, 64, 300);
    let sum = lo.spec_add(steps);
    assert(min * p + f * p == (min + f) * p) by (nonlinear_arith);
    crate::measure::lemma_rounded_exact(min + f, crate::measure::places());
    assert(sum.units() == (min + f) * p);
    lemma_one();
    crate::measure::lemma_mul_by_one(sum, crate::power::one(), 500);
    crate::measure::lemma_trunc_units(sum.spec_mul(crate::power::one()), 1004);
    if level <= 300 {
        let n = d * lv;
        assert((d * p) * lv == n * p) by (nonlinear_arith)
            requires
                n == d * lv,
        ;
        assert(0 <= n <= 0x7fff_ffff * 300) by (nonlinear_arith)
            requires
                n == d * lv,
                0 <= d <= 0x7fff_ffff,
                0 <= lv <= 300,
        ;
        let np = n * p;
        assert(0 <= np <= 0x7fff_ffff * 300 * p) by (nonlinear_arith)
            requires
                np == n * p,
                0 <= n <= 0x7fff_ffff * 300,
                p > 0,
        ;
        let g = 300 * u - np;
        assert(crate::measure::close(span, np, 300, 2));
        assert(g * 0x4_0000_0000_0000 <= 2 * np && -g * 0x4_0000_0000_0000 <= 2 * np);
        assert(-p < 2 * g && 2 * g < p) by (nonlinear_arith)
            requires
                g * 0x4_0000_0000_0000 <= 2 * np,
                -g * 0x4_0000_0000_0000 <= 2 * np,
                np <= 0x7fff_ffff * 300 * p,
                p > 0,
        ;
        assert(300 * f <= n) by (nonlinear_arith)
            requires
                300 * (p * f) <= n * p + g,
                2 * g < p,
                p > 0,
        ;
        assert(n <= 300 * f + 300) by (nonlinear_arith)
            requires
                n * p + g < 300 * (p * f + p),
                -p < 2 * g,
                p > 0,
        ;
    }
    let b = min + f;
    if 0 <= min && 6 * b <= 5 * i32::MAX {
        lemma2_to64();
        lemma2_to64_rest();
        let c = crate::power::summon_factor();
        lemma_constant(c, 52, 6, 5);
        assert(0 * crate::map::abs(b * p) == 0) by (nonlinear_arith);
        crate::measure::lemma_mul_keeps_close(sum, c, b * p, 6, 1, 5, 0, 1, 500, 4);
        assert((b * p) * 6 == (6 * b) * p) by (nonlinear_arith);
        lemma_pow2_pos((c.exp + crate::measure::places()) as nat);
        let w = pow2((c.exp + crate::measure::places()) as nat);
        assert(c.mant * w >= 0) by (nonlinear_arith)
            requires
                w >= 0,
                c.mant >= 0,
        ;
        assert(b * p >= 0) by (nonlinear_arith)
            requires
                b >= 0,
                p > 0,
        ;
        crate::measure::lemma_mul_monotone(sum, sum, c, 500);
        let prod = sum.spec_mul(c);
        crate::measure::lemma_trunc_is_floor(prod, 6 * b, 5, 2, 508);
        let r = prod.spec_trunc();
        assert(5 * r <= 6 * b <= 5 * r + 5);
    }
    f
}

/// A summoned fighter has the least of a characteristic at level 0 of its
/// summoner and the greatest from level 300 on; in between it has as large a
/// part of the way as the level is of 300, rounded down.
pub proof fn lemma_summon_follows_level(min: i32, max: i32, level: int)
    requires
        min <= max,
        max - min <= i32::MAX,
        0 <= level <= i32::MAX,
    ensures
        ({
            let r = crate::power::summon_stat(min, max, level, false);
            &&& min <= r <= max
            &&& level == 0 ==> r == min
            &&& level >= 300 ==> r == max
            &&& level <= 300 ==> 300 * (r - min) <= (max - min) * level <= 300 * (r - min) + 300
        }),
{
    let f = lemma_summon_steps(min, max, level);
}

/// The higher the level of the summoner, the greater the characteristic.
pub proof fn lemma_summon_grows(min: i32, max: i32, level: int, higher: int)
    requires
        min <= max,
        max - min <= i32::MAX,
        0 <= level <= higher <= i32::MAX,
    ensures
        crate::power::summon_stat(min, max, level, false) <= crate::power::summon_stat(
            min,
            max,
            higher,
            false,
        ),
{
    let f = lemma_summon_steps(min, max, level);
    let g = lemma_summon_steps(min, max, higher);
    if higher >= 300 {
    } else {
        lemma_summon_order(min, max, level, higher);
    }
}

proof fn lemma_summon_order(min: i32, max: i32, level: int, higher: int)
    requires
        min <= max,
        max - min <= i32::MAX,
        0 <= level <= higher <= 300,
    ensures
        crate::power::summon_stat(min, max, level, false) <= crate::power::summon_stat(
            min,
            max,
            higher,
            false,
        ),
{
    reveal(crate::power::summon_stat);
    let p = crate::measure::unit();
    lemma_pow2_pos(crate::measure::places());
    let d = (max - min) as int;
    assert(max.wrapping_sub(min) == d);
    lemma_whole(level);
    lemma_whole(higher);
    lemma_whole(300);
    lemma_whole(d);
    lemma_whole(min as int);
    lemma_one();
    crate::measure::lemma_int_units(300);
    let a = crate::power::real_of(level);
    let b = crate::power::real_of(higher);
    let t = crate::power::real_of(300);
    assert(level * p <= higher * p) by (nonlinear_arith)
        requires
            level <= higher,
            p > 0,
    ;
    crate::measure::lemma_div_monotone(a, b, t, 64);
    crate::measure::lemma_div_close(a, t, 64, 64);
    crate::measure::lemma_div_close(b, t, 64, 64);
    let rd = crate::power::real_of(d);
    assert(d * p >= 0) by (nonlinear_arith)
        requires
            d >= 0,
            p > 0,
    ;
    let x = rd.spec_mul(a.spec_div(t));
    let y = rd.spec_mul(b.spec_div(t));
    crate::measure::lemma_mul_monotone(a.spec_div(t), b.spec_div(t), rd, 200);
    crate::measure::lemma_mul_units(rd, a.spec_div(t), 64, 132);
    crate::measure::lemma_mul_units(rd, b.spec_div(t), 64, 132);
    crate::measure::lemma_floor_units(x, 200);
    crate::measure::lemma_floor_units(y, 200);
    lemma_div_is_ordered(x.units(), y.units(), p);
    let f = lemma_summon_steps(min, max, level);
    let g = lemma_summon_steps(min, max, higher);
    lemma_steps_are_floor(x, f, min, max, level);
    lemma_steps_are_floor(y, g, min, max, higher);
}

/// The steps of a summoned characteristic are the floor of its part of the way.
proof fn lemma_steps_are_floor(span: Real, f: int, min: i32, max: i32, level: int)
    requires
        min <= max,
        max - min <= i32::MAX,
        0 <= level <= 300,
        span == crate::power::real_of(max - min).spec_mul(
            crate::power::real_of(level).spec_div(crate::power::real_of(300)),
        ),
        span.within(200),
        crate::power::summon_stat(min, max, level, false) == min + f,
        0 <= f <= max - min,
    ensures
        f == span.spec_floor(),
{
    reveal(crate::power::summon_stat);
    let p = crate::measure::unit();
    lemma_pow2_pos(crate::measure::places());
    assert(max.wrapping_sub(min) == max - min);
    lemma_whole(min as int);
    lemma_one();
    let k = span.spec_floor();
    crate::measure::lemma_floor_units(span, 200);
    lemma_fundamental_div_mod(span.units(), p);
    lemma_span_bounds(min, max, level);
    let u = span.units();
    assert(0 <= k <= max - min) by (nonlinear_arith)
        requires
            p * k <= u,
            u < p * k + p,
            0 <= u <= (max - min) * p,
            p > 0,
    ;
    lemma_whole(k);
    let steps = if span.exp >= 0 {
        span
    } else {
        crate::power::real_of(k)
    };
    assert(steps.units() == k * p) by {
        if span.exp >= 0 {
            assert(p * k == k * p) by (nonlinear_arith);
        }
    }
    let lo = crate::power::real_of(min as int);
    crate::measure::lemma_add_units(lo, steps, 64, 200);
    assert(min * p + k * p == (min + k) * p) by (nonlinear_arith);
    crate::measure::lemma_rounded_exact(min + k, crate::measure::places());
    let sum = lo.spec_add(steps);
    crate::measure::lemma_mul_by_one(sum, crate::power::one(), 400);
    crate::measure::lemma_trunc_units(sum.spec_mul(crate::power::one()), 804);
}

proof fn lemma_span_bounds(min: i32, max: i32, level: int)
    requires
        min <= max,
        max - min <= i32::MAX,
        0 <= level <= 300,
    ensures
        ({
            let span = crate::power::real_of(max - min).spec_mul(
                crate::power::real_of(level).spec_div(crate::power::real_of(300)),
            );
            0 <= span.units() <= (max - min) * crate::measure::unit()
        }),
{
    let p = crate::measure::unit();
    lemma_pow2_pos(crate::measure::places());
    let d = max - min;
    lemma_whole(level);
    lemma_whole(300);
    lemma_whole(0);
    lemma_whole(d);
    crate::measure::lemma_int_units(300);
    let a = crate::power::real_of(level);
    let t = crate::power::real_of(300);
    let z = crate::power::real_of(0);
    let rd = crate::power::real_of(d);
    assert(0 * p <= level * p && level * p <= 300 * p) by (nonlinear_arith)
        requires
            0 <= level <= 300,
            p > 0,
    ;
    assert(d * p >= 0) by (nonlinear_arith)
        requires
            d >= 0,
            p > 0,
    ;
    crate::measure::lemma_div_monotone(z, a, t, 64);
    crate::measure::lemma_div_monotone(a, t, t, 64);
    assert(0 * p == 0 * (300 * p));
    crate::measure::lemma_div_exact(z, t, 0, 64, 64);
    assert(300 * p == 1 * (300 * p));
    crate::measure::lemma_div_exact(t, t, 1, 64, 64);
    crate::measure::lemma_div_close(a, t, 64, 64);
    crate::measure::lemma_mul_monotone(a.spec_div(t), t.spec_div(t), rd, 200);
    crate::measure::lemma_mul_by_one(rd, t.spec_div(t), 200);
    crate::measure::lemma_mul_monotone(z, a.spec_div(t), rd, 200);
    crate::measure::lemma_mul_whole(rd, z, d, 0, 200);
}

/// A critical hit gives a summoned fighter a fifth more, rounded down.
pub proof fn lemma_summon_critical(min: i32, max: i32, level: int)
    requires
        0 <= min <= max,
        0 <= level <= i32::MAX,
        6 * crate::power::summon_stat(min, max, level, false) <= 5 * i32::MAX,
    ensures
        5 * crate::power::summon_stat(min, max, level, true) <= 6 * crate::power::summon_stat(
            min,
            max,
            level,
            false,
        ) <= 5 * crate::power::summon_stat(min, max, level, true) + 5,
{
    let f = lemma_summon_steps(min, max, level);
}

/// Shields take their hundredths and their points off what is close to an
/// amount of damage.
pub(crate) proof fn lemma_shielded_close(
    d: Real,
    x: int,
    den: int,
    t: int,
    relative: int,
    absolute: int,
    k: int,
)
    requires
        d.within(k),
        0 <= k <= 10000,
        crate::measure::close(d, x, den, t),
        den >= 1,
        0 <= t <= 100,
        i32::MIN <= relative <= i32::MAX,
        i32::MIN <= absolute <= i32::MAX,
    ensures
        ({
            let r = crate::power::shielded(d, relative, absolute);
            let left = x * (100 - relative) - absolute * (100 * den * crate::measure::unit());
            let size = crate::map::abs(x) * (100 + crate::map::abs(relative)) + crate::map::abs(
                absolute,
            ) * (100 * den * crate::measure::unit());
            let felt = if left < 0 {
                0
            } else {
                left
            };
            &&& r.within(2 * k + 500)
            &&& r.units() >= 0
            &&& (100 * den * r.units() - felt) * 0x400_0000_0000 <= size
            &&& (felt - 100 * den * r.units()) * 0x400_0000_0000 <= size
        }),
{
    reveal(crate::power::shielded);
    let p = crate::measure::unit();
    lemma_pow2_pos(crate::measure::places());
    lemma_whole(relative);
    lemma_whole(absolute);
    let q = crate::power::real_of(relative).spec_div(crate::power::real_of(100));
    crate::measure::lemma_div_keeps_close(
        crate::power::real_of(relative),
        100,
        relative * p,
        1,
        0,
        64,
    );
    let m = d.spec_mul(q);
    crate::measure::lemma_mul_keeps_close(d, q, x, relative, den, 100, t, 1, k, 132);
    let a = crate::power::real_of(absolute);
    crate::measure::lemma_add_units(m, a, k + 136, 64);
    let s = m.spec_add(a);
    crate::measure::lemma_negate_units(s);
    crate::measure::lemma_add_units(d, s.spec_negate(), k, k + 260);
    let o = d.spec_sub(s);
    crate::measure::lemma_rounded_close(m.units() + absolute * p);
    crate::measure::lemma_rounded_close(d.units() - s.units());
    lemma_shield_amounts(
        den,
        t,
        relative,
        absolute,
        p,
        x,
        d.units(),
        m.units(),
        s.units(),
        o.units(),
    );
    crate::measure::lemma_sign_units(o);
    let r = crate::power::shielded(d, relative, absolute);
    assert(o.within(2 * k + 400));
    if o.neg {
        assert(r == crate::number::nearest(false, 0, 0));
        assert(0 * pow2(crate::measure::places()) == 0) by (nonlinear_arith);
        assert(r.units() == 0);
        assert(100 * den * r.units() == 0) by (nonlinear_arith)
            requires
                r.units() == 0,
        ;
    } else {
        assert(r == o);
    }
}

/// The steps behind shields in units: the damage `du`, the part `mu` that the
/// relative shield takes, what both take, and what is left.
proof fn lemma_shield_amounts(
    den: int,
    t: int,
    relative: int,
    absolute: int,
    p: int,
    x: int,
    du: int,
    mu: int,
    su: int,
    ou: int,
)
    requires
        den >= 1,
        0 <= t <= 100,
        p > 0,
        crate::map::abs(den * du - x) * 0x4_0000_0000_0000 <= t * crate::map::abs(x),
        crate::map::abs((den * 100) * mu - x * relative) * 0x4_0000_0000_0000 <= (t + 1 + 1)
            * crate::map::abs(x * relative),
        (su - (mu + absolute * p)) * TOP <= crate::map::abs(mu + absolute * p),
        ((mu + absolute * p) - su) * TOP <= crate::map::abs(mu + absolute * p),
        (ou - (du - su)) * TOP <= crate::map::abs(du - su),
        ((du - su) - ou) * TOP <= crate::map::abs(du - su),
    ensures
        ({
            let left = x * (100 - relative) - absolute * (100 * den * p);
            let size = crate::map::abs(x) * (100 + crate::map::abs(relative)) + crate::map::abs(
                absolute,
            ) * (100 * den * p);
            &&& (100 * den * ou - left) * 0x400_0000_0000 <= size
            &&& (left - 100 * den * ou) * 0x400_0000_0000 <= size
            &&& ou < 0 ==> 100 * den * ou < 0
            &&& ou >= 0 ==> 100 * den * ou >= 0
        }),
{
    let c = 100 * den;
    let y = x * relative;
    let g = absolute * (c * p);
    let cm = c * mu;
    let e1 = mu + absolute * p;
    let e2 = du - su;
    let cs = c * su;
    let cd = c * du;
    let co = c * ou;
    let ax = crate::map::abs(x);
    let ay = crate::map::abs(y);
    assert(crate::map::abs(cs - (cm + g)) * TOP <= crate::map::abs(cm + g)) by {
        assert(c * e1 == cm + g) by (nonlinear_arith)
            requires
                e1 == mu + absolute * p,
                cm == c * mu,
                g == absolute * (c * p),
        ;
        lemma_scaled_error(c, su, e1);
    }
    assert(crate::map::abs(co - (cd - cs)) * TOP <= crate::map::abs(cd - cs)) by {
        assert(c * e2 == cd - cs) by (nonlinear_arith)
            requires
                e2 == du - su,
                cd == c * du,
                cs == c * su,
        ;
        lemma_scaled_error(c, ou, e2);
    }
    assert(crate::map::abs(cm - y) * 0x4_0000_0000_0000 <= 102 * ay) by {
        assert((t + 1 + 1) * ay <= 102 * ay) by (nonlinear_arith)
            requires
                t <= 100,
                ay >= 0,
        ;
        assert((den * 100) * mu == cm) by (nonlinear_arith)
            requires
                cm == c * mu,
                c == 100 * den,
        ;
    }
    assert(crate::map::abs(cd - 100 * x) * 0x4_0000_0000_0000 <= 10000 * ax) by {
        assert(t * ax <= 100 * ax) by (nonlinear_arith)
            requires
                t <= 100,
                ax >= 0,
        ;
        assert(cd == 100 * (den * du)) by (nonlinear_arith)
            requires
                cd == c * du,
                c == 100 * den,
        ;
    }
    lemma_shield_errors(cm, y, cd, x, g, cs, co);
    let left = x * (100 - relative) - absolute * (100 * den * p);
    let size = ax * (100 + crate::map::abs(relative)) + crate::map::abs(absolute) * (100 * den * p);
    assert(left == 100 * x - y - g) by (nonlinear_arith)
        requires
            left == x * (100 - relative) - absolute * (100 * den * p),
            y == x * relative,
            g == absolute * ((100 * den) * p),
    ;
    assert(size == 100 * ax + ay + crate::map::abs(g)) by {
        assert(c * p > 0) by (nonlinear_arith)
            requires
                c >= 100,
                p > 0,
        ;
        assert(crate::map::abs(g) == crate::map::abs(absolute) * (c * p)) by (nonlinear_arith)
            requires
                g == absolute * (c * p),
                c * p > 0,
        ;
        assert(ay == ax * crate::map::abs(relative)) by (nonlinear_arith)
            requires
                ay == crate::map::abs(x * relative),
                ax == crate::map::abs(x),
        ;
        assert(ax * (100 + crate::map::abs(relative)) == 100 * ax + ay) by (nonlinear_arith)
            requires
                ay == ax * crate::map::abs(relative),
        ;
    }
    assert(ou < 0 ==> co < 0) by (nonlinear_arith)
        requires
            co == c * ou,
            c >= 100,
    ;
    assert(ou >= 0 ==> co >= 0) by (nonlinear_arith)
        requires
            co == c * ou,
            c >= 100,
    ;
}

/// The errors of the steps behind shields, added up.
proof fn lemma_shield_errors(cm: int, y: int, cd: int, x: int, g: int, cs: int, co: int)
    requires
        crate::map::abs(cm - y) * 0x4_0000_0000_0000 <= 102 * crate::map::abs(y),
        crate::map::abs(cd - 100 * x) * 0x4_0000_0000_0000 <= 10000 * crate::map::abs(x),
        crate::map::abs(cs - (cm + g)) * TOP <= crate::map::abs(cm + g),
        crate::map::abs(co - (cd - cs)) * TOP <= crate::map::abs(cd - cs),
    ensures
        crate::map::abs(co - (100 * x - y - g)) * 0x400_0000_0000 <= 100 * crate::map::abs(x)
            + crate::map::abs(y) + crate::map::abs(g),
{
}

/// The error of rounding, in other units.
proof fn lemma_scaled_error(c: int, r: int, e: int)
    requires
        c >= 1,
        (r - e) * TOP <= crate::map::abs(e),
        (e - r) * TOP <= crate::map::abs(e),
    ensures
        (c * r - c * e) * TOP <= crate::map::abs(c * e),
        (c * e - c * r) * TOP <= crate::map::abs(c * e),
{
    assert(crate::map::abs(c * e) == c * crate::map::abs(e)) by (nonlinear_arith)
        requires
            c >= 1,
    ;
    let a = crate::map::abs(e);
    assert((c * r - c * e) * TOP <= c * a && (c * e - c * r) * TOP <= c * a) by (nonlinear_arith)
        requires
            (r - e) * TOP <= a,
            (e - r) * TOP <= a,
            c >= 1,
    ;
}

/// What passes the shields: the damage without as many hundredths as the
/// relative shield, and without the points of the absolute one, and never less
/// than nothing, as a whole number.
pub proof fn lemma_shielded_value(
    d: Real,
    n: int,
    den: int,
    t: int,
    relative: int,
    absolute: int,
)
    requires
        d.within(1000),
        crate::measure::close(d, n * crate::measure::unit(), den, t),
        den >= 1,
        0 <= t <= 100,
        i32::MIN <= relative <= i32::MAX,
        i32::MIN <= absolute <= i32::MAX,
        crate::map::abs(n) * (100 + crate::map::abs(relative)) + crate::map::abs(absolute) * (100
            * den) <= 0x7fff_0000 * (100 * den),
    ensures
        ({
            let left = n * (100 - relative) - absolute * (100 * den);
            crate::measure::is_nearest(
                crate::power::whole(crate::power::shielded(d, relative, absolute)),
                if left < 0 {
                    0
                } else {
                    left
                },
                100 * den,
                crate::map::abs(n) * (100 + crate::map::abs(relative)) + crate::map::abs(absolute)
                    * (100 * den),
            )
        }),
        crate::power::whole(crate::power::shielded(d, relative, absolute)) >= 0,
{
    reveal(crate::power::whole);
    let p = crate::measure::unit();
    lemma_pow2_pos(crate::measure::places());
    let x = n * p;
    lemma_shielded_close(d, x, den, t, relative, absolute, 1000);
    let r = crate::power::shielded(d, relative, absolute);
    let c = 100 * den;
    let cp = c * p;
    let u = r.units();
    let ar = crate::map::abs(relative);
    let an = crate::map::abs(n);
    let aa = crate::map::abs(absolute);
    assert(crate::map::abs(x) == an * p) by (nonlinear_arith)
        requires
            x == n * p,
            an == crate::map::abs(n),
            p > 0,
    ;
    let size = an * (100 + ar) + aa * c;
    let big = crate::map::abs(x) * (100 + ar) + aa * (100 * den * p);
    assert(big == size * p) by (nonlinear_arith)
        requires
            big == (an * p) * (100 + ar) + aa * (c * p),
            size == an * (100 + ar) + aa * c,
    ;
    let left = n * (100 - relative) - absolute * c;
    let bl = x * (100 - relative) - absolute * (100 * den * p);
    assert(bl == left * p) by (nonlinear_arith)
        requires
            bl == (n * p) * (100 - relative) - absolute * (c * p),
            left == n * (100 - relative) - absolute * c,
    ;
    let felt = if left < 0 {
        0
    } else {
        left
    };
    let bf = if bl < 0 {
        0
    } else {
        bl
    };
    assert(bf == felt * p) by (nonlinear_arith)
        requires
            bl == left * p,
            p > 0,
            felt == if left < 0 {
                0
            } else {
                left
            },
            bf == if bl < 0 {
                0
            } else {
                bl
            },
    ;
    assert(felt <= size) by {
        assert(n * (100 - relative) <= an * (100 + ar)) by (nonlinear_arith)
            requires
                an == crate::map::abs(n),
                ar == crate::map::abs(relative),
        ;
        assert(-(absolute * c) <= aa * c) by (nonlinear_arith)
            requires
                aa == crate::map::abs(absolute),
                c >= 1,
        ;
        assert(0 <= an * (100 + ar)) by (nonlinear_arith)
            requires
                an >= 0,
                ar >= 0,
        ;
        assert(0 <= aa * c) by (nonlinear_arith)
            requires
                aa >= 0,
                c >= 1,
        ;
    }
    let sp = size * p;
    assert(0 <= sp && bf <= sp) by (nonlinear_arith)
        requires
            sp == size * p,
            bf == felt * p,
            0 <= felt <= size,
            p > 0,
    ;
    assert(sp <= 0x7fff_0000 * cp) by (nonlinear_arith)
        requires
            sp == size * p,
            cp == c * p,
            size <= 0x7fff_0000 * c,
            p > 0,
    ;
    assert(cp > 0) by (nonlinear_arith)
        requires
            cp == c * p,
            c >= 100,
            p > 0,
    ;
    let cu = c * u;
    assert(100 * den * u == cu);
    assert(0 <= cu <= 0x7fff_0001 * cp) by {
        assert(cu >= 0) by (nonlinear_arith)
            requires
                cu == c * u,
                c >= 1,
                u >= 0,
        ;
    }
    assert(0 <= u <= 0x7fff_0001 * p) by (nonlinear_arith)
        requires
            0 <= c * u <= 0x7fff_0001 * (c * p),
            c >= 1,
            u >= 0,
    ;
    crate::measure::lemma_round32_units(r, 2500);
    let z = r.spec_round32();
    let h = 2 * (z * p - u);
    assert((2 * z - 1) * p == 2 * (z * p) - p) by (nonlinear_arith);
    assert((2 * z + 1) * p == 2 * (z * p) + p) by (nonlinear_arith);
    assert(-p <= h <= p);
    let w = c * z - felt;
    let wp = w * p;
    assert(2 * wp == c * h + 2 * (cu - bf)) by (nonlinear_arith)
        requires
            wp == w * p,
            w == c * z - felt,
            h == 2 * (z * p - u),
            cu == c * u,
            bf == felt * p,
    ;
    assert(-cp <= c * h <= cp) by (nonlinear_arith)
        requires
            -p <= h <= p,
            cp == c * p,
            c >= 1,
    ;
    let k = 0x100_0000_0000int;
    assert(2 * wp * k <= cp * k + sp && -(2 * wp * k) <= cp * k + sp);
    assert(2 * w * k <= c * k + size && -2 * w * k <= c * k + size) by (nonlinear_arith)
        requires
            2 * (w * p) * k <= (c * p) * k + size * p,
            -(2 * (w * p) * k) <= (c * p) * k + size * p,
            p > 0,
    ;
    assert(z >= 0) by (nonlinear_arith)
        requires
            u >= 0,
            2 * u < (2 * z + 1) * p,
            p > 0,
    ;
}

/// Nothing stays nothing behind shields.
pub proof fn lemma_shield_of_nothing(relative: int, absolute: int)
    requires
        i32::MIN <= relative <= i32::MAX,
        0 <= absolute <= i32::MAX,
    ensures
        crate::power::whole(
            crate::power::shielded(crate::number::nearest(false, 0, 0), relative, absolute),
        ) == 0,
{
    reveal(crate::power::shielded);
    reveal(crate::power::whole);
    let p = crate::measure::unit();
    lemma_pow2_pos(crate::measure::places());
    let z = crate::power::real_of(0);
    lemma_whole(0);
    lemma_whole(relative);
    lemma_whole(absolute);
    assert(0 * p == 0);
    let q = crate::power::real_of(relative).spec_div(crate::power::real_of(100));
    assert(0 * crate::map::abs(relative * p) == 0) by (nonlinear_arith);
    crate::measure::lemma_div_keeps_close(
        crate::power::real_of(relative),
        100,
        relative * p,
        1,
        0,
        64,
    );
    crate::measure::lemma_mul_units(z, q, 64, 132);
    let m = z.spec_mul(q);
    assert(m.mant == 0);
    let a = crate::power::real_of(absolute);
    crate::measure::lemma_int_units(absolute);
    let s = m.spec_add(a);
    assert(s == a);
    let o = z.spec_sub(s);
    assert(o == s.spec_negate());
    crate::measure::lemma_int_units(0);
    crate::measure::lemma_round32_units(z, 64);
    assert(o.spec_at_least_zero() == z);
}

/// The rate of erosion: 5 hundredths, 10 of poison, and 10 more after a
/// critical hit.
pub(crate) proof fn lemma_erosion_rate(poison: bool, critical: bool)
    ensures
        crate::measure::close(
            crate::power::erosion_rate(poison, critical),
            ((if poison {
                10int
            } else {
                5
            }) + if critical {
                10int
            } else {
                0
            }) * crate::measure::unit(),
            100,
            3,
        ),
        crate::power::erosion_rate(poison, critical).within(80),
{
    let p = crate::measure::unit();
    lemma_pow2_pos(crate::measure::places());
    lemma2_to64();
    lemma2_to64_rest();
    lemma_pow2_adds(52, 4);
    lemma_pow2_adds(52, 5);
    let a = crate::power::erosion_of_damage();
    let b = crate::power::erosion_of_poison();
    lemma_constant(a, 57, 5, 100);
    lemma_constant(b, 56, 10, 100);
    crate::measure::lemma_add_units(a, b, 10, 10);
    crate::measure::lemma_add_units(b, b, 10, 10);
    crate::measure::lemma_rounded_close(a.units() + b.units());
    crate::measure::lemma_rounded_close(b.units() + b.units());
    let rate = (if poison {
        10int
    } else {
        5
    }) + if critical {
        10int
    } else {
        0
    };
    crate::measure::lemma_sign_units(a);
    crate::measure::lemma_sign_units(b);
    assert(rate * p == if poison {
        if critical {
            20 * p
        } else {
            10 * p
        }
    } else {
        if critical {
            15 * p
        } else {
            5 * p
        }
    });
}

/// The part of damage that wears off the total life: 5 hundredths, 10 of poison,
/// and 10 more after a critical hit.
pub proof fn lemma_erosion(value: int, poison: bool, critical: bool)
    requires
        i32::MIN <= value <= i32::MAX,
    ensures
        ({
            let rate = (if poison {
                10int
            } else {
                5
            }) + if critical {
                10int
            } else {
                0
            };
            crate::measure::is_nearest(
                crate::power::eroded(value, crate::power::erosion_rate(poison, critical)),
                value * rate,
                100,
                crate::map::abs(value * rate),
            )
        }),
{
    reveal(crate::power::eroded);
    let p = crate::measure::unit();
    lemma_pow2_pos(crate::measure::places());
    lemma_whole(value);
    let rate = (if poison {
        10int
    } else {
        5
    }) + if critical {
        10int
    } else {
        0
    };
    let r = crate::power::erosion_rate(poison, critical);
    lemma_erosion_rate(poison, critical);
    crate::measure::lemma_mul_keeps_close(
        crate::power::real_of(value),
        r,
        value * p,
        rate,
        1,
        100,
        0,
        3,
        64,
        80,
    );
    let n = value * rate;
    assert((value * p) * rate == n * p) by (nonlinear_arith)
        requires
            n == value * rate,
    ;
    assert(-0x7fff_0000 * 100 <= n <= 0x7fff_0000 * 100) by (nonlinear_arith)
        requires
            n == value * rate,
            -0x8000_0000 <= value <= 0x7fff_ffff,
            0 <= rate <= 20,
    ;
    crate::measure::lemma_round_is_nearest(
        crate::power::real_of(value).spec_mul(r),
        n,
        100,
        4,
        200,
    );
}

/// The part of damage that comes to the caster as life: as many thousandths as
/// its wisdom.
pub proof fn lemma_stolen(value: int, wisdom: int)
    requires
        i32::MIN <= value <= i32::MAX,
        i32::MIN <= wisdom <= i32::MAX,
        crate::map::abs(value * wisdom) <= 0x7fff_0000 * 1000,
    ensures
        crate::measure::is_nearest(
            crate::power::stolen(value, wisdom),
            value * wisdom,
            1000,
            crate::map::abs(value * wisdom),
        ),
{
    reveal(crate::power::stolen);
    let p = crate::measure::unit();
    lemma_whole(value);
    lemma_whole(wisdom);
    let a = crate::power::real_of(value);
    crate::measure::lemma_mul_keeps_close(
        a,
        crate::power::real_of(wisdom),
        value * p,
        wisdom,
        1,
        1,
        0,
        0,
        64,
        64,
    );
    let m = a.spec_mul(crate::power::real_of(wisdom));
    let n = value * wisdom;
    assert((value * p) * wisdom == n * p) by (nonlinear_arith)
        requires
            n == value * wisdom,
    ;
    crate::measure::lemma_div_keeps_close(m, 1000, n * p, 1, 1, 132);
    crate::measure::lemma_round_is_nearest(
        m.spec_div(crate::power::real_of(1000)),
        n,
        1000,
        2,
        300,
    );
}

/// The damage that goes back to the caster: as many hundredths as the target
/// returns.
pub proof fn lemma_returned(d: Real, x: int, den: int, t: int, share: int)
    requires
        d.within(1000),
        crate::measure::close(d, x * crate::measure::unit(), den, t),
        den >= 1,
        0 <= t <= 100,
        i32::MIN <= share <= i32::MAX,
        crate::map::abs(x * share) <= 0x7fff_0000 * (den * 100),
    ensures
        crate::measure::is_nearest(
            crate::power::returned(d, share),
            x * share,
            den * 100,
            crate::map::abs(x * share),
        ),
{
    reveal(crate::power::returned);
    let p = crate::measure::unit();
    lemma_whole(share);
    crate::measure::lemma_mul_keeps_close(
        d,
        crate::power::real_of(share),
        x * p,
        share,
        den,
        1,
        t,
        0,
        1000,
        64,
    );
    let m = d.spec_mul(crate::power::real_of(share));
    let n = x * share;
    assert((x * p) * share == n * p) by (nonlinear_arith)
        requires
            n == x * share,
    ;
    assert(den * 1 == den);
    crate::measure::lemma_div_keeps_close(m, 100, n * p, den, t + 1, 1100);
    crate::measure::lemma_round_is_nearest(
        m.spec_div(crate::power::real_of(100)),
        n,
        den * 100,
        t + 2,
        1200,
    );
}

/// The life that a fighter is brought back with: half of a total, or 1.3 times
/// that after a critical hit.
pub proof fn lemma_revived(total: int, critical: bool)
    requires
        i32::MIN <= total <= i32::MAX,
    ensures
        crate::measure::is_nearest(
            crate::power::revived(total, critical),
            total * hit_parts(critical),
            20,
            crate::map::abs(total * hit_parts(critical)),
        ),
{
    reveal(crate::power::revived);
    let p = crate::measure::unit();
    lemma2_to64();
    lemma2_to64_rest();
    lemma_whole(total);
    lemma_hit(critical);
    let a = crate::power::real_of(total);
    let b = crate::power::half();
    lemma_constant(b, 53, 1, 2);
    crate::measure::lemma_mul_keeps_close(a, b, total * p, 1, 1, 2, 0, 1, 64, 4);
    let h = hit_parts(critical);
    crate::measure::lemma_mul_keeps_close(
        a.spec_mul(b),
        crate::power::hit_factor(critical),
        (total * p) * 1,
        h,
        2,
        10,
        2,
        1,
        72,
        4,
    );
    let n = total * h;
    assert(((total * p) * 1) * h == n * p) by (nonlinear_arith)
        requires
            n == total * h,
    ;
    assert(-0x7fff_0000 * 20 <= n <= 0x7fff_0000 * 20) by (nonlinear_arith)
        requires
            n == total * h,
            -0x8000_0000 <= total <= 0x7fff_ffff,
            10 <= h <= 13,
    ;
    crate::measure::lemma_round_is_nearest(
        a.spec_mul(b).spec_mul(crate::power::hit_factor(critical)),
        n,
        20,
        4,
        100,
    );
}

/// A draw out of 65536 makes a critical hit exactly when it is a smaller part
/// than agility is of 1000.
pub proof fn lemma_critical_chance(draw: int, agility: int)
    requires
        0 <= draw <= 65536,
        i32::MIN <= agility <= i32::MAX,
    ensures
        crate::power::hits_critically(draw, agility) <==> 1000 * draw < 65536 * agility,
{
    reveal(crate::power::hits_critically);
    let p = crate::measure::unit();
    lemma_pow2_pos(crate::measure::places());
    lemma2_to64();
    lemma2_to64_rest();
    let w = pow2((crate::measure::places() - 16) as nat);
    lemma_pow2_adds(16, (crate::measure::places() - 16) as nat);
    assert(p == 65536 * w);
    let jet = crate::power::chance(draw);
    crate::measure::lemma_nearest_units(false, draw as nat, -16, 1);
    crate::measure::lemma_rounded_exact(draw, (crate::measure::places() - 16) as nat);
    assert(jet.units() == draw * w);
    lemma_whole(agility);
    let a = crate::power::real_of(agility);
    crate::measure::lemma_div_keeps_close(a, 1000, agility * p, 1, 0, 64);
    let q = a.spec_div(crate::power::real_of(1000));
    crate::measure::lemma_less_units(jet, q, 200);
    let u = q.units();
    let ag = crate::map::abs(agility);
    assert(agility * p == 65536 * (agility * w)) by (nonlinear_arith)
        requires
            p == 65536 * w,
    ;
    let z = agility * w;
    assert(crate::map::abs(z) <= 0x8000_0000 * w) by (nonlinear_arith)
        requires
            z == agility * w,
            -0x8000_0000 <= agility <= 0x7fff_ffff,
            w > 0,
    ;
    // in units of a 65536th
    let g = 1000 * u - 65536 * z;
    assert(-w < 2 * g && 2 * g < w);
    let e = 65536 * agility - 1000 * draw;
    assert(1000 * (u - draw * w) == e * w + g) by (nonlinear_arith)
        requires
            g == 1000 * u - 65536 * z,
            z == agility * w,
            e == 65536 * agility - 1000 * draw,
    ;
    assert(e > 0 ==> e * w >= w) by (nonlinear_arith)
        requires
            w > 0,
    ;
    assert(e < 0 ==> e * w <= -w) by (nonlinear_arith)
        requires
            w > 0,
    ;
    if e == 0 {
        lemma_equal_chance(draw, agility);
    }
}

/// A chance that agility meets exactly.
proof fn lemma_equal_chance(draw: int, agility: int)
    requires
        0 <= draw <= 65536,
        i32::MIN <= agility <= i32::MAX,
        1000 * draw == 65536 * agility,
    ensures
        crate::power::real_of(agility).spec_div(crate::power::real_of(1000)).units()
            == crate::power::chance(draw).units(),
{
    let p = crate::measure::unit();
    lemma_pow2_pos(crate::measure::places());
    lemma2_to64();
    lemma2_to64_rest();
    let w = pow2((crate::measure::places() - 16) as nat);
    lemma_pow2_adds(16, (crate::measure::places() - 16) as nat);
    lemma_pow2_pos((crate::measure::places() - 16) as nat);
    crate::measure::lemma_nearest_units(false, draw as nat, -16, 1);
    crate::measure::lemma_rounded_exact(draw, (crate::measure::places() - 16) as nat);
    lemma_whole(agility);
    lemma_whole(1000);
    crate::measure::lemma_int_units(1000);
    assert(agility * p == 65536 * (agility * w)) by (nonlinear_arith)
        requires
            p == 65536 * w,
    ;
    assert(65536 * (agility * w) == 1000 * (draw * w)) by (nonlinear_arith)
        requires
            1000 * draw == 65536 * agility,
    ;
    let a = crate::power::real_of(agility);
    let b = crate::power::real_of(1000);
    assert(a.units() * p == (draw * w) * b.units()) by (nonlinear_arith)
        requires
            a.units() == 1000 * (draw * w),
            b.units() == 1000 * p,
    ;
    crate::measure::lemma_div_exact_units(
        a,
        b,
        draw,
        (crate::measure::places() - 16) as nat,
        64,
        64,
    );
}

/// Damage measured by the life of the caster, before any shield: as many
/// hundredths of the life as the value, times 1 and as many hundredths as power,
/// less a fifth for every cell of distance, and 1.3 times that for a critical
/// hit.
pub proof fn lemma_raw_life_damage(
    v1: int,
    v2: int,
    draw: int,
    life: int,
    distance: int,
    critical: bool,
    power: int,
)
    requires
        ordinary(v1, v2, draw),
        i32::MIN <= life <= i32::MAX,
        i32::MIN <= power <= i32::MAX,
        0 <= distance <= i32::MAX,
    ensures
        ({
            let n = roll_parts(v1, v2, draw) * life * (5 - distance) * hit_parts(critical) * (100
                + power);
            let r = crate::power::raw_life_damage(
                crate::power::real_of(v1),
                crate::power::real_of(v2),
                crate::power::chance(draw),
                life,
                crate::power::spread(distance),
                critical,
                power,
            );
            &&& crate::measure::close(r, n * crate::measure::unit(), 65536int * 500000, 60)
            &&& r.within(1000)
        }),
{
    reveal(crate::power::raw_life_damage);
    let p = crate::measure::unit();
    lemma_roll(v1, v2, draw);
    lemma_whole(life);
    lemma_percent(power);
    lemma_power_falls_by_fifths(distance);
    lemma_hit(critical);
    let n = roll_parts(v1, v2, draw);
    let a = crate::power::roll(
        crate::power::real_of(v1),
        crate::power::real_of(v2),
        crate::power::chance(draw),
    );
    crate::measure::lemma_div_keeps_close(a, 100, n * p, 65536, 0, 300);
    let b = a.spec_div(crate::power::real_of(100));
    crate::measure::lemma_mul_keeps_close(
        b,
        crate::power::real_of(life),
        n * p,
        life,
        6553600,
        1,
        1,
        0,
        368,
        64,
    );
    let c = b.spec_mul(crate::power::real_of(life));
    let d = 5 - distance;
    crate::measure::lemma_mul_keeps_close(
        c,
        crate::power::spread(distance),
        (n * p) * life,
        d,
        6553600,
        5,
        2,
        14,
        436,
        200,
    );
    let e = c.spec_mul(crate::power::spread(distance));
    let h = hit_parts(critical);
    crate::measure::lemma_mul_keeps_close(
        e,
        crate::power::hit_factor(critical),
        ((n * p) * life) * d,
        h,
        32768000,
        10,
        17,
        1,
        640,
        4,
    );
    let f = e.spec_mul(crate::power::hit_factor(critical));
    let q = 100 + power;
    crate::measure::lemma_mul_keeps_close(
        f,
        crate::power::percent(power),
        (((n * p) * life) * d) * h,
        q,
        327680000,
        100,
        19,
        30,
        648,
        200,
    );
    let all = n * life * d * h * q;
    assert(((((n * p) * life) * d) * h) * q == all * p) by (nonlinear_arith)
        requires
            all == n * life * d * h * q,
    ;
    lemma_closer(f.spec_mul(crate::power::percent(power)), all * p, 65536int * 500000, 50, 60);
}

proof fn lemma_closer(a: Real, x: int, den: int, t: int, more: int)
    requires
        crate::measure::close(a, x, den, t),
        t <= more,
    ensures
        crate::measure::close(a, x, den, more),
{
    let ax = crate::map::abs(x);
    assert(t * ax <= more * ax) by (nonlinear_arith)
        requires
            t <= more,
            ax >= 0,
    ;
}

/// Points that grow with the number of targets alone, and with a critical hit.
pub proof fn lemma_raw_points(v1: int, v2: int, draw: int, critical: bool, count: int)
    requires
        ordinary(v1, v2, draw),
        i32::MIN <= count <= i32::MAX,
        crate::map::abs(roll_parts(v1, v2, draw) * count * hit_parts(critical)) <= 0x7fff_0000
            * 655360,
    ensures
        crate::measure::is_nearest(
            crate::power::raw_points(
                crate::power::real_of(v1),
                crate::power::real_of(v2),
                crate::power::chance(draw),
                critical,
                count,
            ),
            roll_parts(v1, v2, draw) * count * hit_parts(critical),
            655360,
            crate::map::abs(roll_parts(v1, v2, draw) * count * hit_parts(critical)),
        ),
{
    reveal(crate::power::raw_points);
    let p = crate::measure::unit();
    lemma_roll(v1, v2, draw);
    lemma_whole(count);
    lemma_hit(critical);
    let n = roll_parts(v1, v2, draw);
    let h = hit_parts(critical);
    let a = crate::power::roll(
        crate::power::real_of(v1),
        crate::power::real_of(v2),
        crate::power::chance(draw),
    );
    crate::measure::lemma_mul_keeps_close(
        a,
        crate::power::real_of(count),
        n * p,
        count,
        65536,
        1,
        0,
        0,
        300,
        64,
    );
    let b = a.spec_mul(crate::power::real_of(count));
    crate::measure::lemma_mul_keeps_close(
        b,
        crate::power::hit_factor(critical),
        (n * p) * count,
        h,
        65536,
        10,
        1,
        1,
        368,
        4,
    );
    assert(((n * p) * count) * h == n * count * h * p) by (nonlinear_arith);
    crate::measure::lemma_round_is_nearest(
        b.spec_mul(crate::power::hit_factor(critical)),
        n * count * h,
        655360,
        3,
        400,
    );
}

/// Healing that grows with no characteristic.
pub proof fn lemma_raw_healing(
    v1: int,
    v2: int,
    draw: int,
    distance: int,
    critical: bool,
    count: int,
)
    requires
        ordinary(v1, v2, draw),
        i32::MIN <= count <= i32::MAX,
        0 <= distance <= i32::MAX,
        crate::map::abs(
            roll_parts(v1, v2, draw) * (5 - distance) * hit_parts(critical) * count,
        ) <= 0x7fff_0000 * 3276800,
    ensures
        crate::measure::is_nearest(
            crate::power::raw_healing(
                crate::power::real_of(v1),
                crate::power::real_of(v2),
                crate::power::chance(draw),
                crate::power::spread(distance),
                critical,
                count,
            ),
            roll_parts(v1, v2, draw) * (5 - distance) * hit_parts(critical) * count,
            3276800,
            crate::map::abs(
                roll_parts(v1, v2, draw) * (5 - distance) * hit_parts(critical) * count,
            ),
        ),
{
    reveal(crate::power::raw_healing);
    let r = lemma_plain(v1, v2, draw, distance, critical, count);
    crate::measure::lemma_round_is_nearest(
        r,
        roll_parts(v1, v2, draw) * (5 - distance) * hit_parts(critical) * count,
        3276800,
        20,
        700,
    );
}

/// The share that a debuff takes, in hundredths: its value, less a fifth for
/// every cell of distance, 1.3 times that for a critical hit, and times the
/// number of targets, without its fraction.
pub proof fn lemma_debuff(
    v1: int,
    v2: int,
    draw: int,
    distance: int,
    critical: bool,
    count: int,
)
    requires
        ordinary(v1, v2, draw),
        0 <= roll_parts(v1, v2, draw),
        0 <= count <= i32::MAX,
        0 <= distance <= 5,
        roll_parts(v1, v2, draw) * (5 - distance) * hit_parts(critical) * count <= 0x7fff_0000
            * 3276800,
    ensures
        crate::measure::is_floor(
            crate::power::debuff(
                crate::power::real_of(v1),
                crate::power::real_of(v2),
                crate::power::chance(draw),
                crate::power::spread(distance),
                critical,
                count,
            ),
            roll_parts(v1, v2, draw) * (5 - distance) * hit_parts(critical) * count,
            3276800,
            crate::map::abs(
                roll_parts(v1, v2, draw) * (5 - distance) * hit_parts(critical) * count,
            ),
        ),
{
    reveal(crate::power::debuff);
    let p = crate::measure::unit();
    lemma_pow2_pos(crate::measure::places());
    let r = lemma_plain(v1, v2, draw, distance, critical, count);
    let m = roll_parts(v1, v2, draw) * (5 - distance) * hit_parts(critical);
    let n = m * count;
    assert(m >= 0) by (nonlinear_arith)
        requires
            m == roll_parts(v1, v2, draw) * (5 - distance) * hit_parts(critical),
            roll_parts(v1, v2, draw) >= 0,
            5 - distance >= 0,
            hit_parts(critical) >= 0,
    ;
    assert(n >= 0) by (nonlinear_arith)
        requires
            n == m * count,
            m >= 0,
            count >= 0,
    ;
    let np = n * p;
    assert(np >= 0) by (nonlinear_arith)
        requires
            np == n * p,
            n >= 0,
            p > 0,
    ;
    assert(r.units() >= 0) by {
        if r.units() < 0 {
            assert((np - 3276800 * r.units()) * 0x4_0000_0000_0000 <= 20 * np);
        }
    }
    crate::measure::lemma_trunc_is_floor(r, n, 3276800, 20, 700);
    let f = r.spec_trunc();
    assert(0 <= f <= i32::MAX);
}

/// A value, the distance, a critical hit and the number of targets together.
proof fn lemma_plain(
    v1: int,
    v2: int,
    draw: int,
    distance: int,
    critical: bool,
    count: int,
) -> (r: Real)
    requires
        ordinary(v1, v2, draw),
        i32::MIN <= count <= i32::MAX,
        0 <= distance <= i32::MAX,
    ensures
        r == crate::power::roll(
            crate::power::real_of(v1),
            crate::power::real_of(v2),
            crate::power::chance(draw),
        ).spec_mul(crate::power::spread(distance)).spec_mul(
            crate::power::hit_factor(critical),
        ).spec_mul(crate::power::real_of(count)),
        r.within(700),
        crate::measure::close(
            r,
            roll_parts(v1, v2, draw) * (5 - distance) * hit_parts(critical) * count
                * crate::measure::unit(),
            3276800,
            20,
        ),
{
    let p = crate::measure::unit();
    lemma_roll(v1, v2, draw);
    lemma_whole(count);
    lemma_hit(critical);
    lemma_power_falls_by_fifths(distance);
    let n = roll_parts(v1, v2, draw);
    let h = hit_parts(critical);
    let d = 5 - distance;
    let a = crate::power::roll(
        crate::power::real_of(v1),
        crate::power::real_of(v2),
        crate::power::chance(draw),
    );
    crate::measure::lemma_mul_keeps_close(
        a,
        crate::power::spread(distance),
        n * p,
        d,
        65536,
        5,
        0,
        14,
        300,
        200,
    );
    let b = a.spec_mul(crate::power::spread(distance));
    crate::measure::lemma_mul_keeps_close(
        b,
        crate::power::hit_factor(critical),
        (n * p) * d,
        h,
        327680,
        10,
        15,
        1,
        504,
        4,
    );
    let c = b.spec_mul(crate::power::hit_factor(critical));
    crate::measure::lemma_mul_keeps_close(
        c,
        crate::power::real_of(count),
        ((n * p) * d) * h,
        count,
        3276800,
        1,
        17,
        0,
        512,
        64,
    );
    let r = c.spec_mul(crate::power::real_of(count));
    assert((((n * p) * d) * h) * count == n * d * h * count * p) by (nonlinear_arith);
    lemma_closer(r, n * d * h * count * p, 3276800, 18, 20);
    r
}

/// Of a value, a share of `share` hundredths is taken away: all of it from 100
/// on, and none at 0.
pub proof fn lemma_reduced(value: int, share: int)
    requires
        i32::MIN <= value <= i32::MAX,
        0 <= share <= i32::MAX,
        value * 100 <= 0x7fff_0000 * 100,
        -0x7fff_0000 * 100 <= value * 100,
    ensures
        share >= 100 ==> crate::power::reduced(value, crate::power::remainder(share)) == 0,
        share <= 100 ==> crate::measure::is_nearest(
            crate::power::reduced(value, crate::power::remainder(share)),
            value * (100 - share),
            100,
            crate::map::abs(value * (100 - share)),
        ),
{
    reveal(crate::power::reduced);
    reveal(crate::power::remainder);
    let p = crate::measure::unit();
    lemma_pow2_pos(crate::measure::places());
    lemma_one();
    lemma_whole(share);
    lemma_whole(100);
    lemma_whole(value);
    crate::measure::lemma_int_units(100);
    let a = crate::power::real_of(share);
    let b = crate::power::real_of(100);
    let q = a.spec_div(b);
    crate::measure::lemma_div_keeps_close(a, 100, share * p, 1, 0, 64);
    crate::measure::lemma_negate_units(q);
    crate::measure::lemma_add_units(crate::power::one(), q.spec_negate(), 4, 132);
    let o = crate::power::one().spec_sub(q);
    let e = p - q.units();
    crate::measure::lemma_rounded_close(e);
    crate::measure::lemma_sign_units(o);
    let sp = share * p;
    assert(sp >= 0) by (nonlinear_arith)
        requires
            sp == share * p,
            share >= 0,
            p > 0,
    ;
    let part = crate::power::remainder(share);
    if share >= 100 {
        assert(100 * p <= share * p) by (nonlinear_arith)
            requires
                share >= 100,
                p > 0,
        ;
        crate::measure::lemma_div_monotone(b, a, b, 64);
        assert(100 * p == 1 * (100 * p));
        crate::measure::lemma_div_exact(b, b, 1, 64, 64);
        assert(e <= 0);
        crate::measure::lemma_rounded_monotone(e, 0);
        assert(part.mant == 0);
        crate::measure::lemma_mul_units(crate::power::real_of(value), part, 64, 200);
        let r = crate::power::real_of(value).spec_mul(part);
        crate::measure::lemma_sign_units(r);
        assert(r.units() == 0 * p);
        crate::measure::lemma_round32_units(r, 300);
        if share == 100 {
            assert(value * 0 == 0);
        }
    } else {
        let y = (100 - share) * p;
        assert(y == 100 * p - sp) by (nonlinear_arith)
            requires
                y == (100 - share) * p,
                sp == share * p,
        ;
        assert(sp <= 99 * y) by (nonlinear_arith)
            requires
                y == (100 - share) * p,
                sp == share * p,
                0 <= share <= 99,
                p > 0,
        ;
        assert(y > 0) by (nonlinear_arith)
            requires
                y == (100 - share) * p,
                share <= 99,
                p > 0,
        ;
        assert(crate::measure::close(o, y, 100, 110));
        assert(o.units() >= 0);
        assert(part == o);
        crate::measure::lemma_mul_keeps_close(
            crate::power::real_of(value),
            part,
            value * p,
            100 - share,
            1,
            100,
            0,
            110,
            64,
            200,
        );
        let k = 100 - share;
        let n = value * k;
        assert((value * p) * k == n * p) by (nonlinear_arith)
            requires
                n == value * k,
        ;
        assert(-0x7fff_0000 * 100 <= n <= 0x7fff_0000 * 100) by (nonlinear_arith)
            requires
                n == value * k,
                -0x7fff_0000 <= value <= 0x7fff_0000,
                1 <= k <= 100,
        ;
        crate::measure::lemma_round_is_nearest(
            crate::power::real_of(value).spec_mul(part),
            n,
            100,
            111,
            300,
        );
    }
}

/// The life that keeps its share of the total when the total becomes another.
pub proof fn lemma_kept_share(life: int, total: int, total_after: int)
    requires
        i32::MIN <= life <= i32::MAX,
        0 < total <= i32::MAX,
        i32::MIN <= total_after <= i32::MAX,
        crate::map::abs(life * total_after) <= 0x7fff_0000 * total,
    ensures
        crate::measure::is_nearest(
            crate::power::kept_share(life, total, total_after),
            life * total_after,
            total,
            crate::map::abs(life * total_after),
        ),
{
    reveal(crate::power::kept_share);
    let p = crate::measure::unit();
    lemma_whole(life);
    lemma_whole(total);
    lemma_whole(total_after);
    let a = crate::power::real_of(life);
    let q = a.spec_div(crate::power::real_of(total));
    crate::measure::lemma_div_keeps_close(a, total, life * p, 1, 0, 64);
    assert(1 * total == total);
    crate::measure::lemma_mul_keeps_close(
        q,
        crate::power::real_of(total_after),
        life * p,
        total_after,
        total,
        1,
        1,
        0,
        132,
        64,
    );
    let n = life * total_after;
    assert((life * p) * total_after == n * p) by (nonlinear_arith)
        requires
            n == life * total_after,
    ;
    assert(total * 1 == total);
    crate::measure::lemma_mul_swap(q, crate::power::real_of(total_after));
    crate::measure::lemma_round_is_nearest(
        crate::power::real_of(total_after).spec_mul(q),
        n,
        total,
        2,
        300,
    );
}

} // verus!
