//! The order of real numbers: rounding, sums, products and quotients keep it,
//! and are exact where the exact result has a place among the numbers.

use crate::number::{Real, HIDDEN, TOP};
use vstd::arithmetic::div_mod::*;
use vstd::arithmetic::mul::*;
use vstd::arithmetic::power2::*;
use vstd::prelude::*;

verus! {

/// How many binary places behind the point the unit of measure has.
pub open spec fn places() -> nat {
    100000
}

/// How many units 1 has.
pub open spec fn unit() -> int {
    pow2(places()) as int
}

impl Real {
    /// The number in units, of which each number of ordinary size has a whole
    /// number: one is not greater than another where it has no more of them.
    pub open spec fn units(self) -> int {
        self.signed() * pow2((self.exp + places()) as nat)
    }
}

/// The natural number of 53 significant bits that is nearest to `x`.
pub open spec fn round_nat(x: nat) -> nat {
    crate::number::round_quotient(x, pow2(crate::number::excess(x))) * pow2(crate::number::excess(x))
}

/// The integer of 53 significant bits that is nearest to `x`.
pub open spec fn rounded(x: int) -> int {
    if x >= 0 {
        round_nat(x as nat) as int
    } else {
        -(round_nat((-x) as nat) as int)
    }
}

/// Twice a number rounds to twice as much.
proof fn lemma_round_double(x: nat)
    ensures
        round_nat(2 * x) == 2 * round_nat(x),
{
    lemma2_to64();
    lemma_round_short(x);
    if x < HIDDEN {
        lemma_round_short(2 * x);
    } else if x < TOP {
        assert(crate::number::excess(2 * x) == 1 + crate::number::excess((2 * x) / 2));
        assert((2 * x) / 2 == x);
        assert(crate::number::excess(x) == 0);
        assert(pow2(1) == 2);
        assert((2 * x) % 2 == 0);
        assert(crate::number::round_quotient(2 * x, 2) == x);
        assert(x * 2 == 2 * x);
    } else {
        let k = crate::number::excess(x);
        let g = pow2(k);
        assert((2 * x) / 2 == x);
        assert(crate::number::excess(2 * x) == k + 1);
        lemma_pow2_unfold(k + 1);
        lemma_pow2_pos(k);
        let q = x / g;
        let r = x % g;
        lemma_fundamental_div_mod(x as int, g as int);
        assert(2 * x == q * (2 * g) + 2 * r) by (nonlinear_arith)
            requires
                x == g * q + r,
        ;
        lemma_fundamental_div_mod_converse((2 * x) as int, (2 * g) as int, q as int, (2 * r) as int);
        assert(q * (2 * g) == 2 * (q * g)) by (nonlinear_arith);
        assert((q + 1) * (2 * g) == 2 * ((q + 1) * g)) by (nonlinear_arith);
        assert(crate::number::round_quotient(2 * x, 2 * g) == crate::number::round_quotient(x, g));
    }
}

/// A number of at most 53 bits stays as it is.
proof fn lemma_round_short(x: nat)
    ensures
        x <= TOP ==> round_nat(x) == x,
{
    lemma2_to64();
    if x < TOP {
        assert(crate::number::excess(x) == 0);
        assert(pow2(0) == 1);
        assert(x / 1 == x && x % 1 == 0);
        assert(crate::number::round_quotient(x, 1) == x);
    } else if x == TOP {
        assert(x / 2 == HIDDEN);
        assert(crate::number::excess(x / 2) == 0);
        assert(crate::number::excess(x) == 1);
        assert(pow2(1) == 2);
    }
}

proof fn lemma_round_nat_scaled(x: nat, j: nat)
    ensures
        round_nat(x * pow2(j)) == round_nat(x) * pow2(j),
    decreases j,
{
    lemma2_to64();
    if j == 0 {
        assert(x * 1 == x);
        assert(round_nat(x) * 1 == round_nat(x));
    } else {
        let h = pow2((j - 1) as nat);
        lemma_pow2_unfold(j);
        lemma_round_nat_scaled(x, (j - 1) as nat);
        lemma_round_double(x * h);
        assert(x * (2 * h) == 2 * (x * h)) by (nonlinear_arith);
        assert(round_nat(x) * (2 * h) == 2 * (round_nat(x) * h)) by (nonlinear_arith);
    }
}

proof fn lemma_excess_monotone(x: nat, y: nat)
    requires
        x <= y,
    ensures
        crate::number::excess(x) <= crate::number::excess(y),
    decreases y,
{
    if x >= TOP {
        lemma_excess_monotone(x / 2, y / 2);
    }
}

/// Rounding lands within half a grain, between the neighbours of 53 bits.
proof fn lemma_round_near(x: nat)
    ensures
        2 * round_nat(x) <= 2 * x + pow2(crate::number::excess(x)),
        2 * x <= 2 * round_nat(x) + pow2(crate::number::excess(x)),
        round_nat(x) <= TOP * pow2(crate::number::excess(x)),
        x >= TOP ==> HIDDEN * pow2(crate::number::excess(x)) <= round_nat(x),
        x >= TOP ==> HIDDEN * pow2(crate::number::excess(x)) <= x,
{
    let k = crate::number::excess(x);
    let g = pow2(k);
    lemma_pow2_pos(k);
    lemma_fundamental_div_mod(x as int, g as int);
    let q = x / g;
    let n = crate::number::round_quotient(x, g);
    assert(q * g == g * q) by (nonlinear_arith);
    assert((q + 1) * g == g * q + g) by (nonlinear_arith);
    if x >= TOP {
        crate::number::lemma_round_quotient_bounds(x);
        crate::number::lemma_excess_bounds(x);
        assert(HIDDEN * g <= n * g && n * g <= TOP * g) by (nonlinear_arith)
            requires
                HIDDEN <= n <= TOP,
                g > 0,
        ;
    } else {
        lemma2_to64();
        lemma_round_short(x);
        assert(g == 1);
    }
}

proof fn lemma_round_nat_monotone(x: nat, y: nat)
    requires
        x <= y,
    ensures
        round_nat(x) <= round_nat(y),
{
    let j = crate::number::excess(x);
    let k = crate::number::excess(y);
    lemma_excess_monotone(x, y);
    lemma_round_near(x);
    lemma_round_near(y);
    lemma_pow2_pos(j);
    if j == k {
        let g = pow2(k);
        lemma_fundamental_div_mod(x as int, g as int);
        lemma_fundamental_div_mod(y as int, g as int);
        let p = x / g;
        let q = y / g;
        assert(p <= q) by {
            lemma_div_is_ordered(x as int, y as int, g as int);
        }
        let a = crate::number::round_quotient(x, g);
        let b = crate::number::round_quotient(y, g);
        assert(a <= b);
        assert(a * g <= b * g) by (nonlinear_arith)
            requires
                a <= b,
        ;
    } else {
        lemma_pow2_unfold(k);
        if j < k - 1 {
            lemma_pow2_strictly_increases(j, (k - 1) as nat);
        }
        assert(TOP * pow2(j) <= HIDDEN * pow2(k)) by (nonlinear_arith)
            requires
                pow2(k) == 2 * pow2((k - 1) as nat),
                pow2(j) <= pow2((k - 1) as nat),
                TOP == 2 * HIDDEN,
        ;
        assert(y >= TOP);
    }
}

/// Rounding keeps the order, and the sign.
pub proof fn lemma_rounded_monotone(x: int, y: int)
    requires
        x <= y,
    ensures
        rounded(x) <= rounded(y),
        x >= 0 ==> rounded(x) >= 0,
        y <= 0 ==> rounded(y) <= 0,
{
    lemma_round_short(0);
    if x >= 0 {
        lemma_round_nat_monotone(x as nat, y as nat);
    } else if y <= 0 {
        lemma_round_nat_monotone((-y) as nat, (-x) as nat);
    }
}

/// Rounding does not depend on the unit.
pub proof fn lemma_rounded_scaled(x: int, j: nat)
    ensures
        rounded(x * pow2(j)) == rounded(x) * pow2(j),
{
    lemma_pow2_pos(j);
    let g = pow2(j);
    if x >= 0 {
        assert(x * g >= 0) by (nonlinear_arith)
            requires
                x >= 0,
        ;
        lemma_round_nat_scaled(x as nat, j);
    } else {
        assert(x * g < 0) by (nonlinear_arith)
            requires
                x < 0,
                g > 0,
        ;
        assert(-(x * g) == (-x) * g) by (nonlinear_arith);
        lemma_round_nat_scaled((-x) as nat, j);
        assert((-rounded(x)) * g == -(rounded(x) * g)) by (nonlinear_arith);
    }
}

/// What has 53 bits stays as it is.
pub proof fn lemma_rounded_exact(a: int, j: nat)
    requires
        -TOP <= a <= TOP,
    ensures
        rounded(a * pow2(j)) == a * pow2(j),
        rounded(a) == a,
{
    lemma_rounded_scaled(a, j);
    if a >= 0 {
        lemma_round_short(a as nat);
    } else {
        lemma_round_short((-a) as nat);
    }
}

/// Rounding moves a number by at most a part in 2 to the power 53.
pub proof fn lemma_rounded_close(x: int)
    ensures
        (rounded(x) - x) * TOP <= crate::map::abs(x),
        (x - rounded(x)) * TOP <= crate::map::abs(x),
{
    let m = crate::map::abs(x) as nat;
    lemma_round_near(m);
    lemma_round_short(m);
    let g = pow2(crate::number::excess(m));
    if m > TOP {
        let n = round_nat(m);
        assert(HIDDEN * g <= m);
        assert((n - m) * TOP <= m && (m - n) * TOP <= m) by (nonlinear_arith)
            requires
                2 * n <= 2 * m + g,
                2 * m <= 2 * n + g,
                HIDDEN * g <= m,
                TOP == 2 * HIDDEN,
        ;
        assert((-n + m) * TOP == (m - n) * TOP);
    }
}

/// The units of the nearest number are those of the exact one, rounded.
pub(crate) proof fn lemma_nearest_units(neg: bool, m: nat, e: int, bits: nat)
    requires
        -90000 <= e <= 0x100_0000,
        bits <= 0x10_0000,
        m < TOP * pow2(bits),
    ensures
        crate::number::nearest(neg, m, e).wf(),
        crate::number::nearest(neg, m, e).units() == rounded(
            if neg {
                -(m as int)
            } else {
                m as int
            } * pow2((e + places()) as nat),
        ),
        m == 0 <==> crate::number::nearest(neg, m, e).mant == 0,
        m > 0 ==> crate::number::nearest(neg, m, e).neg == neg && e - 52 <= crate::number::nearest(neg, m, e).exp <= e + bits + 1,
        m >= TOP ==> crate::number::nearest(neg, m, e).exp >= e + crate::number::excess(m),
{
    crate::number::lemma_nearest_wf(neg, m, e, bits);
    let r = crate::number::nearest(neg, m, e);
    let j = (e + places()) as nat;
    let x = if neg {
        -(m as int)
    } else {
        m as int
    };
    lemma_rounded_scaled(x, j);
    if m == 0 {
        assert(0 * pow2(places()) == 0) by (nonlinear_arith);
        lemma_round_short(0);
        assert(0 * pow2(j) == 0);
    } else if m < TOP {
        let k = crate::number::shortage(m);
        crate::number::lemma_shortage_bounds(m);
        lemma_pow2_adds(k, (j - k) as nat);
        let a = pow2(k);
        let b = pow2((j - k) as nat);
        assert((m * a) * b == m * (a * b)) by (nonlinear_arith);
        assert((-(m * a)) * b == (-(m as int)) * (a * b)) by (nonlinear_arith);
        assert((r.exp + places()) as nat == (j - k) as nat);
        lemma_rounded_exact(x, j);
    } else {
        let k = crate::number::excess(m);
        let g = pow2(k);
        let q = crate::number::round_quotient(m, g);
        crate::number::lemma_round_quotient_bounds(m);
        lemma_pow2_adds(k, j);
        assert((q * g) * pow2(j) == q * (g * pow2(j))) by (nonlinear_arith);
        assert((-(q * g)) * pow2(j) == (-(q as int)) * (g * pow2(j))) by (nonlinear_arith);
        if q == TOP {
            let h = pow2(k + j);
            lemma_pow2_unfold(k + j + 1);
            assert((r.exp + places()) as nat == k + j + 1);
            assert(TOP * h == HIDDEN * (2 * h)) by (nonlinear_arith)
                requires
                    TOP == 2 * HIDDEN,
            ;
            assert((-(TOP as int)) * h == (-(HIDDEN as int)) * (2 * h)) by (nonlinear_arith)
                requires
                    TOP == 2 * HIDDEN,
            ;
        } else {
            assert((r.exp + places()) as nat == k + j);
        }
    }
}

/// Five times the double nearest to 0.2 rounds to 1.
pub(crate) proof fn lemma_one_fifth()
    ensures
        rounded(0x80_0000_0000_0002) == 0x80_0000_0000_0000,
{
    reveal_with_fuel(crate::number::excess, 4);
    lemma2_to64();
    assert(crate::number::excess(0x80_0000_0000_0002) == 3);
    assert(pow2(3) == 8);
}

/// An integer of at most 53 bits is a number.
pub proof fn lemma_int_units(i: int)
    requires
        -TOP <= i <= TOP,
    ensures
        crate::number::spec_int(i).units() == i * unit(),
        crate::number::spec_int(i).within(64),
        crate::number::spec_int(i).mant == 0 <==> i == 0,
        i != 0 ==> crate::number::spec_int(i).neg == (i < 0),
        i != 0 ==> -52 <= crate::number::spec_int(i).exp,
{
    let m = crate::map::abs(i) as nat;
    lemma2_to64();
    assert(m < TOP * pow2(1));
    lemma_nearest_units(i < 0, m, 0, 1);
    lemma_rounded_exact(i, places());
}

/// The opposite has the opposite units.
pub proof fn lemma_negate_units(a: Real)
    ensures
        a.spec_negate().units() == -a.units(),
        a.wf() ==> a.spec_negate().wf(),
        forall|n: int| a.within(n) ==> #[trigger] a.spec_negate().within(n),
{
    let g = pow2((a.exp + places()) as nat);
    if a.mant == 0 {
        assert(a.signed() * g == 0);
    } else {
        assert((-(a.mant as int)) * g == -(a.mant * g)) by (nonlinear_arith);
    }
}

/// A number and its units have one sign.
pub proof fn lemma_sign_units(a: Real)
    requires
        a.wf(),
    ensures
        a.mant == 0 <==> a.units() == 0,
        a.neg <==> a.units() < 0,
{
    let g = pow2((a.exp + places()) as nat);
    lemma_pow2_pos((a.exp + places()) as nat);
    if a.mant == 0 {
        assert(0 * g == 0);
    } else {
        assert(a.mant * g > 0) by (nonlinear_arith)
            requires
                a.mant > 0,
                g > 0,
        ;
        assert((-(a.mant as int)) * g == -(a.mant * g)) by (nonlinear_arith);
    }
}

/// A sum has the units of both, rounded.
pub proof fn lemma_add_units(a: Real, b: Real, ka: int, kb: int)
    requires
        a.within(ka),
        b.within(kb),
        0 <= ka <= 40000,
        0 <= kb <= 40000,
    ensures
        a.spec_add(b).units() == rounded(a.units() + b.units()),
        a.spec_add(b).within(ka + kb + 60),
{
    lemma_sign_units(a);
    lemma_sign_units(b);
    if a.mant == 0 {
        lemma_rounded_exact(b.signed(), (b.exp + places()) as nat);
    } else if b.mant == 0 {
        lemma_rounded_exact(a.signed(), (a.exp + places()) as nat);
    } else {
        let e = if a.exp < b.exp {
            a.exp as int
        } else {
            b.exp as int
        };
        let s = a.exact_sum(b);
        let ga = pow2((a.exp - e) as nat);
        let gb = pow2((b.exp - e) as nat);
        let u = pow2((e + places()) as nat);
        lemma_pow2_adds((a.exp - e) as nat, (e + places()) as nat);
        lemma_pow2_adds((b.exp - e) as nat, (e + places()) as nat);
        assert(s * u == a.units() + b.units()) by {
            assert((a.signed() * ga + b.signed() * gb) * u == a.signed() * (ga * u) + b.signed() * (
            gb * u)) by (nonlinear_arith);
            assert((a.exp - e) as nat + (e + places()) as nat == (a.exp + places()) as nat);
            assert((b.exp - e) as nat + (e + places()) as nat == (b.exp + places()) as nat);
        }
        lemma_far_sum(a, b, ka, kb);
    }
}

/// The number nearest to a sum, also where one of the two is much larger.
proof fn lemma_far_sum(a: Real, b: Real, ka: int, kb: int)
    requires
        a.within(ka),
        b.within(kb),
        0 <= ka <= 40000,
        0 <= kb <= 40000,
        a.mant != 0,
        b.mant != 0,
    ensures
        ({
            let e = if a.exp < b.exp {
                a.exp as int
            } else {
                b.exp as int
            };
            a.spec_add(b).units() == rounded(a.exact_sum(b) * pow2((e + places()) as nat))
        }),
        a.spec_add(b).within(ka + kb + 60),
{
    lemma2_to64();
    let e = if a.exp < b.exp {
        a.exp as int
    } else {
        b.exp as int
    };
    let f = if a.exp < b.exp {
        b.exp as int
    } else {
        a.exp as int
    };
    let s = a.exact_sum(b);
    let d = (f - e) as nat;
    let ga = pow2((a.exp - e) as nat);
    let gb = pow2((b.exp - e) as nat);
    let g = pow2(d);
    lemma_pow2_pos(d);
    assert(ga <= g && gb <= g && ga >= 1 && gb >= 1);
    let m = crate::map::abs(s) as nat;
    assert(crate::map::abs(a.signed() * ga) <= TOP * g - g) by (nonlinear_arith)
        requires
            -TOP + 1 <= a.signed() <= TOP - 1,
            0 <= ga <= g,
    ;
    assert(crate::map::abs(b.signed() * gb) <= TOP * g - g) by (nonlinear_arith)
        requires
            -TOP + 1 <= b.signed() <= TOP - 1,
            0 <= gb <= g,
    ;
    lemma_pow2_unfold(d + 1);
    assert(m < TOP * pow2(d + 1)) by (nonlinear_arith)
        requires
            m <= 2 * (TOP * g - g),
            pow2(d + 1) == 2 * g,
            g >= 1,
    ;
    lemma_nearest_units(s < 0, m, e, d + 1);
}

/// Between two multiples of 4, a long number rounds as any other there.
proof fn lemma_round_between(x: nat, y: nat)
    requires
        x / 4 == y / 4,
        x % 4 != 0,
        y % 4 != 0,
        crate::number::excess(x) >= 3,
    ensures
        round_nat(x) == round_nat(y),
{
    let k = crate::number::excess(x);
    let g = pow2(k);
    let h = pow2((k - 1) as nat);
    let t = pow2((k - 3) as nat);
    lemma_pow2_unfold(k);
    lemma_pow2_unfold((k - 1) as nat);
    lemma_pow2_unfold((k - 2) as nat);
    lemma_pow2_pos((k - 3) as nat);
    assert(g == 8 * t && h == 4 * t);
    assert(x >= TOP);
    crate::number::lemma_excess_bounds(x);
    let a = x / 4;
    let i = x % 4;
    let j = y % 4;
    assert(x == 4 * a + i && y == 4 * a + j && 1 <= i <= 3 && 1 <= j <= 3);
    let lo = 2 * HIDDEN * t;
    let hi = 2 * TOP * t;
    assert(HIDDEN * g == 4 * lo) by (nonlinear_arith)
        requires
            g == 8 * t,
            lo == 2 * HIDDEN * t,
    ;
    assert(TOP * g == 4 * hi) by (nonlinear_arith)
        requires
            g == 8 * t,
            hi == 2 * TOP * t,
    ;
    assert(lo <= a < hi);
    assert(HIDDEN * g <= y && y < TOP * g);
    crate::number::lemma_excess_is(y, k);
    lemma_fundamental_div_mod(x as int, g as int);
    let q = x / g;
    let r = x % g;
    let m = 2 * (t * q);
    assert(g * q == 4 * m) by (nonlinear_arith)
        requires
            g == 8 * t,
            m == 2 * (t * q),
    ;
    assert(r == 4 * (a - m) + i);
    let s = y - g * q;
    assert(s == 4 * (a - m) + j);
    assert(0 <= a - m < 2 * t);
    assert(0 <= s < g);
    assert(y == q * g + s) by (nonlinear_arith)
        requires
            s == y - g * q,
    ;
    lemma_fundamental_div_mod_converse(y as int, g as int, q as int, s);
    assert(r < h <==> a - m < t);
    assert(s < h <==> a - m < t);
    assert(r != h && s != h);
    assert(crate::number::round_quotient(x, g) == crate::number::round_quotient(y, g));
}

/// The quotient in half steps, odd where it is not exact.
pub open spec fn half_steps(n: nat, d: nat) -> nat {
    2 * (n / d) + if n % d > 0 {
        1nat
    } else {
        0nat
    }
}

proof fn lemma_half_steps_near(n: nat, d: nat)
    requires
        d > 0,
    ensures
        half_steps(n, d) * d <= 2 * n + d,
        2 * n <= half_steps(n, d) * d + d,
{
    lemma_fundamental_div_mod(n as int, d as int);
    let q = n / d;
    assert((2 * q) * d == 2 * (d * q)) by (nonlinear_arith);
    assert((2 * q + 1) * d == 2 * (d * q) + d) by (nonlinear_arith);
}

/// Twice as much has twice as many half steps, after rounding.
proof fn lemma_half_steps_double(n: nat, d: nat)
    requires
        d > 0,
        half_steps(n, d) >= 0x100_0000_0000_0000,
    ensures
        round_nat(half_steps(2 * n, d)) == 2 * round_nat(half_steps(n, d)),
        half_steps(2 * n, d) >= half_steps(n, d),
{
    lemma_fundamental_div_mod(n as int, d as int);
    let q = n / d;
    let r = n % d;
    let x = half_steps(n, d);
    let y = half_steps(2 * n, d);
    lemma_round_double(x);
    if 2 * r < d {
        assert(2 * n == (2 * q) * d + 2 * r) by (nonlinear_arith)
            requires
                n == d * q + r,
        ;
        lemma_fundamental_div_mod_converse((2 * n) as int, d as int, (2 * q) as int, (2 * r) as int);
    } else {
        assert(2 * n == (2 * q + 1) * d + (2 * r - d)) by (nonlinear_arith)
            requires
                n == d * q + r,
        ;
        lemma_fundamental_div_mod_converse(
            (2 * n) as int,
            d as int,
            (2 * q + 1) as int,
            (2 * r - d) as int,
        );
    }
    if r > 0 {
        assert(2 * x == 4 * q + 2);
        assert(4 * q + 1 <= y <= 4 * q + 3);
        lemma2_to64();
        crate::number::lemma_excess_at_least(2 * x, 3);
        lemma_round_between(2 * x, y);
    } else {
        assert(y == 2 * x);
    }
}

proof fn lemma_half_steps_scaled(n: nat, d: nat, j: nat)
    requires
        d > 0,
        half_steps(n, d) >= 0x100_0000_0000_0000,
    ensures
        round_nat(half_steps(n * pow2(j), d)) == round_nat(half_steps(n, d)) * pow2(j),
        half_steps(n * pow2(j), d) >= half_steps(n, d),
    decreases j,
{
    lemma2_to64();
    if j == 0 {
        assert(n * 1 == n);
        assert(round_nat(half_steps(n, d)) * 1 == round_nat(half_steps(n, d)));
    } else {
        let h = pow2((j - 1) as nat);
        lemma_pow2_unfold(j);
        lemma_half_steps_scaled(n, d, (j - 1) as nat);
        lemma_half_steps_double(n * h, d);
        assert(n * (2 * h) == 2 * (n * h)) by (nonlinear_arith);
        let z = round_nat(half_steps(n, d));
        assert(z * (2 * h) == 2 * (z * h)) by (nonlinear_arith);
    }
}

proof fn lemma_half_steps_monotone(n: nat, m: nat, d: nat)
    requires
        d > 0,
        n <= m,
    ensures
        half_steps(n, d) <= half_steps(m, d),
{
    lemma_div_is_ordered(n as int, m as int, d as int);
    lemma_fundamental_div_mod(n as int, d as int);
    lemma_fundamental_div_mod(m as int, d as int);
    if n / d == m / d {
        assert(n % d <= m % d);
    }
}

/// A product has the product of the units, rounded.
pub proof fn lemma_mul_units(a: Real, b: Real, ka: int, kb: int)
    requires
        a.within(ka),
        b.within(kb),
        0 <= ka <= 40000,
        0 <= kb <= 40000,
    ensures
        a.spec_mul(b).units() * unit() == rounded(a.units() * b.units()),
        a.spec_mul(b).within(ka + kb + 4),
        a.spec_mul(b).mant == 0 <==> a.mant == 0 || b.mant == 0,
{
    let m = (a.mant as nat) * (b.mant as nat);
    let neg = a.neg != b.neg;
    let e = a.exp + b.exp;
    lemma2_to64();
    lemma2_to64_rest();
    assert(m == 0 <==> a.mant == 0 || b.mant == 0) by (nonlinear_arith)
        requires
            m == (a.mant as nat) * (b.mant as nat),
    ;
    assert(m < TOP * TOP) by (nonlinear_arith)
        requires
            m == (a.mant as nat) * (b.mant as nat),
            a.mant < TOP,
            b.mant < TOP,
    ;
    assert(pow2(53) == TOP && pow2(52) == HIDDEN);
    lemma_nearest_units(neg, m, e as int, 53);
    if m > 0 {
        assert(m >= HIDDEN * HIDDEN) by (nonlinear_arith)
            requires
                m == (a.mant as nat) * (b.mant as nat),
                a.mant >= HIDDEN,
                b.mant >= HIDDEN,
        ;
        crate::number::lemma_excess_at_least(m, 52);
    }
    let x = if neg {
        -(m as int)
    } else {
        m as int
    };
    assert(x == a.signed() * b.signed()) by {
        assert((-(a.mant as int)) * b.mant == -(a.mant * b.mant)) by (nonlinear_arith);
        assert((a.mant as int) * (-(b.mant as int)) == -(a.mant * b.mant)) by (nonlinear_arith);
        assert((-(a.mant as int)) * (-(b.mant as int)) == a.mant * b.mant) by (nonlinear_arith);
    }
    let ga = pow2((a.exp + places()) as nat);
    let gb = pow2((b.exp + places()) as nat);
    let ge = pow2((e + places()) as nat);
    lemma_pow2_adds((a.exp + places()) as nat, (b.exp + places()) as nat);
    lemma_pow2_adds((e + places()) as nat, places());
    assert((a.exp + places()) as nat + (b.exp + places()) as nat == (e + places()) as nat
        + places());
    assert(a.units() * b.units() == (x * ge) * pow2(places())) by {
        assert((a.signed() * ga) * (b.signed() * gb) == (a.signed() * b.signed()) * (ga * gb))
            by (nonlinear_arith);
        assert((x * ge) * pow2(places()) == x * (ge * pow2(places()))) by (nonlinear_arith);
    }
    lemma_rounded_scaled(x * ge, places());
}

/// What a quotient by a positive number comes to, whatever its exponent.
proof fn lemma_div_steps(a: Real, b: Real, ka: int, kb: int)
    requires
        a.within(ka),
        b.within(kb),
        b.mant != 0,
        !b.neg,
        0 <= ka <= 40000,
        0 <= kb <= 40000,
    ensures
        a.spec_div(b).within(ka + kb + 4),
        a.spec_div(b).mant == 0 <==> a.mant == 0,
        a.mant != 0 ==> a.spec_div(b).neg == a.neg,
        ({
            let n = crate::map::abs(a.units()) as nat;
            let r = round_nat(half_steps(n * pow2(64), b.mant as nat));
            &&& crate::map::abs(a.spec_div(b).units()) * pow2((b.exp + places() + 65) as nat) == r
                * unit()
            &&& a.mant != 0 ==> half_steps(n * pow2(64), b.mant as nat)
                >= 0x1_0000_0000_0000_0000
        }),
{
    lemma2_to64();
    lemma2_to64_rest();
    let d = b.mant as nat;
    let n0 = a.mant as nat * 0x1_0000_0000_0000_0000;
    let m = half_steps(n0, d);
    let e = a.exp - b.exp - 65;
    let j = (a.exp + places()) as nat;
    let neg = a.neg != b.neg;
    lemma_fundamental_div_mod(n0 as int, d as int);
    let q = n0 / d;
    assert(a.mant == 0 ==> q == 0 && n0 % d == 0) by {
        if a.mant == 0 {
            lemma_fundamental_div_mod_converse(0, d as int, 0, 0);
        }
    }
    assert(q < 0x2_0000_0000_0000_0000) by (nonlinear_arith)
        requires
            n0 == d * q + n0 % d,
            n0 < 0x20_0000_0000_0000 * 0x1_0000_0000_0000_0000,
            d >= 0x10_0000_0000_0000,
    ;
    assert(m < TOP * pow2(13));
    lemma_nearest_units(neg, m, e as int, 13);
    let r = a.spec_div(b);
    assert(r == crate::number::nearest(neg, m, e as int));
    if a.mant != 0 {
        assert(q >= 0x8000_0000_0000_0000) by (nonlinear_arith)
            requires
                n0 == d * q + n0 % d,
                n0 % d < d,
                n0 >= 0x10_0000_0000_0000 * 0x1_0000_0000_0000_0000,
                0 < d < 0x20_0000_0000_0000,
        ;
        crate::number::lemma_excess_at_least(m, 12);
        lemma_half_steps_scaled(n0, d, j);
    }
    let g = pow2(j);
    lemma_pow2_pos(j);
    let n = crate::map::abs(a.units()) as nat;
    assert(n == a.mant * g) by {
        assert((-(a.mant as int)) * g == -(a.mant * g)) by (nonlinear_arith);
        assert(a.mant * g >= 0) by (nonlinear_arith);
    }
    assert(n * pow2(64) == n0 * g) by (nonlinear_arith)
        requires
            n == a.mant * g,
            n0 == a.mant as nat * pow2(64),
    ;
    let u = pow2((e + places()) as nat);
    let z = round_nat(m);
    lemma_pow2_pos((e + places()) as nat);
    if a.mant == 0 {
        lemma_round_short(0);
        assert(0 * g == 0);
        assert(0 * u == 0);
        assert(0 * pow2((b.exp + places() + 65) as nat) == 0);
        assert(0 * unit() == 0);
        assert(half_steps(0, d) == 0) by {
            lemma_fundamental_div_mod_converse(0, d as int, 0, 0);
        }
    } else {
        let x = if neg {
            -(m as int)
        } else {
            m as int
        };
        lemma_rounded_scaled(x, (e + places()) as nat);
        assert(crate::map::abs(r.units()) == z * u) by {
            assert(z * u >= 0) by (nonlinear_arith);
            assert((-(z as int)) * u == -(z * u)) by (nonlinear_arith);
        }
        let v = pow2((b.exp + places() + 65) as nat);
        lemma_pow2_adds((e + places()) as nat, (b.exp + places() + 65) as nat);
        lemma_pow2_adds(j, places());
        assert((e + places()) as nat + (b.exp + places() + 65) as nat == j + places());
        assert((z * u) * v == z * (u * v)) by (nonlinear_arith);
        assert((z * g) * pow2(places()) == z * (g * pow2(places()))) by (nonlinear_arith);
    }
}

/// Dividing by a positive number keeps the order.
pub proof fn lemma_div_monotone(a: Real, c: Real, b: Real, k: int)
    requires
        a.within(k),
        c.within(k),
        b.within(k),
        b.mant != 0,
        !b.neg,
        0 <= k <= 40000,
        a.units() <= c.units(),
    ensures
        a.spec_div(b).units() <= c.spec_div(b).units(),
        a.spec_div(b).within(2 * k + 4),
{
    lemma_div_steps(a, b, k, k);
    lemma_div_steps(c, b, k, k);
    let x = a.spec_div(b);
    let y = c.spec_div(b);
    lemma_sign_units(a);
    lemma_sign_units(c);
    lemma_sign_units(x);
    lemma_sign_units(y);
    let d = b.mant as nat;
    let v = pow2((b.exp + places() + 65) as nat);
    lemma_pow2_pos((b.exp + places() + 65) as nat);
    lemma_pow2_pos(places());
    let n = crate::map::abs(a.units()) as nat;
    let m = crate::map::abs(c.units()) as nat;
    if a.mant != 0 && c.mant != 0 && a.neg == c.neg {
        let (lo, hi) = if a.neg {
            (m, n)
        } else {
            (n, m)
        };
        assert(lo * pow2(64) <= hi * pow2(64)) by (nonlinear_arith)
            requires
                lo <= hi,
        ;
        lemma_half_steps_monotone(lo * pow2(64), hi * pow2(64), d);
        lemma_round_nat_monotone(half_steps(lo * pow2(64), d), half_steps(hi * pow2(64), d));
        let rl = round_nat(half_steps(lo * pow2(64), d));
        let rh = round_nat(half_steps(hi * pow2(64), d));
        assert(rl * unit() <= rh * unit()) by (nonlinear_arith)
            requires
                rl <= rh,
                unit() > 0,
        ;
        let ul = crate::map::abs(if a.neg {
            y.units()
        } else {
            x.units()
        });
        let uh = crate::map::abs(if a.neg {
            x.units()
        } else {
            y.units()
        });
        assert(ul <= uh) by (nonlinear_arith)
            requires
                ul * v <= uh * v,
                v > 0,
        ;
    }
}

/// A quotient is within a part in 2 to the power 52 of the exact one.
pub proof fn lemma_div_close(a: Real, b: Real, ka: int, kb: int)
    requires
        a.within(ka),
        b.within(kb),
        b.mant != 0,
        !b.neg,
        0 <= ka <= 40000,
        0 <= kb <= 40000,
    ensures
        (a.spec_div(b).units() * b.units() - a.units() * unit()) * HIDDEN <= crate::map::abs(
            a.units(),
        ) * unit(),
        (a.units() * unit() - a.spec_div(b).units() * b.units()) * HIDDEN <= crate::map::abs(
            a.units(),
        ) * unit(),
        a.spec_div(b).within(ka + kb + 4),
{
    lemma_div_steps(a, b, ka, kb);
    lemma2_to64();
    lemma2_to64_rest();
    let x = a.spec_div(b);
    lemma_sign_units(a);
    lemma_sign_units(x);
    let d = b.mant as nat;
    let n = crate::map::abs(a.units()) as nat;
    let big = n * pow2(64);
    let m = half_steps(big, d);
    let r = round_nat(m);
    lemma_half_steps_near(big, d);
    lemma_rounded_close(m as int);
    let p = unit();
    lemma_pow2_pos(places());
    let w = pow2((b.exp + places()) as nat);
    lemma_pow2_adds((b.exp + places()) as nat, 65);
    lemma_pow2_adds(64, 1);
    let t = pow2(65);
    assert(t == 0x2_0000_0000_0000_0000);
    let ax = crate::map::abs(x.units());
    let bu = b.units();
    assert(bu == d * w);
    if a.mant == 0 {
        assert(0 * bu == 0);
        assert(0 * p == 0);
    } else {
        assert(ax * (w * t) == r * p);
        assert((ax * bu) * t == (r * d) * p) by (nonlinear_arith)
            requires
                ax * (w * t) == r * p,
                bu == d * w,
        ;
        assert((n * p) * t == (2 * big) * p) by (nonlinear_arith)
            requires
                big == n * 0x1_0000_0000_0000_0000,
                t == 0x2_0000_0000_0000_0000,
        ;
        let md = m * d;
        assert((r * d - md) * TOP <= md && (md - r * d) * TOP <= md) by (nonlinear_arith)
            requires
                (r - m) * TOP <= m,
                (m - r) * TOP <= m,
                md == m * d,
                d > 0,
        ;
        assert(d * 0x1_0000_0000_0000_0000 <= md) by (nonlinear_arith)
            requires
                md == m * d,
                m >= 0x1_0000_0000_0000_0000,
        ;
        let err = r * d - 2 * big;
        assert(err * HIDDEN <= 2 * big && -err * HIDDEN <= 2 * big);
        assert(((ax * bu - n * p) * HIDDEN) * t == (err * HIDDEN) * p) by (nonlinear_arith)
            requires
                (ax * bu) * t == (r * d) * p,
                (n * p) * t == (2 * big) * p,
                err == r * d - 2 * big,
        ;
        assert((err * HIDDEN) * p <= (2 * big) * p && (-err * HIDDEN) * p <= (2 * big) * p)
            by (nonlinear_arith)
            requires
                err * HIDDEN <= 2 * big,
                -err * HIDDEN <= 2 * big,
                p > 0,
        ;
        assert((-err * HIDDEN) * p == -((err * HIDDEN) * p)) by (nonlinear_arith);
        let gap = (ax * bu - n * p) * HIDDEN;
        assert(gap <= n * p && -gap <= n * p) by (nonlinear_arith)
            requires
                gap * t <= (n * p) * t,
                -(gap * t) <= (n * p) * t,
                t > 0,
        ;
        if a.neg {
            assert(x.units() * bu == -(ax * bu)) by (nonlinear_arith)
                requires
                    x.units() == -ax,
            ;
            assert(a.units() * p == -(n * p)) by (nonlinear_arith)
                requires
                    a.units() == -n,
            ;
        }
    }
}

/// A quotient that is a number is exact.
pub proof fn lemma_div_exact(a: Real, b: Real, q: int, ka: int, kb: int)
    requires
        a.within(ka),
        b.within(kb),
        b.mant != 0,
        !b.neg,
        0 <= ka <= 40000,
        0 <= kb <= 40000,
        -TOP <= q <= TOP,
        a.units() == q * b.units(),
    ensures
        a.spec_div(b).units() == q * unit(),
        a.spec_div(b).within(ka + kb + 4),
{
    lemma_div_steps(a, b, ka, kb);
    lemma2_to64();
    lemma2_to64_rest();
    let x = a.spec_div(b);
    lemma_sign_units(a);
    lemma_sign_units(b);
    lemma_sign_units(x);
    let d = b.mant as nat;
    let bu = b.units();
    let n = crate::map::abs(a.units()) as nat;
    let aq = crate::map::abs(q);
    assert(n == aq * bu && (q < 0 <==> a.units() < 0) && (q == 0 <==> a.units() == 0))
        by (nonlinear_arith)
        requires
            a.units() == q * bu,
            bu > 0,
            n == crate::map::abs(a.units()),
            aq == crate::map::abs(q),
    ;
    let w = pow2((b.exp + places()) as nat);
    lemma_pow2_pos((b.exp + places()) as nat);
    let j = ((b.exp + places()) + 65) as nat;
    lemma_pow2_adds((b.exp + places()) as nat, 65);
    lemma_pow2_adds(64, 1);
    let v = pow2(j);
    lemma_pow2_pos(j);
    assert(v == w * (2 * pow2(64)));
    let h = w * pow2(64);
    assert(n * pow2(64) == (aq * h) * d + 0) by (nonlinear_arith)
        requires
            n == aq * bu,
            bu == d * w,
            h == w * pow2(64),
    ;
    assert(aq * h >= 0) by (nonlinear_arith)
        requires
            aq >= 0,
            h >= 0,
    ;
    lemma_fundamental_div_mod_converse((n * pow2(64)) as int, d as int, aq * h, 0);
    let m = half_steps(n * pow2(64), d);
    assert(m == aq * v) by (nonlinear_arith)
        requires
            m == 2 * (aq * h),
            v == w * (2 * pow2(64)),
            h == w * pow2(64),
    ;
    lemma_rounded_exact(aq, j);
    assert(round_nat(m) == m);
    let ax = crate::map::abs(x.units());
    assert(ax == aq * unit()) by (nonlinear_arith)
        requires
            ax * v == (aq * v) * unit(),
            v > 0,
    ;
    if q < 0 {
        assert((-aq) * unit() == -(aq * unit())) by (nonlinear_arith);
    }
}

/// A quotient that is a number is exact, wherever its point stands.
pub proof fn lemma_div_exact_units(a: Real, b: Real, q: int, j: nat, ka: int, kb: int)
    requires
        a.within(ka),
        b.within(kb),
        b.mant != 0,
        !b.neg,
        0 <= ka <= 40000,
        0 <= kb <= 40000,
        0 <= q <= TOP,
        j <= places(),
        a.units() * unit() == (q * pow2(j)) * b.units(),
    ensures
        a.spec_div(b).units() == q * pow2(j),
{
    lemma_div_steps(a, b, ka, kb);
    lemma2_to64();
    lemma2_to64_rest();
    let x = a.spec_div(b);
    lemma_sign_units(a);
    lemma_sign_units(b);
    lemma_sign_units(x);
    let p = unit();
    lemma_pow2_pos(places());
    lemma_pow2_pos(j);
    let d = b.mant as nat;
    let bu = b.units();
    let g = q * pow2(j);
    assert(g >= 0) by (nonlinear_arith)
        requires
            g == q * pow2(j),
            q >= 0,
    ;
    assert(a.units() >= 0) by (nonlinear_arith)
        requires
            a.units() * p == g * bu,
            g >= 0,
            bu > 0,
            p > 0,
    ;
    let n = a.units() as nat;
    let w = pow2((b.exp + places()) as nat);
    lemma_pow2_pos((b.exp + places()) as nat);
    let c = pow2(64);
    let k = (b.exp + places() + 65) as nat;
    lemma_pow2_adds((b.exp + places()) as nat, 65);
    lemma_pow2_adds(64, 1);
    let v = pow2(k);
    lemma_pow2_pos(k);
    assert(v == w * (2 * c));
    let m = half_steps(n * c, d);
    let r = round_nat(m);
    let ax = crate::map::abs(x.units());
    // the steps of the exact quotient, all of them multiplied by the unit
    lemma_half_steps_exact(n * c, d, p as nat, (g * (w * c)) as nat);
    if a.mant != 0 {
        lemma_half_steps_scaled(n * c, d, places());
        assert((n * c) * p == (g * (w * c)) * d) by (nonlinear_arith)
            requires
                n * p == g * bu,
                bu == d * w,
        ;
        assert(g * (w * c) >= 0) by (nonlinear_arith)
            requires
                g >= 0,
                w >= 0,
                c >= 0,
        ;
        let all = half_steps((n * c) * pow2(places()), d);
        assert(all == 2 * (g * (w * c)));
        lemma_pow2_adds(j, k);
        assert(all == q * pow2(j + k)) by (nonlinear_arith)
            requires
                all == 2 * (g * (w * c)),
                g == q * pow2(j),
                v == w * (2 * c),
                pow2(j + k) == pow2(j) * v,
        ;
        lemma_rounded_exact(q, j + k);
        assert(round_nat(all) == all);
        assert(r * p == all);
        assert(ax * v == r * p);
        assert(all == g * v) by (nonlinear_arith)
            requires
                all == 2 * (g * (w * c)),
                v == w * (2 * c),
        ;
        assert(ax == g) by (nonlinear_arith)
            requires
                ax * v == g * v,
                v > 0,
        ;
    } else {
        assert(g == 0) by (nonlinear_arith)
            requires
                a.units() * p == g * bu,
                a.units() == 0,
                bu > 0,
                g >= 0,
        ;
    }
}

proof fn lemma_half_steps_exact(n: nat, d: nat, p: nat, q: nat)
    requires
        d > 0,
    ensures
        n * p == q * d ==> half_steps(n * p, d) == 2 * q,
{
    if n * p == q * d {
        lemma_fundamental_div_mod_converse((n * p) as int, d as int, q as int, 0);
    }
}

/// The floor counts whole units of 1.
pub proof fn lemma_floor_units(a: Real, k: int)
    requires
        a.within(k),
        0 <= k <= 90000,
    ensures
        a.spec_floor() == a.units() / unit(),
        a.upper_half() <==> 2 * (a.units() % unit()) >= unit() && a.exp < 0,
        a.exp >= 0 ==> a.units() % unit() == 0,
{
    let p = unit();
    lemma_pow2_pos(places());
    if a.exp >= 0 {
        let g = pow2(a.exp as nat);
        lemma_pow2_adds(a.exp as nat, places());
        assert(a.units() == (a.signed() * g) * p + 0) by (nonlinear_arith)
            requires
                a.units() == a.signed() * (g * p),
        ;
        lemma_fundamental_div_mod_converse(a.units(), p, a.signed() * g, 0);
    } else {
        let h = pow2((-a.exp) as nat);
        let g = pow2((a.exp + places()) as nat);
        lemma_pow2_pos((-a.exp) as nat);
        lemma_pow2_pos((a.exp + places()) as nat);
        lemma_pow2_adds((-a.exp) as nat, (a.exp + places()) as nat);
        assert(p == h * g);
        lemma_fundamental_div_mod(a.signed(), h as int);
        let f = a.signed() / h as int;
        let r = a.signed() % h as int;
        assert(a.units() == f * p + r * g) by (nonlinear_arith)
            requires
                a.units() == a.signed() * g,
                a.signed() == h * f + r,
                p == h * g,
        ;
        assert(0 <= r * g < p) by (nonlinear_arith)
            requires
                0 <= r < h,
                g > 0,
                p == h * g,
        ;
        lemma_fundamental_div_mod_converse(a.units(), p, f, r * g);
        assert(2 * r >= h <==> 2 * (r * g) >= p) by (nonlinear_arith)
            requires
                g > 0,
                p == h * g,
        ;
    }
}

/// Whether a number lies where an `i32` can hold it rounded.
pub open spec fn fits32(a: Real) -> bool {
    i32::MIN * unit() <= a.units() < i32::MAX * unit()
}

/// Rounding to an `i32` gives the nearest one, halves upwards.
pub proof fn lemma_round32_units(a: Real, k: int)
    requires
        a.within(k),
        0 <= k <= 90000,
        fits32(a),
    ensures
        ({
            let r = a.spec_round32();
            &&& (2 * r - 1) * unit() <= 2 * a.units() < (2 * r + 1) * unit()
            &&& i32::MIN <= r <= i32::MAX
            &&& forall|n: int| #![trigger n * unit()] a.units() == n * unit() ==> r == n
        }),
{
    lemma_floor_units(a, k);
    let p = unit();
    lemma_pow2_pos(places());
    let f = a.units() / p;
    let rest = a.units() % p;
    lemma_fundamental_div_mod(a.units(), p);
    assert(i32::MIN <= f < i32::MAX) by (nonlinear_arith)
        requires
            a.units() == p * f + rest,
            0 <= rest < p,
            i32::MIN * p <= a.units() < i32::MAX * p,
    ;
    assert((2 * f - 1) * p == 2 * (p * f) - p) by (nonlinear_arith);
    assert((2 * f + 1) * p == 2 * (p * f) + p) by (nonlinear_arith);
    assert((2 * (f + 1) - 1) * p == 2 * (p * f) + p) by (nonlinear_arith);
    assert((2 * (f + 1) + 1) * p == 2 * (p * f) + 3 * p) by (nonlinear_arith);
    let r = a.spec_round32();
    if a.upper_half() {
        assert(r == f + 1);
    } else {
        assert(r == f);
        if a.exp < 0 {
            assert(2 * rest < p);
        } else {
            assert(rest == 0);
        }
    }
    assert forall|n: int| #![trigger n * unit()] a.units() == n * unit() implies r == n by {
        lemma_fundamental_div_mod_converse(a.units(), p, n, 0);
    }
}

/// Rounding to an `i32` keeps the order.
pub proof fn lemma_round32_monotone(a: Real, b: Real, k: int)
    requires
        a.within(k),
        b.within(k),
        0 <= k <= 90000,
        fits32(a),
        fits32(b),
        a.units() <= b.units(),
    ensures
        a.spec_round32() <= b.spec_round32(),
{
    lemma_round32_units(a, k);
    lemma_round32_units(b, k);
    lemma_pow2_pos(places());
    let x = a.spec_round32();
    let y = b.spec_round32();
    let p = unit();
    assert(x <= y) by (nonlinear_arith)
        requires
            (2 * x - 1) * p <= 2 * a.units(),
            2 * b.units() < (2 * y + 1) * p,
            a.units() <= b.units(),
            p > 0,
    ;
}

/// Without its fraction a number keeps its order.
pub proof fn lemma_trunc_units(a: Real, k: int)
    requires
        a.within(k),
        0 <= k <= 90000,
    ensures
        a.units() >= 0 ==> a.spec_trunc() == a.units() / unit(),
        a.units() < 0 ==> a.spec_trunc() == -((-a.units()) / unit()),
        forall|n: int| #![trigger n * unit()] a.units() == n * unit() ==> a.spec_trunc() == n,
{
    lemma_sign_units(a);
    lemma_negate_units(a);
    lemma_floor_units(a, k);
    lemma_floor_units(a.spec_negate(), k);
    let p = unit();
    lemma_pow2_pos(places());
    assert forall|n: int| #![trigger n * unit()] a.units() == n * unit() implies a.spec_trunc()
        == n by {
        assert((-n) * p == -(n * p)) by (nonlinear_arith);
        lemma_fundamental_div_mod_converse(n * p, p, n, 0);
        lemma_fundamental_div_mod_converse(-(n * p), p, -n, 0);
    }
}

pub proof fn lemma_trunc_monotone(a: Real, b: Real, k: int)
    requires
        a.within(k),
        b.within(k),
        0 <= k <= 90000,
        a.units() <= b.units(),
    ensures
        a.spec_trunc() <= b.spec_trunc(),
{
    lemma_trunc_units(a, k);
    lemma_trunc_units(b, k);
    let p = unit();
    lemma_pow2_pos(places());
    if a.units() >= 0 {
        lemma_div_is_ordered(a.units(), b.units(), p);
    } else if b.units() < 0 {
        lemma_div_is_ordered(-b.units(), -a.units(), p);
    } else {
        lemma_div_pos_is_pos(-a.units(), p);
        lemma_div_pos_is_pos(b.units(), p);
    }
}

/// One number is less than another where it has fewer units.
pub proof fn lemma_less_units(a: Real, b: Real, k: int)
    requires
        a.within(k),
        b.within(k),
        0 <= k <= 40000,
    ensures
        a.spec_less(b) <==> a.units() < b.units(),
{
    lemma_sign_units(a);
    lemma_sign_units(b);
    if a.mant != 0 && b.mant != 0 {
        let n = b.spec_negate();
        lemma_negate_units(b);
        let e = if a.exp < n.exp {
            a.exp as int
        } else {
            n.exp as int
        };
        let s = a.exact_sum(n);
        let ga = pow2((a.exp - e) as nat);
        let gb = pow2((n.exp - e) as nat);
        let u = pow2((e + places()) as nat);
        lemma_pow2_pos((e + places()) as nat);
        lemma_pow2_adds((a.exp - e) as nat, (e + places()) as nat);
        lemma_pow2_adds((n.exp - e) as nat, (e + places()) as nat);
        assert((a.exp - e) as nat + (e + places()) as nat == (a.exp + places()) as nat);
        assert((n.exp - e) as nat + (e + places()) as nat == (n.exp + places()) as nat);
        assert(s * u == a.units() + n.units()) by {
            assert((a.signed() * ga + n.signed() * gb) * u == a.signed() * (ga * u) + n.signed() * (
            gb * u)) by (nonlinear_arith);
        }
        assert(s < 0 <==> s * u < 0) by (nonlinear_arith)
            requires
                u > 0,
        ;
    }
}

/// Sums keep the order.
pub proof fn lemma_add_monotone(a: Real, c: Real, b: Real, k: int)
    requires
        a.within(k),
        c.within(k),
        b.within(k),
        0 <= k <= 40000,
        a.units() <= c.units(),
    ensures
        a.spec_add(b).units() <= c.spec_add(b).units(),
        b.spec_add(a).units() <= b.spec_add(c).units(),
{
    lemma_add_units(a, b, k, k);
    lemma_add_units(c, b, k, k);
    lemma_add_units(b, a, k, k);
    lemma_add_units(b, c, k, k);
    lemma_rounded_monotone(a.units() + b.units(), c.units() + b.units());
}

/// Products with a number that is not negative keep the order.
pub proof fn lemma_mul_monotone(a: Real, c: Real, b: Real, k: int)
    requires
        a.within(k),
        c.within(k),
        b.within(k),
        0 <= k <= 40000,
        a.units() <= c.units(),
        b.units() >= 0,
    ensures
        a.spec_mul(b).units() <= c.spec_mul(b).units(),
        b.spec_mul(a).units() <= b.spec_mul(c).units(),
        a.units() >= 0 ==> a.spec_mul(b).units() >= 0,
        a.spec_mul(b).within(2 * k + 4),
        c.spec_mul(b).within(2 * k + 4),
{
    lemma_mul_units(a, b, k, k);
    lemma_mul_units(c, b, k, k);
    lemma_mul_units(b, a, k, k);
    lemma_mul_units(b, c, k, k);
    let p = unit();
    lemma_pow2_pos(places());
    assert(a.units() * b.units() <= c.units() * b.units()) by (nonlinear_arith)
        requires
            a.units() <= c.units(),
            b.units() >= 0,
    ;
    assert(b.units() * a.units() == a.units() * b.units()) by (nonlinear_arith);
    assert(b.units() * c.units() == c.units() * b.units()) by (nonlinear_arith);
    lemma_rounded_monotone(a.units() * b.units(), c.units() * b.units());
    let x = a.spec_mul(b).units();
    let y = c.spec_mul(b).units();
    assert(x <= y) by (nonlinear_arith)
        requires
            x * p <= y * p,
            p > 0,
    ;
    let x2 = b.spec_mul(a).units();
    let y2 = b.spec_mul(c).units();
    assert(x2 <= y2) by (nonlinear_arith)
        requires
            x2 * p <= y2 * p,
            p > 0,
    ;
    if a.units() >= 0 {
        assert(a.units() * b.units() >= 0) by (nonlinear_arith)
            requires
                a.units() >= 0,
                b.units() >= 0,
        ;
        lemma_rounded_monotone(0, a.units() * b.units());
        lemma_round_short(0);
        assert(x >= 0) by (nonlinear_arith)
            requires
                x * p >= 0,
                p > 0,
        ;
    }
}

/// Products of whole numbers are exact up to 53 bits.
pub proof fn lemma_mul_whole(a: Real, b: Real, i: int, j: int, k: int)
    requires
        a.within(k),
        b.within(k),
        0 <= k <= 40000,
        a.units() == i * unit(),
        b.units() == j * unit(),
        -TOP <= i * j <= TOP,
    ensures
        a.spec_mul(b).units() == (i * j) * unit(),
        a.spec_mul(b).within(2 * k + 4),
{
    lemma_mul_units(a, b, k, k);
    let p = unit();
    lemma_pow2_pos(places());
    lemma_pow2_adds(places(), places());
    assert(a.units() * b.units() == (i * j) * (p * p)) by (nonlinear_arith)
        requires
            a.units() == i * p,
            b.units() == j * p,
    ;
    lemma_rounded_exact(i * j, places() + places());
    let x = a.spec_mul(b).units();
    assert(x == (i * j) * p) by (nonlinear_arith)
        requires
            x * p == (i * j) * (p * p),
            p > 0,
    ;
}

/// The whole power changes nothing.
pub proof fn lemma_mul_by_one(a: Real, o: Real, k: int)
    requires
        a.within(k),
        o.within(k),
        0 <= k <= 40000,
        o.units() == unit(),
    ensures
        a.spec_mul(o).units() == a.units(),
        a.spec_mul(o).within(2 * k + 4),
{
    lemma_mul_units(a, o, k, k);
    let p = unit();
    lemma_pow2_pos(places());
    lemma_rounded_exact(a.signed(), (a.exp + places()) as nat);
    lemma_rounded_scaled(a.units(), places());
    let x = a.spec_mul(o).units();
    assert(x == a.units()) by (nonlinear_arith)
        requires
            x * p == a.units() * p,
            p > 0,
    ;
}

/// A product is within a part in 2 to the power 53 of the exact one.
pub proof fn lemma_mul_close(a: Real, b: Real, k: int)
    requires
        a.within(k),
        b.within(k),
        0 <= k <= 40000,
    ensures
        (a.spec_mul(b).units() * unit() - a.units() * b.units()) * TOP <= crate::map::abs(
            a.units() * b.units(),
        ),
        (a.units() * b.units() - a.spec_mul(b).units() * unit()) * TOP <= crate::map::abs(
            a.units() * b.units(),
        ),
        a.spec_mul(b).within(2 * k + 4),
{
    lemma_mul_units(a, b, k, k);
    lemma_rounded_close(a.units() * b.units());
}

/// The factors of a product may change places.
pub proof fn lemma_mul_swap(a: Real, b: Real)
    ensures
        a.spec_mul(b) == b.spec_mul(a),
{
    assert((a.mant as nat) * (b.mant as nat) == (b.mant as nat) * (a.mant as nat))
        by (nonlinear_arith);
}

/// Whether `den` times a number is `x` units, up to `t` parts of it in 2 to the
/// power 50.
pub open spec fn close(a: Real, x: int, den: int, t: int) -> bool {
    &&& (den * a.units() - x) * 0x4_0000_0000_0000 <= t * crate::map::abs(x)
    &&& (x - den * a.units()) * 0x4_0000_0000_0000 <= t * crate::map::abs(x)
}

/// The product of two numbers that are close to what they stand for.
pub proof fn lemma_mul_keeps_close(
    a: Real,
    b: Real,
    x: int,
    y: int,
    da: int,
    db: int,
    ta: int,
    tb: int,
    ka: int,
    kb: int,
)
    requires
        a.within(ka),
        b.within(kb),
        0 <= ka <= 40000,
        0 <= kb <= 40000,
        close(a, x, da, ta),
        close(b, y * unit(), db, tb),
        da >= 1,
        db >= 1,
        0 <= ta <= 500,
        0 <= tb <= 500,
    ensures
        close(a.spec_mul(b), x * y, da * db, ta + tb + 1),
        a.spec_mul(b).within(ka + kb + 4),
{
    lemma_mul_units(a, b, ka, kb);
    lemma_mul_close(
        a,
        b,
        if ka < kb {
            kb
        } else {
            ka
        },
    );
    let p = unit();
    lemma_pow2_pos(places());
    let u = da * a.units();
    let v = db * b.units();
    let yp = y * p;
    let m = 0x4_0000_0000_0000int;
    let z = a.spec_mul(b).units();
    let d = da * db;
    let ab = a.units() * b.units();
    let ax = crate::map::abs(x);
    let ay = crate::map::abs(yp);
    assert(d >= 1) by (nonlinear_arith)
        requires
            d == da * db,
            da >= 1,
            db >= 1,
    ;
    assert(u * v == d * ab) by (nonlinear_arith)
        requires
            u == da * a.units(),
            v == db * b.units(),
            d == da * db,
            ab == a.units() * b.units(),
    ;
    let e = u - x;
    let f = v - yp;
    assert(u * v - x * yp == e * yp + x * f + e * f) by (nonlinear_arith)
        requires
            e == u - x,
            f == v - yp,
    ;
    let xy = ax * ay;
    assert(crate::map::abs(e) * m <= ta * ax && crate::map::abs(f) * m <= tb * ay);
    let ae = crate::map::abs(e);
    let af = crate::map::abs(f);
    assert((ae * ay) * m <= ta * xy) by (nonlinear_arith)
        requires
            ae * m <= ta * ax,
            ay >= 0,
            xy == ax * ay,
    ;
    assert((ax * af) * m <= tb * xy) by (nonlinear_arith)
        requires
            af * m <= tb * ay,
            ax >= 0,
            xy == ax * ay,
    ;
    assert(xy >= 0) by (nonlinear_arith)
        requires
            xy == ax * ay,
            ax >= 0,
            ay >= 0,
    ;
    assert((ae * af) * m * 1024 <= xy) by {
        assert((ae * m) * (af * m) <= (ta * ax) * (tb * ay)) by (nonlinear_arith)
            requires
                0 <= ae * m <= ta * ax,
                0 <= af * m <= tb * ay,
        ;
        assert((ta * ax) * (tb * ay) == (ta * tb) * xy) by (nonlinear_arith)
            requires
                xy == ax * ay,
        ;
        assert(ta * tb <= 250000) by (nonlinear_arith)
            requires
                0 <= ta <= 500,
                0 <= tb <= 500,
        ;
        assert((ta * tb) * xy <= 250000 * xy) by (nonlinear_arith)
            requires
                ta * tb <= 250000,
                xy >= 0,
        ;
        assert((ae * m) * (af * m) == ((ae * af) * m) * m) by (nonlinear_arith);
    }
    let gap = u * v - x * yp;
    assert(crate::map::abs(gap) <= ae * ay + ax * af + ae * af) by {
        assert(crate::map::abs(e * yp) == ae * ay) by (nonlinear_arith)
            requires
                ae == crate::map::abs(e),
                ay == crate::map::abs(yp),
        ;
        assert(crate::map::abs(x * f) == ax * af) by (nonlinear_arith)
            requires
                ax == crate::map::abs(x),
                af == crate::map::abs(f),
        ;
        assert(crate::map::abs(e * f) == ae * af) by (nonlinear_arith)
            requires
                ae == crate::map::abs(e),
                af == crate::map::abs(f),
        ;
    }
    let ag = crate::map::abs(gap);
    assert(ag * m * 1024 <= (ta + tb) * xy * 1024 + xy) by {
        assert((ae * ay + ax * af + ae * af) * m == (ae * ay) * m + (ax * af) * m + (ae * af) * m)
            by (nonlinear_arith);
        assert((ta + tb) * xy == ta * xy + tb * xy) by (nonlinear_arith);
    }
    // the rounding
    let r = z * p - ab;
    let dr = d * r;
    let aab = crate::map::abs(ab);
    assert(crate::map::abs(x * yp) == xy) by (nonlinear_arith)
        requires
            ax == crate::map::abs(x),
            ay == crate::map::abs(yp),
            xy == ax * ay,
    ;
    assert(crate::map::abs(d * ab) == d * aab) by (nonlinear_arith)
        requires
            d >= 1,
            aab == crate::map::abs(ab),
    ;
    assert(dr * TOP <= d * aab && -dr * TOP <= d * aab) by (nonlinear_arith)
        requires
            dr == d * r,
            r * TOP <= aab,
            -r * TOP <= aab,
            d >= 1,
    ;
    assert(d * aab <= xy + ag);
    assert((ta + tb) * xy <= 1000 * xy) by (nonlinear_arith)
        requires
            ta + tb <= 1000,
            xy >= 0,
    ;
    assert(d * aab <= 2 * xy);
    let total = d * (z * p) - x * yp;
    assert(total == gap + dr) by (nonlinear_arith)
        requires
            total == d * (z * p) - x * yp,
            gap == d * ab - x * yp,
            dr == d * r,
            r == z * p - ab,
    ;
    assert((ta + tb + 1) * xy == (ta + tb) * xy + xy) by (nonlinear_arith);
    assert(total * m <= (ta + tb + 1) * xy && -total * m <= (ta + tb + 1) * xy);
    // in units
    let w = x * y;
    let aw = crate::map::abs(w);
    let g = d * z - w;
    assert(total == g * p) by (nonlinear_arith)
        requires
            total == d * (z * p) - x * (y * p),
            g == d * z - w,
            w == x * y,
    ;
    assert(xy == aw * p) by (nonlinear_arith)
        requires
            xy == crate::map::abs(x * (y * p)),
            aw == crate::map::abs(x * y),
            p > 0,
    ;
    let t = ta + tb + 1;
    assert(g * m <= t * aw && -g * m <= t * aw) by (nonlinear_arith)
        requires
            (g * p) * m <= t * (aw * p),
            -(g * p) * m <= t * (aw * p),
            p > 0,
    ;
}

/// Whether an integer is the one nearest to `n` parts of which `den` make 1,
/// up to what amounts of size `size` lose in 40 bits.
pub open spec fn is_nearest(r: int, n: int, den: int, size: int) -> bool {
    &&& 2 * (den * r - n) * 0x100_0000_0000 <= den * 0x100_0000_0000 + size
    &&& 2 * (n - den * r) * 0x100_0000_0000 <= den * 0x100_0000_0000 + size
}

/// The nearest integer to a whole number of parts is that number, as long as it
/// is not too long.
pub proof fn lemma_nearest_whole(r: int, n: int, den: int, size: int, whole: int)
    requires
        is_nearest(r, n, den, size),
        n == den * whole,
        den >= 1,
        size < den * 0x100_0000_0000,
    ensures
        r == whole,
{
    assert(den * r - n == den * (r - whole)) by (nonlinear_arith)
        requires
            n == den * whole,
    ;
    let e = r - whole;
    assert(e == 0) by (nonlinear_arith)
        requires
            2 * (den * e) < 2 * den,
            -2 * (den * e) < 2 * den,
            den >= 1,
    ;
}

/// The nearest integer to a fraction of that size is an `i32`.
pub proof fn lemma_nearest_range(r: int, n: int, den: int, size: int)
    requires
        is_nearest(r, n, den, size),
        den >= 1,
        -0x7fff_0000 * den <= n <= 0x7fff_0000 * den,
        size <= 0x7fff_0000 * den,
    ensures
        -0x7fff_0001 <= r <= 0x7fff_0001,
{
    assert(r <= 0x7fff_0001) by (nonlinear_arith)
        requires
            den * r <= 0x7fff_0001 * den,
            den >= 1,
    ;
    assert(r >= -0x7fff_0001) by (nonlinear_arith)
        requires
            den * r >= -0x7fff_0001 * den,
            den >= 1,
    ;
}

/// Rounding a number that is close to a fraction gives the integer nearest to
/// that.
pub proof fn lemma_round_is_nearest(a: Real, n: int, den: int, t: int, k: int)
    requires
        a.within(k),
        0 <= k <= 40000,
        close(a, n * unit(), den, t),
        den >= 1,
        0 <= t <= 500,
        -0x7fff_0000 * den <= n <= 0x7fff_0000 * den,
    ensures
        is_nearest(a.spec_round32(), n, den, crate::map::abs(n)),
        fits32(a),
{
    let p = unit();
    lemma_pow2_pos(places());
    let u = a.units();
    let x = n * p;
    let m = 0x4_0000_0000_0000int;
    let an = crate::map::abs(n);
    assert(crate::map::abs(x) == an * p) by (nonlinear_arith)
        requires
            x == n * p,
            an == crate::map::abs(n),
            p > 0,
    ;
    let g = den * u - x;
    assert(t * (an * p) <= 500 * (an * p)) by (nonlinear_arith)
        requires
            t <= 500,
            an * p >= 0,
    ;
    assert(an * p >= 0) by (nonlinear_arith)
        requires
            an >= 0,
            p > 0,
    ;
    assert(g * m <= 500 * (an * p) && -g * m <= 500 * (an * p));
    assert(an * p <= 0x7fff_0000 * (den * p)) by (nonlinear_arith)
        requires
            an <= 0x7fff_0000 * den,
            p > 0,
    ;
    let dp = den * p;
    assert(dp > 0) by (nonlinear_arith)
        requires
            dp == den * p,
            den >= 1,
            p > 0,
    ;
    assert(-0x7fff_0001 * dp <= den * u <= 0x7fff_0001 * dp);
    assert(-0x7fff_0001 * p <= u <= 0x7fff_0001 * p) by (nonlinear_arith)
        requires
            -0x7fff_0001 * (den * p) <= den * u <= 0x7fff_0001 * (den * p),
            den >= 1,
    ;
    lemma_round32_units(a, k);
    let r = a.spec_round32();
    let h = 2 * (r * p - u);
    assert((2 * r - 1) * p == 2 * (r * p) - p) by (nonlinear_arith);
    assert((2 * r + 1) * p == 2 * (r * p) + p) by (nonlinear_arith);
    assert(-p <= h <= p);
    let q = den * r - n;
    assert(2 * (q * p) == den * h + 2 * g) by (nonlinear_arith)
        requires
            q == den * r - n,
            h == 2 * (r * p - u),
            g == den * u - n * p,
    ;
    assert(-dp <= den * h <= dp) by (nonlinear_arith)
        requires
            -p <= h <= p,
            dp == den * p,
            den >= 1,
    ;
    let c = 0x100_0000_0000int;
    assert(2 * (q * p) * c <= dp * c + an * p);
    assert(-(2 * (q * p) * c) <= dp * c + an * p);
    assert(2 * q * c <= den * c + an && -2 * q * c <= den * c + an) by (nonlinear_arith)
        requires
            2 * (q * p) * c <= (den * p) * c + an * p,
            -(2 * (q * p) * c) <= (den * p) * c + an * p,
            p > 0,
    ;
}

/// The quotient of a number that is close to what it stands for by a whole
/// number.
pub proof fn lemma_div_keeps_close(a: Real, m: int, x: int, da: int, ta: int, ka: int)
    requires
        a.within(ka),
        0 <= ka <= 40000,
        close(a, x, da, ta),
        da >= 1,
        1 <= m <= TOP,
        0 <= ta <= 500,
    ensures
        close(a.spec_div(crate::number::spec_int(m)), x, da * m, ta + 1),
        a.spec_div(crate::number::spec_int(m)).within(ka + 68),
{
    let b = crate::number::spec_int(m);
    lemma_int_units(m);
    lemma_div_close(a, b, ka, 64);
    let p = unit();
    lemma_pow2_pos(places());
    let q = a.spec_div(b).units();
    let u = a.units();
    let au = crate::map::abs(u);
    let g = q * m - u;
    assert(q * (m * p) - u * p == g * p) by (nonlinear_arith)
        requires
            g == q * m - u,
    ;
    assert(g * HIDDEN <= au && -g * HIDDEN <= au) by (nonlinear_arith)
        requires
            (g * p) * HIDDEN <= au * p,
            -(g * p) * HIDDEN <= au * p,
            p > 0,
    ;
    let dg = da * g;
    let du = da * au;
    assert(dg * HIDDEN <= du && -dg * HIDDEN <= du) by (nonlinear_arith)
        requires
            g * HIDDEN <= au,
            -g * HIDDEN <= au,
            dg == da * g,
            du == da * au,
            da >= 1,
    ;
    assert(du == crate::map::abs(da * u)) by (nonlinear_arith)
        requires
            du == da * au,
            au == crate::map::abs(u),
            da >= 1,
    ;
    let ax = crate::map::abs(x);
    assert(ta * ax <= 500 * ax) by (nonlinear_arith)
        requires
            ta <= 500,
            ax >= 0,
    ;
    assert((ta + 1) * ax == ta * ax + ax) by (nonlinear_arith);
    assert((da * m) * q - x == dg + (da * u - x)) by (nonlinear_arith)
        requires
            dg == da * g,
            g == q * m - u,
    ;
}

/// Rounding a number that is close to an amount of units gives the integer
/// nearest to that.
pub proof fn lemma_round_is_nearest_units(a: Real, x: int, den: int, t: int, k: int)
    requires
        a.within(k),
        0 <= k <= 40000,
        close(a, x, den, t),
        den >= 1,
        0 <= t <= 500,
        crate::map::abs(x) <= 0x7fff_0000 * (den * unit()),
    ensures
        is_nearest(a.spec_round32(), x, den * unit(), crate::map::abs(x)),
        fits32(a),
{
    let p = unit();
    lemma_pow2_pos(places());
    let u = a.units();
    let m = 0x4_0000_0000_0000int;
    let ax = crate::map::abs(x);
    let g = den * u - x;
    assert(t * ax <= 500 * ax) by (nonlinear_arith)
        requires
            t <= 500,
            ax >= 0,
    ;
    let dp = den * p;
    assert(dp > 0) by (nonlinear_arith)
        requires
            dp == den * p,
            den >= 1,
            p > 0,
    ;
    assert(-0x7fff_0001 * dp <= den * u <= 0x7fff_0001 * dp);
    assert(-0x7fff_0001 * p <= u <= 0x7fff_0001 * p) by (nonlinear_arith)
        requires
            -0x7fff_0001 * (den * p) <= den * u <= 0x7fff_0001 * (den * p),
            den >= 1,
    ;
    lemma_round32_units(a, k);
    let r = a.spec_round32();
    let h = 2 * (r * p - u);
    assert((2 * r - 1) * p == 2 * (r * p) - p) by (nonlinear_arith);
    assert((2 * r + 1) * p == 2 * (r * p) + p) by (nonlinear_arith);
    let q = dp * r - x;
    assert(2 * q == den * h + 2 * g) by (nonlinear_arith)
        requires
            q == (den * p) * r - x,
            h == 2 * (r * p - u),
            g == den * u - x,
    ;
    assert(-dp <= den * h <= dp) by (nonlinear_arith)
        requires
            -p <= h <= p,
            dp == den * p,
            den >= 1,
    ;
}

/// Whether an integer is the largest one that is not above `n` parts of which
/// `den` make 1, up to what amounts of size `size` lose in 40 bits.
pub open spec fn is_floor(r: int, n: int, den: int, size: int) -> bool {
    &&& (den * r - n) * 0x100_0000_0000 <= size
    &&& (n - den * (r + 1)) * 0x100_0000_0000 <= size
}

/// Cutting the fraction off a number that is not negative.
pub proof fn lemma_trunc_is_floor(a: Real, n: int, den: int, t: int, k: int)
    requires
        a.within(k),
        0 <= k <= 40000,
        close(a, n * unit(), den, t),
        den >= 1,
        0 <= t <= 500,
        a.units() >= 0,
    ensures
        is_floor(a.spec_trunc(), n, den, crate::map::abs(n)),
        a.spec_trunc() >= 0,
{
    let p = unit();
    lemma_pow2_pos(places());
    lemma_trunc_units(a, k);
    let u = a.units();
    let r = a.spec_trunc();
    lemma_fundamental_div_mod(u, p);
    lemma_div_pos_is_pos(u, p);
    assert(p * r <= u < p * r + p);
    let an = crate::map::abs(n);
    let x = n * p;
    assert(crate::map::abs(x) == an * p) by (nonlinear_arith)
        requires
            x == n * p,
            an == crate::map::abs(n),
            p > 0,
    ;
    let ap = an * p;
    assert(ap >= 0) by (nonlinear_arith)
        requires
            ap == an * p,
            an >= 0,
            p > 0,
    ;
    assert(t * ap <= 500 * ap) by (nonlinear_arith)
        requires
            t <= 500,
            ap >= 0,
    ;
    assert((den * r) * p <= den * u < (den * (r + 1)) * p) by (nonlinear_arith)
        requires
            p * r <= u < p * r + p,
            den >= 1,
    ;
    let lo = den * r - n;
    let hi = n - den * (r + 1);
    assert(lo * p == (den * r) * p - x) by (nonlinear_arith)
        requires
            lo == den * r - n,
            x == n * p,
    ;
    assert(hi * p == x - (den * (r + 1)) * p) by (nonlinear_arith)
        requires
            hi == n - den * (r + 1),
            x == n * p,
    ;
    let c = 0x100_0000_0000int;
    assert((lo * p) * c <= ap && (hi * p) * c <= ap);
    assert(lo * c <= an && hi * c <= an) by (nonlinear_arith)
        requires
            (lo * p) * c <= an * p,
            (hi * p) * c <= an * p,
            p > 0,
    ;
}

} // verus!
