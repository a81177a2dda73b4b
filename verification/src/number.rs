//! Real numbers of 53 significant bits.
//!
//! Every operation gives the number of 53 significant bits that is nearest to
//! the exact result; halfway between two, the one whose last bit is 0. Within
//! the exponents that a double holds, these are the values and the results of
//! double arithmetic.

use vstd::arithmetic::div_mod::*;
use vstd::arithmetic::mul::*;
use vstd::arithmetic::power2::*;
use vstd::prelude::*;

verus! {

/// The smallest number of 53 bits.
pub const HIDDEN: u64 = 0x10_0000_0000_0000;

/// The smallest number of 54 bits.
pub const TOP: u64 = 0x20_0000_0000_0000;

/// A real number: `mant` times 2 to the power `exp`, with a sign.
#[derive(Clone, Copy, Debug, PartialEq, Eq, Structural)]
pub struct Real {
    pub neg: bool,
    pub mant: u64,
    pub exp: i32,
}

/// By how many bits a number is longer than 53.
pub open spec fn excess(m: nat) -> nat
    decreases m,
{
    if m < TOP {
        0
    } else {
        1 + excess(m / 2)
    }
}

/// By how many bits a number is shorter than 53.
pub open spec fn shortage(m: nat) -> nat
    decreases TOP - m,
{
    if m == 0 || m >= HIDDEN {
        0
    } else {
        1 + shortage(2 * m)
    }
}

/// The quotient rounded to the nearest integer, halves to even.
pub open spec fn round_quotient(m: nat, g: nat) -> nat {
    let q = m / g;
    let r = m % g;
    if 2 * r > g || (2 * r == g && q % 2 == 1) {
        q + 1
    } else {
        q
    }
}

/// The real number nearest to `m` times 2 to the power `e`, with a sign.
pub open spec fn nearest(neg: bool, m: nat, e: int) -> Real {
    if m == 0 {
        Real { neg: false, mant: 0, exp: 0 }
    } else if m < TOP {
        let k = shortage(m);
        Real { neg, mant: (m * pow2(k)) as u64, exp: (e - k) as i32 }
    } else {
        let k = excess(m);
        let q = round_quotient(m, pow2(k));
        if q == TOP {
            Real { neg, mant: HIDDEN, exp: (e + k + 1) as i32 }
        } else {
            Real { neg, mant: q as u64, exp: (e + k) as i32 }
        }
    }
}

/// The number that the 64 bits of a double stand for; none for an infinity or
/// what is not a number.
pub open spec fn double_at(bits: u64) -> Option<Real> {
    let field = (bits / HIDDEN) % 2048;
    let fraction = bits % HIDDEN;
    let sign = bits >= 0x8000_0000_0000_0000;
    if field == 2047 {
        None
    } else if field == 0 {
        Some(nearest(sign, fraction as nat, -1074))
    } else {
        Some(nearest(sign, (fraction + HIDDEN) as nat, field - 1075))
    }
}

impl Real {
    /// The number has one form: 53 bits, or zero.
    pub open spec fn wf(self) -> bool {
        if self.mant == 0 {
            !self.neg && self.exp == 0
        } else {
            HIDDEN <= self.mant < TOP
        }
    }

    /// Whether the number is zero, or its exponent is at most `n` away from
    /// that of the numbers around 1.
    pub open spec fn within(self, n: int) -> bool {
        self.wf() && (self.mant == 0 || -n <= self.exp + 52 <= n)
    }

    /// The mantissa with the sign.
    pub open spec fn signed(self) -> int {
        if self.neg {
            -(self.mant as int)
        } else {
            self.mant as int
        }
    }

    /// The exact product, rounded.
    pub open spec fn spec_mul(self, other: Real) -> Real {
        nearest(
            self.neg != other.neg,
            (self.mant as nat) * (other.mant as nat),
            self.exp + other.exp,
        )
    }

    /// The exact sum in units of the smaller exponent.
    pub open spec fn exact_sum(self, other: Real) -> int {
        let e = if self.exp < other.exp {
            self.exp
        } else {
            other.exp
        };
        self.signed() * pow2((self.exp - e) as nat) + other.signed() * pow2((other.exp - e) as nat)
    }

    /// The exact sum, rounded.
    pub open spec fn spec_add(self, other: Real) -> Real {
        if self.mant == 0 {
            other
        } else if other.mant == 0 {
            self
        } else {
            let s = self.exact_sum(other);
            nearest(
                s < 0,
                crate::map::abs(s) as nat,
                if self.exp < other.exp {
                    self.exp as int
                } else {
                    other.exp as int
                },
            )
        }
    }

    pub open spec fn spec_negate(self) -> Real {
        if self.mant == 0 {
            self
        } else {
            Real { neg: !self.neg, ..self }
        }
    }

    pub open spec fn spec_sub(self, other: Real) -> Real {
        self.spec_add(other.spec_negate())
    }

    /// The quotient, rounded: its integer part after 64 binary places, with
    /// one more place that tells whether anything is left.
    pub open spec fn spec_div(self, other: Real) -> Real {
        let n = self.mant as nat * 0x1_0000_0000_0000_0000;
        let q = n / other.mant as nat;
        let rest: nat = if n % other.mant as nat > 0 {
            1
        } else {
            0
        };
        nearest(self.neg != other.neg, 2 * q + rest, self.exp - other.exp - 65)
    }

    /// Whether one number is less than the other.
    pub open spec fn spec_less(self, other: Real) -> bool {
        if self.mant == 0 || other.mant == 0 {
            self.signed() < other.signed()
        } else {
            self.exact_sum(other.spec_negate()) < 0
        }
    }

    /// The largest integer that is not greater.
    pub open spec fn spec_floor(self) -> int {
        if self.exp >= 0 {
            self.signed() * pow2(self.exp as nat)
        } else {
            self.signed() / pow2((-self.exp) as nat) as int
        }
    }

    /// Whether the part above the floor is at least one half.
    pub open spec fn upper_half(self) -> bool {
        self.exp < 0 && 2 * (self.signed() % pow2((-self.exp) as nat) as int) >= pow2(
            (-self.exp) as nat,
        )
    }

    /// The number without its fraction.
    pub open spec fn spec_trunc(self) -> int {
        if self.neg {
            -self.spec_negate().spec_floor()
        } else {
            self.spec_floor()
        }
    }

    /// The nearest `i32`, halves upwards; the ends of the range beyond it.
    pub open spec fn spec_round32(self) -> int {
        if self.upper_half() {
            crate::rng::wrap32(crate::rng::saturate32(self.spec_floor()) + 1)
        } else {
            crate::rng::saturate32(self.spec_floor())
        }
    }
}

/// The number itself, or the end of the range of 64 bits beyond it.
pub open spec fn saturate64(v: int) -> int {
    if v > i64::MAX {
        i64::MAX as int
    } else if v < i64::MIN {
        i64::MIN as int
    } else {
        v
    }
}

/// An integer as a real number.
pub open spec fn spec_int(i: int) -> Real {
    nearest(i < 0, crate::map::abs(i) as nat, 0)
}

/// Doubling the number and halving the unit changes nothing, below 53 bits.
proof fn lemma_nearest_doubles(neg: bool, m: nat, e: int)
    requires
        0 < m < HIDDEN,
    ensures
        nearest(neg, m, e) == nearest(neg, 2 * m, e - 1),
{
    let k = shortage(m);
    assert(k == 1 + shortage(2 * m));
    lemma_pow2_unfold(k);
    assert(m * pow2(k) == (2 * m) * pow2((k - 1) as nat)) by (nonlinear_arith)
        requires
            pow2(k) == 2 * pow2((k - 1) as nat),
    ;
}

/// The number of bits beyond 53 says between which powers of 2 a number lies.
pub(crate) proof fn lemma_excess_bounds(m: nat)
    requires
        m >= TOP,
    ensures
        excess(m) >= 1,
        HIDDEN * pow2(excess(m)) <= m < TOP * pow2(excess(m)),
    decreases m,
{
    let k = excess(m);
    lemma_pow2_unfold(k);
    let h = pow2((k - 1) as nat);
    if m / 2 < TOP {
        assert(excess(m / 2) == 0);
        lemma2_to64();
        assert(h == 1);
    } else {
        lemma_excess_bounds(m / 2);
        assert(HIDDEN * (2 * h) == 2 * (HIDDEN * h)) by (nonlinear_arith);
        assert(TOP * (2 * h) == 2 * (TOP * h)) by (nonlinear_arith);
    }
}

/// Those bounds fix the number of bits.
pub(crate) proof fn lemma_excess_is(m: nat, k: nat)
    requires
        k >= 1,
        HIDDEN * pow2(k) <= m < TOP * pow2(k),
    ensures
        m >= TOP,
        excess(m) == k,
    decreases k,
{
    lemma_pow2_unfold(k);
    let h = pow2((k - 1) as nat);
    lemma_pow2_pos((k - 1) as nat);
    assert(HIDDEN * (2 * h) == 2 * (HIDDEN * h)) by (nonlinear_arith);
    assert(TOP * (2 * h) == 2 * (TOP * h)) by (nonlinear_arith);
    assert(HIDDEN * h >= HIDDEN) by (nonlinear_arith)
        requires
            h >= 1,
    ;
    if k == 1 {
        lemma2_to64();
        assert(excess(m / 2) == 0);
    } else {
        lemma_excess_is(m / 2, (k - 1) as nat);
    }
}

pub(crate) proof fn lemma_shortage_bounds(m: nat)
    requires
        0 < m < TOP,
    ensures
        HIDDEN <= m * pow2(shortage(m)) < TOP,
        shortage(m) <= 52,
        m >= HIDDEN ==> shortage(m) == 0,
    decreases TOP - m,
{
    lemma2_to64();
    if m < HIDDEN {
        lemma_shortage_bounds(2 * m);
        let k = shortage(m);
        lemma_pow2_unfold(k);
        assert(m * pow2(k) == (2 * m) * pow2((k - 1) as nat)) by (nonlinear_arith)
            requires
                pow2(k) == 2 * pow2((k - 1) as nat),
        ;
        if k > 52 {
            lemma_pow2_strictly_increases(52, k);
            assert(m * pow2(k) >= pow2(k)) by (nonlinear_arith)
                requires
                    m >= 1,
                    pow2(k) > 0,
            ;
            lemma2_to64_rest();
            lemma_pow2_unfold(53);
            assert(pow2(53) == TOP);
            if k > 53 {
                lemma_pow2_strictly_increases(53, k);
            }
        }
    } else {
        assert(m * pow2(0) == m) by (nonlinear_arith)
            requires
                pow2(0) == 1,
        ;
    }
}

/// A rounded quotient of a longer number has 53 bits, or is the first of 54.
pub(crate) proof fn lemma_round_quotient_bounds(m: nat)
    requires
        m >= TOP,
    ensures
        HIDDEN <= round_quotient(m, pow2(excess(m))) <= TOP,
{
    let k = excess(m);
    let g = pow2(k);
    lemma_excess_bounds(m);
    lemma_pow2_pos(k);
    lemma_fundamental_div_mod(m as int, g as int);
    let q = m / g;
    assert(q >= HIDDEN) by (nonlinear_arith)
        requires
            HIDDEN * g <= m,
            m == g * q + m % g,
            m % g < g,
            g > 0,
    ;
    assert(q < TOP) by (nonlinear_arith)
        requires
            m < TOP * g,
            m == g * q + m % g,
            m % g >= 0,
            g > 0,
    ;
}

/// Rounding gives a number in its one form, and moves its exponent by the
/// difference in bits.
pub(crate) proof fn lemma_nearest_wf(neg: bool, m: nat, e: int, bits: nat)
    requires
        -0x1000_0000 <= e <= 0x1000_0000,
        bits <= 0x10_0000,
        m < TOP * pow2(bits),
    ensures
        nearest(neg, m, e).wf(),
        m == 0 <==> nearest(neg, m, e).mant == 0,
        m > 0 ==> nearest(neg, m, e).neg == neg && e - 52 <= nearest(neg, m, e).exp <= e + bits + 1,
        m >= TOP ==> 1 <= excess(m) <= bits && nearest(neg, m, e).exp >= e + excess(m),
{
    if m > 0 && m < TOP {
        lemma_shortage_bounds(m);
    } else if m >= TOP {
        lemma_round_quotient_bounds(m);
        lemma_excess_bounds(m);
        let k = excess(m);
        if k > bits {
            lemma_pow2_strictly_increases(bits, k);
            lemma_pow2_unfold(k);
            assert(pow2(k) >= 2 * pow2(bits)) by {
                if k - 1 > bits {
                    lemma_pow2_strictly_increases(bits, (k - 1) as nat);
                }
            }
            assert(HIDDEN * pow2(k) >= TOP * pow2(bits)) by (nonlinear_arith)
                requires
                    pow2(k) >= 2 * pow2(bits),
                    TOP == 2 * HIDDEN,
            ;
        }
    }
}

/// The real number nearest to `m` times 2 to the power `e`.
fn round_to(neg: bool, m: u128, e: i32) -> (r: Real)
    requires
        -0x1000_0000 <= e <= 0x1000_0000,
    ensures
        r == nearest(neg, m as nat, e as int),
        r.wf(),
        m == 0 <==> r.mant == 0,
        m > 0 ==> r.neg == neg && e - 52 <= r.exp <= e + 76,
{
    proof {
        lemma2_to64();
        lemma2_to64_rest();
        lemma_pow2_adds(64, 11);
        assert(m < TOP * pow2(75)) by {
            assert(pow2(75) == 0x1_0000_0000_0000_0000 * 2048);
        }
        lemma_nearest_wf(neg, m as nat, e as int, 75);
    }
    if m == 0 {
        return Real { neg: false, mant: 0, exp: 0 };
    }
    if m < TOP as u128 {
        let mut n: u64 = m as u64;
        let mut x: i32 = e;
        proof {
            lemma_shortage_bounds(m as nat);
        }
        while n < HIDDEN
            invariant
                0 < n < TOP,
                -0x1000_0000 <= e <= 0x1000_0000,
                x >= e - 52,
                x + shortage(m as nat) - shortage(n as nat) == e,
                shortage(m as nat) <= 52,
                nearest(neg, n as nat, x as int) == nearest(neg, m as nat, e as int),
            decreases TOP - n,
        {
            proof {
                lemma_nearest_doubles(neg, n as nat, x as int);
                lemma_shortage_bounds((2 * n) as nat);
            }
            n = 2 * n;
            x = x - 1;
        }
        proof {
            assert(shortage(n as nat) == 0);
            lemma2_to64();
            assert(n * pow2(0) == n) by (nonlinear_arith)
                requires
                    pow2(0) == 1,
            ;
        }
        return Real { neg, mant: n, exp: x };
    }
    let mut g: u128 = 1;
    let mut q: u128 = m;
    let mut x: i32 = e;
    let ghost mut k: nat = 0;
    proof {
        lemma2_to64();
        lemma_excess_bounds(m as nat);
        assert(excess(m as nat) <= 75) by {
            if excess(m as nat) > 75 {
                lemma_pow2_strictly_increases(75, excess(m as nat));
                assert(HIDDEN * pow2(excess(m as nat)) > HIDDEN * pow2(75)) by (nonlinear_arith)
                    requires
                        pow2(excess(m as nat)) > pow2(75),
                ;
                lemma_pow2_unfold(76);
                if excess(m as nat) > 76 {
                    lemma_pow2_strictly_increases(76, excess(m as nat));
                }
                assert(HIDDEN * pow2(excess(m as nat)) >= HIDDEN * pow2(76)) by (nonlinear_arith)
                    requires
                        pow2(excess(m as nat)) >= pow2(76),
                ;
            }
        }
    }
    while q >= TOP as u128
        invariant
            m >= TOP,
            g == pow2(k),
            g >= 1,
            g * q <= m,
            q == m / g,
            x == e + k,
            k + excess(q as nat) == excess(m as nat),
            excess(m as nat) <= 75,
            -0x1000_0000 <= e <= 0x1000_0000,
        decreases q,
    {
        proof {
            lemma_pow2_unfold(k + 1);
            lemma_div_denominator(m as int, g as int, 2);
            assert(g * 2 == 2 * g);
            assert(2 * g <= m) by (nonlinear_arith)
                requires
                    g * q <= m,
                    q >= 2,
            ;
            assert((2 * g) * (q / 2) <= m) by (nonlinear_arith)
                requires
                    g * q <= m,
                    2 * (q / 2) <= q,
                    g >= 1,
            ;
            k = k + 1;
        }
        g = 2 * g;
        q = q / 2;
        x = x + 1;
    }
    proof {
        assert(k == excess(m as nat));
        lemma_round_quotient_bounds(m as nat);
        lemma_pow2_pos(k);
        lemma_fundamental_div_mod(m as int, g as int);
    }
    let rest: u128 = m % g;
    let up: bool = rest > g - rest || (rest == g - rest && q % 2 == 1);
    let n: u64 = if up {
        q as u64 + 1
    } else {
        q as u64
    };
    if n == TOP {
        Real { neg, mant: HIDDEN, exp: x + 1 }
    } else {
        Real { neg, mant: n, exp: x }
    }
}

/// A number of at least `53 + j` bits is at least `j` bits too long.
pub(crate) proof fn lemma_excess_at_least(m: nat, j: nat)
    requires
        j >= 1,
        m >= HIDDEN * pow2(j),
    ensures
        m >= TOP,
        excess(m) >= j,
{
    lemma2_to64();
    lemma_pow2_unfold(j);
    lemma_pow2_pos((j - 1) as nat);
    assert(HIDDEN * pow2(j) >= TOP) by (nonlinear_arith)
        requires
            pow2(j) == 2 * pow2((j - 1) as nat),
            pow2((j - 1) as nat) >= 1,
            TOP == 2 * HIDDEN,
    ;
    lemma_excess_bounds(m);
    let k = excess(m);
    if k < j {
        lemma_pow2_unfold(j);
        if k < j - 1 {
            lemma_pow2_strictly_increases(k, (j - 1) as nat);
        }
        assert(TOP * pow2(k) <= HIDDEN * pow2(j)) by (nonlinear_arith)
            requires
                pow2(j) == 2 * pow2((j - 1) as nat),
                pow2(k) <= pow2((j - 1) as nat),
                TOP == 2 * HIDDEN,
        ;
    }
}

/// Next to a number whose unit is more than 2 to the power 56 times larger,
/// the other one gets lost.
proof fn lemma_sum_lost(neg: bool, hi: nat, lo: nat, d: nat, e: int, minus: bool)
    requires
        HIDDEN <= hi < TOP,
        0 < lo < TOP,
        d > 56,
        -0x1000_0000 <= e,
        e + d <= 0x1000_0000,
    ensures
        hi * pow2(d) > lo,
        minus ==> nearest(neg, (hi * pow2(d) - lo) as nat, e) == (Real {
            neg,
            mant: hi as u64,
            exp: (e + d) as i32,
        }),
        !minus ==> nearest(neg, hi * pow2(d) + lo, e) == (Real {
            neg,
            mant: hi as u64,
            exp: (e + d) as i32,
        }),
{
    let g = pow2(d);
    let h = pow2((d - 1) as nat);
    lemma2_to64();
    lemma2_to64_rest();
    lemma_pow2_unfold(d);
    assert(h >= 8 * TOP) by {
        lemma_pow2_adds(53, 3);
        assert(pow2(56) == 8 * TOP);
        if d - 1 > 56 {
            lemma_pow2_strictly_increases(56, (d - 1) as nat);
        }
    }
    assert(hi * g >= g) by (nonlinear_arith)
        requires
            hi >= 1,
            g >= 1,
    ;
    if !minus {
        let m = hi * g + lo;
        assert(HIDDEN * g <= m && m < TOP * g) by (nonlinear_arith)
            requires
                HIDDEN <= hi < TOP,
                m == hi * g + lo,
                0 <= lo < g,
        ;
        lemma_excess_is(m, d);
        lemma_fundamental_div_mod_converse(m as int, g as int, hi as int, lo as int);
    } else {
        let m = (hi * g - lo) as nat;
        if hi > HIDDEN {
            assert(HIDDEN * g <= m && m < TOP * g) by (nonlinear_arith)
                requires
                    HIDDEN + 1 <= hi < TOP,
                    m == hi * g - lo,
                    0 <= lo < g,
            ;
            lemma_excess_is(m, d);
            assert(m == (hi - 1) * g + (g - lo)) by (nonlinear_arith)
                requires
                    m == hi * g - lo,
            ;
            lemma_fundamental_div_mod_converse(m as int, g as int, hi - 1, g - lo);
        } else {
            assert(hi * g == TOP * h) by (nonlinear_arith)
                requires
                    hi == HIDDEN,
                    g == 2 * h,
                    TOP == 2 * HIDDEN,
            ;
            assert(HIDDEN * h <= m && m < TOP * h) by (nonlinear_arith)
                requires
                    m == TOP * h - lo,
                    0 < lo < h,
                    TOP == 2 * HIDDEN,
                    HIDDEN >= 1,
            ;
            lemma_excess_is(m, (d - 1) as nat);
            assert(m == (TOP - 1) * h + (h - lo)) by (nonlinear_arith)
                requires
                    m == TOP * h - lo,
            ;
            lemma_fundamental_div_mod_converse(m as int, h as int, TOP - 1, h - lo);
        }
    }
}

impl Real {
    /// Zero.
    #[must_use]
    pub fn zero() -> (r: Real)
        ensures
            r == nearest(false, 0, 0),
            r.wf(),
            r.mant == 0,
    {
        Real { neg: false, mant: 0, exp: 0 }
    }

    /// An integer as a real number.
    #[must_use]
    pub fn from_int(i: i64) -> (r: Real)
        ensures
            r == spec_int(i as int),
            r.wf(),
            r.mant == 0 <==> i == 0,
            r.mant != 0 ==> r.neg == (i < 0) && -52 <= r.exp <= 76,
    {
        let m: u128 = if i < 0 {
            (-(i as i128)) as u128
        } else {
            i as u128
        };
        round_to(i < 0, m, 0)
    }

    /// The fraction `num` over 2 to the power `places`.
    #[must_use]
    pub fn from_fraction(num: u64, places: i32) -> (r: Real)
        requires
            0 <= places <= 1000,
        ensures
            r == nearest(false, num as nat, -(places as int)),
            r.wf(),
            r.mant == 0 <==> num == 0,
            r.mant != 0 ==> !r.neg && -places - 52 <= r.exp <= 76 - places,
    {
        round_to(false, num as u128, -places)
    }

    /// The product.
    #[must_use]
    pub fn mul(self, other: Real) -> (r: Real)
        requires
            self.within(0x100_0000),
            other.within(0x100_0000),
        ensures
            r == self.spec_mul(other),
            r.wf(),
            r.mant == 0 <==> self.mant == 0 || other.mant == 0,
            r.mant != 0 ==> self.exp + other.exp + 52 <= r.exp <= self.exp + other.exp + 54,
    {
        let ghost m = (self.mant as nat) * (other.mant as nat);
        proof {
            assert(m < TOP * TOP) by (nonlinear_arith)
                requires
                    m == (self.mant as nat) * (other.mant as nat),
                    self.mant < TOP,
                    other.mant < TOP,
            ;
            assert(m == 0 <==> self.mant == 0 || other.mant == 0) by (nonlinear_arith)
                requires
                    m == (self.mant as nat) * (other.mant as nat),
            ;
            lemma2_to64();
            lemma2_to64_rest();
            if m > 0 {
                assert(m >= HIDDEN * HIDDEN) by (nonlinear_arith)
                    requires
                        m == (self.mant as nat) * (other.mant as nat),
                        self.mant >= HIDDEN,
                        other.mant >= HIDDEN,
                ;
                assert(pow2(52) == HIDDEN);
                assert(pow2(53) == TOP);
                lemma_excess_at_least(m, 52);
                lemma_nearest_wf(self.neg != other.neg, m, self.exp + other.exp, 53);
                lemma_round_quotient_bounds(m);
            }
        }
        round_to(self.neg != other.neg, self.mant as u128 * other.mant as u128, self.exp + other.exp)
    }

    /// The opposite.
    #[must_use]
    pub fn negate(self) -> (r: Real)
        requires
            self.wf(),
        ensures
            r == self.spec_negate(),
            r.wf(),
    {
        if self.mant == 0 {
            self
        } else {
            Real { neg: !self.neg, mant: self.mant, exp: self.exp }
        }
    }

    /// The sum.
    #[must_use]
    pub fn plus(self, other: Real) -> (r: Real)
        requires
            self.within(0x100_0000),
            other.within(0x100_0000),
        ensures
            r == self.spec_add(other),
            r.wf(),
            self.mant == 0 ==> r == other,
            other.mant == 0 ==> r == self,
            self.mant != 0 && other.mant != 0 && r.mant != 0 ==> {
                &&& (self.exp - 52 <= r.exp || other.exp - 52 <= r.exp)
                &&& (r.exp <= self.exp + 2 || r.exp <= other.exp + 2)
            },
    {
        if self.mant == 0 {
            return other;
        }
        if other.mant == 0 {
            return self;
        }
        if self.exp >= other.exp {
            let r: Real = self.sum_over(other);
            proof {
                lemma2_to64();
                assert(other.signed() * pow2(0) == other.signed()) by (nonlinear_arith)
                    requires
                        pow2(0) == 1,
                ;
                assert(self.exp == other.exp ==> self.signed() * pow2(0) == self.signed())
                    by (nonlinear_arith)
                    requires
                        pow2(0) == 1,
                ;
            }
            r
        } else {
            let r: Real = other.sum_over(self);
            proof {
                lemma2_to64();
                assert(self.signed() * pow2(0) == self.signed()) by (nonlinear_arith)
                    requires
                        pow2(0) == 1,
                ;
            }
            r
        }
    }

    /// The sum with a number whose unit is not larger.
    fn sum_over(self, lo: Real) -> (r: Real)
        requires
            self.within(0x100_0000),
            lo.within(0x100_0000),
            self.mant != 0,
            lo.mant != 0,
            self.exp >= lo.exp,
        ensures
            ({
                let s = self.signed() * pow2((self.exp - lo.exp) as nat) + lo.signed();
                r == nearest(s < 0, crate::map::abs(s) as nat, lo.exp as int)
            }),
            r.wf(),
            r.mant != 0 ==> lo.exp - 52 <= r.exp <= self.exp + 2,
    {
        let d: i32 = self.exp - lo.exp;
        let ghost g = pow2(d as nat);
        let ghost s = self.signed() * g + lo.signed();
        proof {
            lemma2_to64();
            lemma_pow2_pos(d as nat);
            assert((-(self.mant as int)) * g == -(self.mant * g)) by (nonlinear_arith);
        }
        if d > 70 {
            proof {
                lemma_sum_lost(
                    self.neg,
                    self.mant as nat,
                    lo.mant as nat,
                    d as nat,
                    lo.exp as int,
                    self.neg != lo.neg,
                );
            }
            return self;
        }
        let mut hi: u128 = self.mant as u128;
        let mut i: i32 = 0;
        proof {
            assert(hi * pow2(0) == hi) by (nonlinear_arith)
                requires
                    pow2(0) == 1,
            ;
            lemma2_to64_rest();
            lemma_pow2_adds(64, 6);
            assert(pow2(70) == 0x1_0000_0000_0000_0000 * 64);
        }
        while i < d
            invariant
                0 <= i <= d <= 70,
                hi == self.mant * pow2(i as nat),
                self.mant < TOP,
                pow2(70) == 0x1_0000_0000_0000_0000 * 64,
            decreases d - i,
        {
            proof {
                lemma_pow2_unfold((i + 1) as nat);
                lemma_pow2_pos(i as nat);
                if i < 70 {
                    lemma_pow2_strictly_increases(i as nat, 70);
                }
                assert(hi < TOP * pow2(70)) by (nonlinear_arith)
                    requires
                        hi == self.mant * pow2(i as nat),
                        self.mant < TOP,
                        pow2(i as nat) <= pow2(70),
                        pow2(i as nat) > 0,
                ;
                assert(self.mant * pow2((i + 1) as nat) == 2 * (self.mant * pow2(i as nat)))
                    by (nonlinear_arith)
                    requires
                        pow2((i + 1) as nat) == 2 * pow2(i as nat),
                ;
            }
            hi = 2 * hi;
            i += 1;
        }
        proof {
            if d < 70 {
                lemma_pow2_strictly_increases(d as nat, 70);
            }
            assert(hi < TOP * pow2(d as nat)) by (nonlinear_arith)
                requires
                    hi == self.mant * pow2(d as nat),
                    self.mant < TOP,
                    pow2(d as nat) > 0,
            ;
            assert(hi <= TOP * pow2(70)) by (nonlinear_arith)
                requires
                    hi < TOP * pow2(d as nat),
                    pow2(d as nat) <= pow2(70),
            ;
            assert(TOP * g >= TOP) by (nonlinear_arith)
                requires
                    g >= 1,
            ;
            lemma_pow2_unfold((d + 1) as nat);
            assert(2 * (TOP * g) == TOP * pow2((d + 1) as nat)) by (nonlinear_arith)
                requires
                    pow2((d + 1) as nat) == 2 * g,
            ;
            lemma_nearest_wf(
                s < 0,
                crate::map::abs(s) as nat,
                lo.exp as int,
                (d + 1) as nat,
            );
        }
        let l: u128 = lo.mant as u128;
        if self.neg == lo.neg {
            round_to(self.neg, hi + l, lo.exp)
        } else if hi >= l {
            round_to(self.neg, hi - l, lo.exp)
        } else {
            round_to(lo.neg, l - hi, lo.exp)
        }
    }

    /// The difference.
    #[must_use]
    pub fn minus(self, other: Real) -> (r: Real)
        requires
            self.within(0x100_0000),
            other.within(0x100_0000),
        ensures
            r == self.spec_sub(other),
            r.wf(),
            self.mant == 0 ==> r == other.spec_negate(),
            other.mant == 0 ==> r == self,
            self.mant != 0 && other.mant != 0 && r.mant != 0 ==> {
                &&& (self.exp - 52 <= r.exp || other.exp - 52 <= r.exp)
                &&& (r.exp <= self.exp + 2 || r.exp <= other.exp + 2)
            },
    {
        self.plus(other.negate())
    }

    /// The quotient.
    #[must_use]
    pub fn over(self, other: Real) -> (r: Real)
        requires
            self.within(0x100_0000),
            other.within(0x100_0000),
            other.mant != 0,
        ensures
            r == self.spec_div(other),
            r.wf(),
            r.mant == 0 <==> self.mant == 0,
            r.mant != 0 ==> self.exp - other.exp - 53 <= r.exp <= self.exp - other.exp - 51,
    {
        let n: u128 = self.mant as u128 * 0x1_0000_0000_0000_0000;
        let d: u128 = other.mant as u128;
        let q: u128 = n / d;
        let rest: u128 = if n % d > 0 {
            1
        } else {
            0
        };
        proof {
            lemma2_to64();
            lemma2_to64_rest();
            lemma_fundamental_div_mod(n as int, d as int);
            if self.mant == 0 {
                assert(0int / (d as int) == 0) by (nonlinear_arith)
                    requires
                        d > 0,
                ;
                assert(0int % (d as int) == 0) by (nonlinear_arith)
                    requires
                        d > 0,
                ;
            } else {
                assert(0x8000_0000_0000_0000 <= q) by (nonlinear_arith)
                    requires
                        n == d * q + n % d,
                        n % d < d,
                        n >= 0x10_0000_0000_0000 * 0x1_0000_0000_0000_0000,
                        0 < d < 0x20_0000_0000_0000,
                ;
                assert(q < 0x2_0000_0000_0000_0000) by (nonlinear_arith)
                    requires
                        n == d * q + n % d,
                        n % d >= 0,
                        n < 0x20_0000_0000_0000 * 0x1_0000_0000_0000_0000,
                        d >= 0x10_0000_0000_0000,
                ;
                let m = (2 * q + rest) as nat;
                assert(pow2(12) == 4096);
                assert(pow2(13) == 8192);
                lemma_excess_at_least(m, 12);
                lemma_nearest_wf(self.neg != other.neg, m, self.exp - other.exp - 65, 13);
                lemma_round_quotient_bounds(m);
            }
        }
        round_to(self.neg != other.neg, 2 * q + rest, self.exp - other.exp - 65)
    }

    /// Whether one number is less than the other.
    #[must_use]
    pub fn less(self, other: Real) -> (b: bool)
        requires
            self.within(0x100_0000),
            other.within(0x100_0000),
        ensures
            b == self.spec_less(other),
    {
        if self.mant == 0 {
            return other.mant != 0 && !other.neg;
        }
        if other.mant == 0 {
            return self.neg;
        }
        let ghost e = if self.exp < other.exp {
            self.exp
        } else {
            other.exp
        };
        let ghost ga = pow2((self.exp - e) as nat);
        let ghost gb = pow2((other.exp - e) as nat);
        proof {
            lemma2_to64();
            lemma_pow2_pos((self.exp - e) as nat);
            lemma_pow2_pos((other.exp - e) as nat);
            assert((-(self.mant as int)) * ga == -(self.mant * ga)) by (nonlinear_arith);
            assert((-(other.mant as int)) * gb == -(other.mant * gb)) by (nonlinear_arith);
            assert(self.mant * ga > 0) by (nonlinear_arith)
                requires
                    self.mant > 0,
                    ga > 0,
            ;
            assert(other.mant * gb > 0) by (nonlinear_arith)
                requires
                    other.mant > 0,
                    gb > 0,
            ;
            if self.exp > other.exp {
                lemma_pow2_unfold((self.exp - e) as nat);
                lemma_pow2_pos((self.exp - e - 1) as nat);
                assert(self.mant * ga > other.mant * gb) by (nonlinear_arith)
                    requires
                        self.mant >= HIDDEN,
                        ga >= 2,
                        gb == 1,
                        other.mant < TOP,
                        TOP == 2 * HIDDEN,
                ;
            } else if self.exp < other.exp {
                lemma_pow2_unfold((other.exp - e) as nat);
                lemma_pow2_pos((other.exp - e - 1) as nat);
                assert(self.mant * ga < other.mant * gb) by (nonlinear_arith)
                    requires
                        other.mant >= HIDDEN,
                        gb >= 2,
                        ga == 1,
                        self.mant < TOP,
                        TOP == 2 * HIDDEN,
                ;
            } else {
                assert(self.mant * ga == self.mant) by (nonlinear_arith)
                    requires
                        ga == 1,
                ;
                assert(other.mant * gb == other.mant) by (nonlinear_arith)
                    requires
                        gb == 1,
                ;
            }
        }
        if self.neg != other.neg {
            return self.neg;
        }
        let smaller: bool = if self.exp != other.exp {
            self.exp < other.exp
        } else {
            self.mant < other.mant
        };
        let larger: bool = if self.exp != other.exp {
            self.exp > other.exp
        } else {
            self.mant > other.mant
        };
        if self.neg {
            larger
        } else {
            smaller
        }
    }
}

/// Floor and rest of a negated number.
proof fn lemma_negated_division(m: int, p: int)
    requires
        m >= 0,
        p > 0,
    ensures
        m % p == 0 ==> (-m) / p == -(m / p) && (-m) % p == 0,
        m % p != 0 ==> (-m) / p == -(m / p) - 1 && (-m) % p == p - m % p,
{
    lemma_fundamental_div_mod(m, p);
    let q = m / p;
    let r = m % p;
    if r == 0 {
        assert(-m == -q * p + 0) by (nonlinear_arith)
            requires
                m == p * q,
        ;
        lemma_fundamental_div_mod_converse(-m, p, -q, 0);
    } else {
        assert(-m == (-q - 1) * p + (p - r)) by (nonlinear_arith)
            requires
                m == p * q + r,
        ;
        lemma_fundamental_div_mod_converse(-m, p, -q - 1, p - r);
    }
}

/// The parts of a number before and behind the point, where its last bit lies
/// at most 63 places behind it.
struct Parts {
    whole: u64,
    rest: u64,
    unit: u64,
}

impl Real {
    fn parts(self) -> (p: Parts)
        requires
            self.wf(),
            -64 < self.exp < 0,
        ensures
            p.unit == pow2((-self.exp) as nat),
            p.unit >= 2,
            p.whole == self.mant / p.unit,
            p.rest == self.mant % p.unit,
            p.whole < HIDDEN,
    {
        let k: i32 = -self.exp;
        let mut unit: u64 = 1;
        let mut i: i32 = 0;
        proof {
            lemma2_to64();
            lemma2_to64_rest();
        }
        while i < k
            invariant
                0 <= i <= k <= 63,
                unit == pow2(i as nat),
                pow2(63) == 0x8000_0000_0000_0000,
                i > 0 ==> unit >= 2,
            decreases k - i,
        {
            proof {
                lemma_pow2_unfold((i + 1) as nat);
                lemma_pow2_pos(i as nat);
                if i + 1 < 63 {
                    lemma_pow2_strictly_increases((i + 1) as nat, 63);
                }
            }
            unit = 2 * unit;
            i += 1;
        }
        proof {
            assert(self.mant / unit < HIDDEN) by (nonlinear_arith)
                requires
                    unit >= 2,
                    self.mant < TOP,
                    TOP == 2 * HIDDEN,
            ;
        }
        Parts { whole: self.mant / unit, rest: self.mant % unit, unit }
    }

    /// A number with its last bit 64 or more places behind the point is less
    /// than one half.
    proof fn lemma_tiny(self)
        requires
            self.wf(),
            self.exp <= -64,
        ensures
            self.mant as int / pow2((-self.exp) as nat) as int == 0,
            self.mant as int % pow2((-self.exp) as nat) as int == self.mant,
            2 * self.mant < pow2((-self.exp) as nat),
    {
        lemma2_to64();
        lemma2_to64_rest();
        if self.exp < -64 {
            lemma_pow2_strictly_increases(64, (-self.exp) as nat);
        }
        lemma_small_mod(self.mant as nat, pow2((-self.exp) as nat));
        lemma_basic_div(self.mant as int, pow2((-self.exp) as nat) as int);
    }

    /// A number without a fraction, beyond zero, is at least of 53 bits.
    proof fn lemma_large(self)
        requires
            self.wf(),
            self.exp >= 0,
            self.mant != 0,
        ensures
            self.mant * pow2(self.exp as nat) >= HIDDEN,
            (-(self.mant as int)) * pow2(self.exp as nat) == -(self.mant * pow2(self.exp as nat)),
    {
        lemma_pow2_pos(self.exp as nat);
        let g = pow2(self.exp as nat);
        assert(self.mant * g >= HIDDEN) by (nonlinear_arith)
            requires
                self.mant >= HIDDEN,
                g >= 1,
        ;
        assert((-(self.mant as int)) * g == -(self.mant * g)) by (nonlinear_arith);
    }

    /// The number without its fraction; the ends of the range beyond it.
    #[must_use]
    pub fn trunc_i32(self) -> (r: i32)
        requires
            self.wf(),
        ensures
            r == crate::rng::saturate32(self.spec_trunc()),
    {
        if self.mant == 0 {
            assert(0 * pow2(0) == 0) by (nonlinear_arith);
            return 0;
        }
        if self.exp >= 0 {
            proof {
                self.lemma_large();
                self.spec_negate().lemma_large();
            }
            return if self.neg {
                -2_147_483_648
            } else {
                2_147_483_647
            };
        }
        if self.exp <= -64 {
            proof {
                self.lemma_tiny();
                self.spec_negate().lemma_tiny();
            }
            return 0;
        }
        let p: Parts = self.parts();
        if p.whole > 2_147_483_648 {
            if self.neg {
                -2_147_483_648
            } else {
                2_147_483_647
            }
        } else if self.neg {
            (-(p.whole as i64)) as i32
        } else if p.whole == 2_147_483_648 {
            2_147_483_647
        } else {
            p.whole as i32
        }
    }

    /// The largest integer that is not greater, as a real number.
    #[must_use]
    pub fn floor(self) -> (r: Real)
        requires
            self.within(0x100_0000),
        ensures
            self.exp >= 0 ==> r == self,
            self.exp < 0 ==> r == spec_int(self.spec_floor()),
            r.wf(),
            r.mant != 0 ==> -52 <= r.exp && (r.exp <= 76 || r == self),
    {
        if self.exp >= 0 {
            return self;
        }
        if self.exp <= -64 {
            proof {
                self.lemma_tiny();
                lemma_pow2_pos((-self.exp) as nat);
                lemma_negated_division(self.mant as int, pow2((-self.exp) as nat) as int);
            }
            return if self.neg {
                Real::from_int(-1)
            } else {
                Real::from_int(0)
            };
        }
        let p: Parts = self.parts();
        proof {
            lemma_negated_division(self.mant as int, p.unit as int);
        }
        let whole: i64 = p.whole as i64;
        if !self.neg {
            Real::from_int(whole)
        } else if p.rest == 0 {
            Real::from_int(-whole)
        } else {
            Real::from_int(-whole - 1)
        }
    }

    /// The nearest integer of a number that is not negative, halves upwards;
    /// 0 for a negative number, the largest `i64` beyond the range.
    #[must_use]
    pub fn round_i64(self) -> (r: i64)
        requires
            self.wf(),
        ensures
            r == self.spec_round64(),
            0 <= r,
    {
        if self.mant == 0 || self.neg {
            assert(0 * pow2(0) == 0) by (nonlinear_arith);
            return 0;
        }
        if self.exp >= 0 {
            if self.exp > 10 {
                proof {
                    self.lemma_large();
                    lemma2_to64();
                    if self.exp > 11 {
                        lemma_pow2_strictly_increases(11, self.exp as nat);
                    }
                    let g = pow2(self.exp as nat);
                    assert(self.mant * g >= 0x8000_0000_0000_0000) by (nonlinear_arith)
                        requires
                            self.mant >= 0x10_0000_0000_0000,
                            g >= 2048,
                    ;
                }
                return 0x7fff_ffff_ffff_ffff;
            }
            let mut v: u64 = self.mant;
            let mut i: i32 = 0;
            proof {
                lemma2_to64();
                assert(self.mant * pow2(0) == self.mant) by (nonlinear_arith)
                    requires
                        pow2(0) == 1,
                ;
            }
            while i < self.exp
                invariant
                    0 <= i <= self.exp <= 10,
                    v == self.mant * pow2(i as nat),
                    self.mant < TOP,
                    pow2(10) == 1024,
                decreases self.exp - i,
            {
                proof {
                    lemma_pow2_unfold((i + 1) as nat);
                    if i + 1 < 10 {
                        lemma_pow2_strictly_increases((i + 1) as nat, 10);
                    }
                    assert(self.mant * pow2((i + 1) as nat) == 2 * (self.mant * pow2(i as nat)))
                        by (nonlinear_arith)
                        requires
                            pow2((i + 1) as nat) == 2 * pow2(i as nat),
                    ;
                    assert(self.mant * pow2((i + 1) as nat) <= TOP * 1024) by (nonlinear_arith)
                        requires
                            self.mant < TOP,
                            pow2((i + 1) as nat) <= 1024,
                    ;
                }
                v = 2 * v;
                i += 1;
            }
            proof {
                if self.exp < 10 {
                    lemma_pow2_strictly_increases(self.exp as nat, 10);
                }
                assert(self.mant * pow2(self.exp as nat) <= (TOP - 1) * 1024) by (nonlinear_arith)
                    requires
                        self.mant <= TOP - 1,
                        pow2(self.exp as nat) <= 1024,
                ;
            }
            return v as i64;
        }
        if self.exp <= -64 {
            proof {
                self.lemma_tiny();
            }
            return 0;
        }
        let p: Parts = self.parts();
        if p.rest >= p.unit - p.rest {
            p.whole as i64 + 1
        } else {
            p.whole as i64
        }
    }

    /// The number without its fraction; the ends of the range beyond it.
    #[must_use]
    pub fn trunc_i64(self) -> (r: i64)
        requires
            self.wf(),
        ensures
            r == saturate64(self.spec_trunc()),
    {
        if self.mant == 0 {
            assert(0 * pow2(0) == 0) by (nonlinear_arith);
            return 0;
        }
        if self.exp >= 0 {
            let ghost g = pow2(self.exp as nat);
            let size = Real { neg: false, mant: self.mant, exp: self.exp };
            proof {
                self.lemma_large();
                self.spec_negate().lemma_large();
                lemma2_to64();
                if self.exp > 10 {
                    if self.exp > 11 {
                        lemma_pow2_strictly_increases(11, self.exp as nat);
                    }
                    assert(self.mant * g >= 0x8000_0000_0000_0000) by (nonlinear_arith)
                        requires
                            self.mant >= 0x10_0000_0000_0000,
                            g >= 2048,
                    ;
                } else {
                    if self.exp < 10 {
                        lemma_pow2_strictly_increases(self.exp as nat, 10);
                    }
                    assert(self.mant * g <= (TOP - 1) * 1024) by (nonlinear_arith)
                        requires
                            self.mant <= TOP - 1,
                            g <= 1024,
                    ;
                }
            }
            if self.exp > 10 {
                return if self.neg {
                    -0x8000_0000_0000_0000
                } else {
                    0x7fff_ffff_ffff_ffff
                };
            }
            let v: i64 = size.round_i64();
            return if self.neg {
                -v
            } else {
                v
            };
        }
        if self.exp <= -64 {
            proof {
                self.lemma_tiny();
                self.spec_negate().lemma_tiny();
            }
            return 0;
        }
        let p: Parts = self.parts();
        if self.neg {
            -(p.whole as i64)
        } else {
            p.whole as i64
        }
    }

    /// The larger of the number and zero.
    #[must_use]
    pub fn at_least_zero(self) -> (r: Real)
        requires
            self.wf(),
        ensures
            r == self.spec_at_least_zero(),
            r.wf(),
    {
        if self.neg {
            Real::zero()
        } else {
            self
        }
    }

    pub open spec fn spec_at_least_zero(self) -> Real {
        if self.neg {
            nearest(false, 0, 0)
        } else {
            self
        }
    }

    /// The nearest integer of a number that is not negative, halves upwards;
    /// 0 for a negative number, the largest `i64` beyond the range.
    pub open spec fn spec_round64(self) -> int {
        if self.neg {
            0
        } else {
            let v = self.spec_floor() + (if self.upper_half() {
                1int
            } else {
                0int
            });
            if v > i64::MAX {
                i64::MAX as int
            } else {
                v
            }
        }
    }

    /// The number that the 64 bits of a double stand for; none for an
    /// infinity or what is not a number.
    #[must_use]
    pub fn from_bits(bits: u64) -> (r: Option<Real>)
        ensures
            r == double_at(bits),
            r matches Some(v) ==> v.within(1200),
    {
        let field: u64 = (bits / HIDDEN) % 2048;
        let fraction: u64 = bits % HIDDEN;
        let sign: bool = bits >= 0x8000_0000_0000_0000;
        if field == 2047 {
            None
        } else if field == 0 {
            Some(round_to(sign, fraction as u128, -1074))
        } else {
            Some(round_to(sign, fraction as u128 + HIDDEN as u128, field as i32 - 1075))
        }
    }
}

/// The nearest integer, halves upwards; the ends of the range beyond it.
#[must_use]
pub fn java_round(a: Real) -> (r: i32)
    requires
        a.wf(),
    ensures
        r == a.spec_round32(),
{
    if a.mant == 0 {
        assert(0 * pow2(0) == 0) by (nonlinear_arith);
        return 0;
    }
    if a.exp >= 0 {
        proof {
            a.lemma_large();
        }
        return if a.neg {
            -2_147_483_648
        } else {
            2_147_483_647
        };
    }
    if a.exp <= -64 {
        proof {
            a.lemma_tiny();
            lemma_pow2_pos((-a.exp) as nat);
            lemma_negated_division(a.mant as int, pow2((-a.exp) as nat) as int);
        }
        return 0;
    }
    let p: Parts = a.parts();
    proof {
        lemma_negated_division(a.mant as int, p.unit as int);
    }
    let whole: i64 = p.whole as i64;
    let floor: i64 = if !a.neg {
        whole
    } else if p.rest == 0 {
        -whole
    } else {
        -whole - 1
    };
    let upper: bool = if !a.neg {
        p.rest >= p.unit - p.rest
    } else {
        p.rest != 0 && p.rest <= p.unit - p.rest
    };
    let kept: i32 = if floor > 2_147_483_647 {
        2_147_483_647
    } else if floor < -2_147_483_648 {
        -2_147_483_648
    } else {
        floor as i32
    };
    if upper {
        kept.wrapping_add(1)
    } else {
        kept
    }
}

/// Rounding puts the halves up: what lies less than one half above an integer
/// goes down to it, everything else up.
pub proof fn lemma_round_half_up(a: Real)
    requires
        a.wf(),
        a.exp < 0,
        i32::MIN <= a.spec_floor() < i32::MAX,
    ensures
        ({
            let p = pow2((-a.exp) as nat);
            let r = a.spec_round32();
            2 * r * p - p <= 2 * a.signed() && 2 * a.signed() < 2 * r * p + p
        }),
{
    let p = pow2((-a.exp) as nat);
    lemma_pow2_pos((-a.exp) as nat);
    lemma_fundamental_div_mod(a.signed(), p as int);
    let f = a.spec_floor();
    let rest = a.signed() % p as int;
    assert(a.signed() == p * f + rest);
    if a.upper_half() {
        assert(2 * (f + 1) * p == 2 * (p * f) + 2 * p) by (nonlinear_arith);
    } else {
        assert(2 * f * p == 2 * (p * f)) by (nonlinear_arith);
    }
}

} // verus!
