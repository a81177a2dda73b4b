//! The fight's random stream.
//!
//! The stream is a linear congruential generator over a wrapping 64-bit
//! integer. Every random decision of a fight is drawn from one stream, in a
//! fixed order, so that equal seeds replay equal fights.

use vstd::arithmetic::div_mod::*;
use vstd::arithmetic::power2::*;
use vstd::prelude::*;

verus! {

/// Division that drops the fraction, whatever the sign of `a`.
pub open spec fn trunc_div(a: int, b: int) -> int {
    if a >= 0 {
        a / b
    } else {
        -((-a) / b)
    }
}

/// What [`trunc_div`] leaves over; it has the sign of `a`.
pub open spec fn trunc_rem(a: int, b: int) -> int {
    if a >= 0 {
        a % b
    } else {
        -((-a) % b)
    }
}

/// The 64-bit two's complement integer that `x` wraps to.
pub open spec fn wrap64(x: int) -> int {
    let m = x % 0x1_0000_0000_0000_0000;
    if m >= 0x8000_0000_0000_0000 {
        m - 0x1_0000_0000_0000_0000
    } else {
        m
    }
}

/// The 32-bit two's complement integer that `x` wraps to.
pub open spec fn wrap32(x: int) -> int {
    let m = x % 0x1_0000_0000;
    if m >= 0x8000_0000 {
        m - 0x1_0000_0000
    } else {
        m
    }
}

/// The state that follows the state `n`.
pub open spec fn successor(n: int) -> int {
    wrap64(n * 1103515245 + 12345)
}

/// The number out of 65536 that the state `n` stands for.
pub open spec fn fraction(n: int) -> int {
    trunc_rem(trunc_div(n, 65536), 32768) + 32768
}

/// The closest integer to `x` that an `i32` holds.
pub open spec fn saturate32(x: int) -> int {
    if x > i32::MAX {
        i32::MAX as int
    } else if x < i32::MIN {
        i32::MIN as int
    } else {
        x
    }
}

/// The distance between two neighbouring integers of 53 significant bits, at
/// the size of `x`.
pub open spec fn grain(x: nat) -> nat
    decreases x,
{
    if x < 0x20_0000_0000_0000 {
        1
    } else {
        2 * grain(x / 2)
    }
}

/// The integer of 53 significant bits that is nearest to `x`; halfway, the one
/// whose last bit is 0.
pub open spec fn round53(x: nat) -> nat {
    let g = grain(x);
    let q = x / g;
    let r = x % g;
    if 2 * r < g || (2 * r == g && q % 2 == 0) {
        q * g
    } else {
        (q + 1) * g
    }
}

/// Whether the bounds of an integer draw hold a value, as wrapping 32-bit
/// arithmetic counts them.
pub open spec fn drawable32(min: int, max: int) -> bool {
    wrap32(max - min + 1) > 0
}

/// Whether the bounds of a long draw hold a value, as wrapping 64-bit
/// arithmetic counts them.
pub open spec fn drawable64(min: int, max: int) -> bool {
    wrap64(max - min + 1) > 0
}

/// The state behind an integer draw from the state `n`: an empty range
/// consumes nothing.
pub open spec fn int_state(n: int, min: int, max: int) -> int {
    if drawable32(min, max) {
        successor(n)
    } else {
        n
    }
}

/// The integer drawn from the state `n`: 0 for an empty range.
pub open spec fn int_value(n: int, min: int, max: int) -> int {
    if drawable32(min, max) {
        wrap32(
            min + saturate32(trunc_div(fraction(successor(n)) * (max - min + 1), 65536)),
        )
    } else {
        0
    }
}

/// The state behind a long draw from the state `n`: an empty range consumes
/// nothing.
pub open spec fn long_state(n: int, min: int, max: int) -> int {
    if drawable64(min, max) {
        successor(n)
    } else {
        n
    }
}

/// The long drawn from the state `n`, scaled in 53 significant bits: 0 for an
/// empty range.
pub open spec fn long_value(n: int, min: int, max: int) -> int {
    if drawable64(min, max) {
        wrap64(
            min + round53(
                (fraction(successor(n)) * round53((max - min + 1) as nat)) as nat,
            ) as int / 65536,
        )
    } else {
        0
    }
}

/// The fight's random stream.
#[derive(Debug, Clone, Copy, PartialEq, Eq, Structural)]
pub struct OfficialRng {
    n: i64,
}

impl View for OfficialRng {
    type V = int;

    /// The state of the stream.
    closed spec fn view(&self) -> int {
        self.n as int
    }
}

/// The state always fits a 64-bit integer.
pub broadcast proof fn lemma_state_bounds(rng: OfficialRng)
    ensures
        i64::MIN <= #[trigger] rng@ <= i64::MAX,
{
}

/// A draw is one of the 65535 fractions strictly between 0 and 1.
pub proof fn lemma_fraction_bounds(n: int)
    ensures
        1 <= fraction(n) <= 65535,
{
    let d = trunc_div(n, 65536);
    if d >= 0 {
        assert(0 <= d % 32768 < 32768);
    } else {
        assert(0 <= (-d) % 32768 < 32768);
    }
}

/// A draw over a range that fits an `i32` lands inside it.
pub proof fn lemma_int_draw_in_range(n: int, min: int, max: int)
    requires
        i32::MIN <= min <= max <= i32::MAX,
        max - min < i32::MAX,
    ensures
        min <= int_value(n, min, max) <= max,
{
    let span = max - min + 1;
    let r = fraction(successor(n));
    lemma_fraction_bounds(successor(n));
    assert(wrap32(span) == span);
    assert(0 <= r * span < 65536 * span) by (nonlinear_arith)
        requires
            1 <= r <= 65535,
            1 <= span,
    ;
    let v = r * span / 65536;
    assert(0 <= v < span);
    assert(wrap32(min + v) == min + v);
}

/// An empty range draws nothing: the stream stays where it was.
pub proof fn lemma_empty_range_consumes_nothing(n: int, min: int, max: int)
    requires
        i32::MIN <= max < min <= i32::MAX,
        min - max <= i32::MAX,
    ensures
        int_value(n, min, max) == 0,
        int_state(n, min, max) == n,
{
    assert(wrap32(max - min + 1) == max - min + 1);
}

/// A long draw lands inside its range wherever there is something to draw, and
/// takes one step of the stream; otherwise it is 0 and takes none.
pub proof fn lemma_long_draw_in_range(n: int, min: int, max: int)
    requires
        i64::MIN <= min <= i64::MAX,
        i64::MIN <= max <= i64::MAX,
        max - min + 1 >= i64::MIN,
    ensures
        drawable64(min, max) ==> min <= long_value(n, min, max) <= max && long_state(n, min, max)
            == successor(n),
        !drawable64(min, max) ==> long_value(n, min, max) == 0 && long_state(n, min, max) == n,
        drawable64(min, max) <==> 1 <= max - min + 1 <= i64::MAX,
{
    let span = max - min + 1;
    if 0 <= span < 0x8000_0000_0000_0000 {
        assert(wrap64(span) == span);
    } else if span < 0 {
        assert(wrap64(span) == span);
    } else {
        assert(wrap64(span) == span - 0x1_0000_0000_0000_0000 || wrap64(span) == 0);
    }
    if drawable64(min, max) {
        let f = fraction(successor(n));
        lemma_fraction_bounds(successor(n));
        let s = round53(span as nat);
        let p = (f * s) as nat;
        assert(0 <= f * s <= 65535 * s) by (nonlinear_arith)
            requires
                1 <= f <= 65535,
                0 <= s,
        ;
        let q = round53(p);
        lemma_round53_close(span as nat);
        lemma_round53_close(p);
        assert(q < 65536 * span);
        let v = q as int / 65536;
        assert(0 <= v < span);
        assert(wrap64(min + v) == min + v);
    }
}

/// Rounding moves an integer by at most a part in 2 to the power 53.
proof fn lemma_round53_close(x: nat)
    ensures
        round53(x) * 0x20_0000_0000_0000 <= x * 0x20_0000_0000_0001,
{
    let g = grain(x);
    lemma_grain_small(x);
    let q = x / g;
    let r = x % g;
    lemma_fundamental_div_mod(x as int, g as int);
    assert(q * g == g * q) by (nonlinear_arith);
    assert((q + 1) * g == g * q + g) by (nonlinear_arith);
    assert(2 * round53(x) <= 2 * x + g);
    if x < 0x20_0000_0000_0000 {
        assert(g == 1);
        assert(r == 0);
        assert(round53(x) == x);
    }
}

/// The grain of an integer is a part in 2 to the power 52 of it.
proof fn lemma_grain_small(x: nat)
    ensures
        grain(x) >= 1,
        x >= 0x20_0000_0000_0000 ==> grain(x) * 0x10_0000_0000_0000 <= x,
    decreases x,
{
    if x >= 0x20_0000_0000_0000 {
        lemma_grain_small(x / 2);
    }
}

proof fn lemma_wrap64_step(a: int, b: int)
    ensures
        wrap64(wrap64(a) + b) == wrap64(a + b),
{
    let m: int = 0x1_0000_0000_0000_0000;
    assert((a % m + b) % m == (a + b) % m) by {
        lemma_add_mod_noop(a, b, m);
        lemma_add_mod_noop(a % m, b, m);
        lemma_mod_twice(a, m);
    }
    assert((a % m - m + b) % m == (a % m + b) % m) by {
        lemma_mod_add_multiples_vanish(a % m - m + b, m);
    }
}

proof fn lemma_grain_doubles(x: nat, k: nat, g: nat)
    requires
        g >= 1,
        grain(x) == g * grain(k),
        k == x / g,
        k >= 0x20_0000_0000_0000,
    ensures
        grain(x) == (2 * g) * grain(k / 2),
        k / 2 == x / (2 * g),
{
    assert(g * (2 * grain(k / 2)) == (2 * g) * grain(k / 2)) by (nonlinear_arith);
    lemma_div_denominator(x as int, g as int, 2);
    assert(g * 2 == 2 * g);
}

/// Rounds `x` to 53 significant bits, halves to even.
fn round_to_53_bits(x: u128) -> (r: u128)
    requires
        x <= 0xffff_ffff_ffff_ffff_ffff,
    ensures
        r == round53(x as nat),
{
    let mut g: u128 = 1;
    let mut k: u128 = x;
    while k >= 0x20_0000_0000_0000
        invariant
            x <= 0xffff_ffff_ffff_ffff_ffff,
            1 <= g,
            g == 1 || g <= x,
            g * k <= x,
            k == x / g,
            grain(x as nat) == g * grain(k as nat),
        decreases k,
    {
        proof {
            lemma_grain_doubles(x as nat, k as nat, g as nat);
            assert(2 * g <= x) by (nonlinear_arith)
                requires
                    g * k <= x,
                    k >= 2,
            ;
            assert((2 * g) * (k / 2) <= x) by (nonlinear_arith)
                requires
                    g * k <= x,
                    2 * (k / 2) <= k,
                    g >= 1,
            ;
        }
        g = 2 * g;
        k = k / 2;
    }
    proof {
        assert(grain(k as nat) == 1);
        assert(grain(x as nat) == g) by (nonlinear_arith)
            requires
                grain(x as nat) == g * grain(k as nat),
                grain(k as nat) == 1,
        ;
        lemma_fundamental_div_mod(x as int, g as int);
        assert(g * (x / g) <= x);
        assert(k * g <= x) by (nonlinear_arith)
            requires
                g * k <= x,
        ;
    }
    let rest: u128 = x % g;
    proof {
        assert((k + 1) * g <= x + g) by (nonlinear_arith)
            requires
                k * g <= x,
        ;
    }
    if 2 * rest < g || (2 * rest == g && k % 2 == 0) {
        k * g
    } else {
        (k + 1) * g
    }
}

impl OfficialRng {
    /// A stream that starts from `seed`.
    #[must_use]
    pub fn new(seed: i64) -> (rng: Self)
        ensures
            rng@ == seed,
    {
        OfficialRng { n: seed }
    }

    /// Starts the stream over from `seed`.
    pub fn seed(&mut self, seed: i64)
        ensures
            final(self)@ == seed,
    {
        self.n = seed;
    }

    /// Advances the stream by one draw and returns its numerator over 65536:
    /// the draw as a real number is the result divided by 65536, strictly
    /// between 0 and 1.
    pub fn draw(&mut self) -> (r: i64)
        ensures
            final(self)@ == successor(old(self)@),
            r == fraction(final(self)@),
            1 <= r <= 65535,
    {
        let product: i64 = self.n.wrapping_mul(1_103_515_245);
        self.n = product.wrapping_add(12_345);
        proof {
            lemma_wrap64_step(old(self).n * 1103515245, 12345);
            lemma_fraction_bounds(self.n as int);
        }
        (self.n / 65_536) % 32_768 + 32_768
    }

    /// An integer of `min..=max`. An empty range, or one too wide for an
    /// `i32`, gives 0 and draws nothing.
    pub fn get_int(&mut self, min: i32, max: i32) -> (r: i32)
        ensures
            final(self)@ == int_state(old(self)@, min as int, max as int),
            r == int_value(old(self)@, min as int, max as int),
    {
        let count: i32 = max.wrapping_sub(min).wrapping_add(1);
        assert(count == wrap32(max - min + 1));
        if count <= 0 {
            return 0;
        }
        let span: i64 = max as i64 - min as i64 + 1;
        let r: i64 = self.draw();
        proof {
            assert(-0x1_0000_0000 * 65535 <= r * span <= 0x1_0000_0000 * 65535) by (nonlinear_arith)
                requires
                    1 <= r <= 65535,
                    -0x1_0000_0000 <= span <= 0x1_0000_0000,
            ;
        }
        let scaled: i64 = (r * span) / 65_536;
        let offset: i32 = if scaled > 2_147_483_647 {
            2_147_483_647
        } else if scaled < -2_147_483_648 {
            -2_147_483_648
        } else {
            scaled as i32
        };
        min.wrapping_add(offset)
    }

    /// A long of `min..=max`, scaled in 53 significant bits. An empty range,
    /// or one too wide for an `i64`, gives 0 and draws nothing.
    pub fn get_long(&mut self, min: i64, max: i64) -> (r: i64)
        requires
            max - min + 1 >= i64::MIN,
        ensures
            final(self)@ == long_state(old(self)@, min as int, max as int),
            r == long_value(old(self)@, min as int, max as int),
            drawable64(min as int, max as int) ==> min <= r <= max,
    {
        proof {
            lemma_state_bounds(*self);
            lemma_long_draw_in_range(self@, min as int, max as int);
        }
        let count: i64 = max.wrapping_sub(min).wrapping_add(1);
        assert(count == wrap64(max - min + 1));
        if count <= 0 {
            return 0;
        }
        assert(count == max - min + 1);
        let span: u128 = round_to_53_bits(count as u128);
        let r: i64 = self.draw();
        proof {
            lemma_round53_bound(count as nat);
            assert(r as u128 * span <= 0xffff_ffff_ffff_ffff_ffff) by (nonlinear_arith)
                requires
                    1 <= r <= 65535,
                    span <= 0x8000_0000_0000_0000,
            ;
            assert(r as u128 * span <= 65535 * 0x8000_0000_0000_0000) by (nonlinear_arith)
                requires
                    1 <= r <= 65535,
                    span <= 0x8000_0000_0000_0000,
            ;
            lemma_round53_scaled_bound((r * span) as nat);
        }
        let scaled: u128 = round_to_53_bits(r as u128 * span) / 65_536;
        min.wrapping_add(scaled as i64)
    }
}

/// The grain of an integer below 2 to the power `53 + p` divides 2 to the
/// power `p`, and every multiple of it.
proof fn lemma_grain_divides(x: nat, p: nat, m: nat)
    requires
        x < 0x20_0000_0000_0000 * pow2(p),
    ensures
        grain(x) >= 1,
        (m * pow2(p)) % grain(x) == 0,
    decreases p,
{
    lemma2_to64();
    if x >= 0x20_0000_0000_0000 {
        assert(p > 0);
        lemma_pow2_unfold(p);
        let h = pow2((p - 1) as nat);
        lemma_grain_divides(x / 2, (p - 1) as nat, m);
        let g = grain(x / 2);
        lemma_fundamental_div_mod((m * h) as int, g as int);
        let q = (m * h) / g;
        assert(m * (2 * h) == (2 * g) * q) by (nonlinear_arith)
            requires
                m * h == g * q,
        ;
        lemma_mod_multiples_basic(q as int, (2 * g) as int);
        assert((2 * g) * q == q * (2 * g)) by (nonlinear_arith);
    }
}

/// Rounding an integer below 2 to the power 63 does not pass that power.
proof fn lemma_round53_bound(x: nat)
    requires
        x <= 0x7fff_ffff_ffff_ffff,
    ensures
        round53(x) <= 0x8000_0000_0000_0000,
{
    lemma2_to64();
    lemma_grain_divides(x, 10, 0x20_0000_0000_0000);
    lemma_round53_grid(x, 0x8000_0000_0000_0000);
}

/// Rounding a scaled span stays below 65536 times 2 to the power 63.
proof fn lemma_round53_scaled_bound(x: nat)
    requires
        x <= 65535 * 0x8000_0000_0000_0000,
    ensures
        round53(x) / 65536 <= 0x7fff_ffff_ffff_ffff,
{
    lemma2_to64();
    lemma_grain_divides(x, 26, 65535 * 0x20_0000_0000);
    lemma_round53_grid(x, 65535 * 0x8000_0000_0000_0000);
}

/// A multiple of the grain that bounds `x` bounds what `x` rounds to.
proof fn lemma_round53_grid(x: nat, bound: nat)
    requires
        x <= bound,
        bound % grain(x) == 0,
        grain(x) >= 1,
    ensures
        round53(x) <= bound,
{
    let g = grain(x);
    let q = x / g;
    lemma_fundamental_div_mod(x as int, g as int);
    lemma_fundamental_div_mod(bound as int, g as int);
    let b = bound / g;
    assert(q * g <= x) by (nonlinear_arith)
        requires
            x == g * q + x % g,
            x % g >= 0,
    ;
    if x % g != 0 {
        assert(q < b) by (nonlinear_arith)
            requires
                x == g * q + x % g,
                x % g > 0,
                bound == g * b,
                x <= bound,
                g >= 1,
        ;
        assert((q + 1) * g <= bound) by (nonlinear_arith)
            requires
                q < b,
                bound == g * b,
                g >= 1,
        ;
    }
}

} // verus!
