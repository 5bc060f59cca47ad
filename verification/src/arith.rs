//! Single-precision arithmetic on encodings: sum, product and quotient,
//! rounded to the nearest encodable number with ties to the even encoding.
//!
//! Every result is stated over the value model of [`crate::single`]: the
//! exact sum, product or quotient of the operands' values is a fraction of
//! two integers, and the result is the one encoding nearest to it. An exact
//! result beyond the largest finite number rounds to infinity because the
//! model places infinity where the next finite number would stand. A result
//! that is no number is always the one quiet NaN [`QUIET_NAN`], whatever the
//! hardware would put into its sign and payload.

use vstd::prelude::*;
use vstd::arithmetic::power2::{
    pow2,
    lemma2_to64,
    lemma2_to64_rest,
    lemma_pow2_adds,
    lemma_pow2_pos,
    lemma_pow2_strictly_increases,
    lemma_pow2_unfold,
};
use crate::single::{
    encodes_nan,
    exponent_of,
    fraction_of,
    lemma_magnitude_order,
    magnitude,
    magnitude_of,
    scaled_magnitude,
    scaled_value,
    sign_of,
    FRACTION_SPAN,
    INFINITY_BITS,
    SIGN_BIT,
};

verus! {

/// The NaN that every operation without a numeric result returns.
pub const QUIET_NAN: u32 = 0x7FC0_0000;

/// The significand of `bits`: the fraction, with its hidden leading bit
/// unless the exponent field is zero.
pub open spec fn significand_of(bits: u32) -> int {
    if exponent_of(bits) == 0 {
        fraction_of(bits) as int
    } else {
        FRACTION_SPAN + fraction_of(bits)
    }
}

/// The power of two that one step of the significand of `bits` is worth, in
/// the scale of [`scaled_magnitude`].
pub open spec fn step_of(bits: u32) -> nat {
    if exponent_of(bits) == 0 {
        0
    } else {
        (exponent_of(bits) - 1) as nat
    }
}

/// Whether `bits` encodes an infinity.
pub open spec fn encodes_infinity(bits: u32) -> bool {
    magnitude_of(bits) == INFINITY_BITS
}

/// Whether `bits` encodes a zero.
pub open spec fn encodes_zero(bits: u32) -> bool {
    magnitude_of(bits) == 0
}

/// The encoding with the given sign and magnitude.
pub open spec fn with_sign(negative: bool, magnitude: u32) -> u32 {
    if negative {
        (magnitude + SIGN_BIT) as u32
    } else {
        magnitude
    }
}

/// Whether the magnitude `m` is the nearest to the fraction `num / den`, in
/// the scale of [`scaled_magnitude`]: the fraction lies neither below the
/// midpoint between `m` and the magnitude before it nor above the midpoint
/// between `m` and the magnitude after it, and where it lies on a midpoint,
/// `m` is even. Infinity stands for everything from the last midpoint up.
pub open spec fn rounds_to(m: u32, num: int, den: int) -> bool {
    &&& m <= INFINITY_BITS
    &&& m > 0 ==> {
        let low = (scaled_magnitude((m - 1) as u32) + scaled_magnitude(m)) * den;
        low < 2 * num || (low == 2 * num && m % 2 == 0)
    }
    &&& m < INFINITY_BITS ==> {
        let high = (scaled_magnitude(m) + scaled_magnitude((m + 1) as u32)) * den;
        2 * num < high || (2 * num == high && m % 2 == 0)
    }
}

/// The magnitude nearest to the fraction `num / den`.
pub open spec fn nearest(num: int, den: int) -> u32 {
    choose|m: u32| rounds_to(m, num, den)
}

/// The scaled magnitude is the significand times two to the step.
pub proof fn lemma_scaled_is_significand_times_step(bits: u32)
    ensures
        scaled_magnitude(bits) == significand_of(bits) * pow2(step_of(bits)),
        0 <= significand_of(bits) < 2 * FRACTION_SPAN,
        step_of(bits) <= 254,
{
    lemma2_to64();
    if exponent_of(bits) == 0 {
        assert(significand_of(bits) * pow2(0) == significand_of(bits)) by (nonlinear_arith)
            requires
                pow2(0) == 1,
        ;
    }
}

/// A magnitude built from a step `u` and a significand `q` has the scaled
/// magnitude `q * 2^u`.
proof fn lemma_grid(u: int, q: int)
    requires
        0 <= u <= 253,
        0 <= q < 2 * FRACTION_SPAN,
        u > 0 ==> q >= FRACTION_SPAN,
    ensures
        0 <= u * FRACTION_SPAN + q < INFINITY_BITS,
        scaled_magnitude((u * FRACTION_SPAN + q) as u32) == q * pow2(u as nat),
        step_of((u * FRACTION_SPAN + q) as u32) == u,
        (u * FRACTION_SPAN + q) % 2 == q % 2,
{
    lemma2_to64();
    let m: u32 = (u * FRACTION_SPAN + q) as u32;
    assert(magnitude_of(m) == m);
    if q >= FRACTION_SPAN {
        vstd::arithmetic::div_mod::lemma_fundamental_div_mod_converse(
            m as int,
            FRACTION_SPAN as int,
            u + 1,
            q - FRACTION_SPAN,
        );
        assert(exponent_of(m) == u + 1 && fraction_of(m) == q - FRACTION_SPAN);
        assert(FRACTION_SPAN + (q - FRACTION_SPAN) == q);
    } else {
        vstd::arithmetic::div_mod::lemma_fundamental_div_mod_converse(
            m as int,
            FRACTION_SPAN as int,
            0,
            q,
        );
        assert(q * pow2(0) == q) by (nonlinear_arith)
            requires
                pow2(0) == 1,
        ;
    }
}

/// From one magnitude to the next the scaled magnitude grows by one step.
proof fn lemma_next(m: u32)
    requires
        m < INFINITY_BITS,
    ensures
        scaled_magnitude((m + 1) as u32) == scaled_magnitude(m) + pow2(step_of(m)),
        scaled_magnitude(m) >= 0,
{
    lemma2_to64();
    let e: int = exponent_of(m) as int;
    let f: int = fraction_of(m) as int;
    let span: int = FRACTION_SPAN as int;
    assert(magnitude_of(m) == m);
    assert(magnitude_of((m + 1) as u32) == m + 1);
    assert(m == span * e + f) by {
        vstd::arithmetic::div_mod::lemma_fundamental_div_mod(m as int, span);
    }
    lemma_pow2_pos(step_of(m));
    if f < span - 1 {
        vstd::arithmetic::div_mod::lemma_fundamental_div_mod_converse(m + 1, span, e, f + 1);
        if e != 0 {
            let p: int = pow2((e - 1) as nat) as int;
            assert((span + f + 1) * p == (span + f) * p + p) by (nonlinear_arith);
        }
    } else {
        vstd::arithmetic::div_mod::lemma_fundamental_div_mod_converse(m + 1, span, e + 1, 0);
        if e != 0 {
            let p: int = pow2((e - 1) as nat) as int;
            lemma_pow2_unfold(e as nat);
            assert(span * (2 * p) == (span + (span - 1)) * p + p) by (nonlinear_arith);
        }
    }
    assert(scaled_magnitude(m) >= 0) by {
        lemma_magnitude_order(m, 0);
    }
}

/// Scaling the fraction's two parts alike does not change what it rounds to.
proof fn lemma_rounds_to_scales(m: u32, num: int, den: int, factor: int)
    requires
        factor > 0,
    ensures
        rounds_to(m, num, den) <==> rounds_to(m, num * factor, den * factor),
{
    if m <= INFINITY_BITS {
        if m > 0 {
            let s: int = scaled_magnitude((m - 1) as u32) + scaled_magnitude(m);
            assert(s * (den * factor) == (s * den) * factor) by (nonlinear_arith);
            assert(2 * (num * factor) == (2 * num) * factor) by (nonlinear_arith);
            lemma_scale_compare(s * den, 2 * num, factor);
        }
        if m < INFINITY_BITS {
            let s: int = scaled_magnitude(m) + scaled_magnitude((m + 1) as u32);
            assert(s * (den * factor) == (s * den) * factor) by (nonlinear_arith);
            assert(2 * (num * factor) == (2 * num) * factor) by (nonlinear_arith);
            lemma_scale_compare(2 * num, s * den, factor);
        }
    }
}

proof fn lemma_scale_compare(x: int, y: int, factor: int)
    by (nonlinear_arith)
    requires
        factor > 0,
    ensures
        x < y <==> x * factor < y * factor,
        x == y <==> x * factor == y * factor,
{
}

/// At most one magnitude is nearest to a fraction.
pub proof fn lemma_rounds_to_one(first: u32, second: u32, num: int, den: int)
    requires
        den > 0,
        rounds_to(first, num, den),
        rounds_to(second, num, den),
    ensures
        first == second,
{
    if first < second {
        lemma_between(first, second, num, den);
    } else if second < first {
        lemma_between(second, first, num, den);
    }
}

proof fn lemma_between(low: u32, high: u32, num: int, den: int)
    requires
        den > 0,
        low < high,
        rounds_to(low, num, den),
        rounds_to(high, num, den),
    ensures
        low == high,
{
    let a: int = scaled_magnitude(low);
    let b: int = scaled_magnitude((low + 1) as u32);
    let c: int = scaled_magnitude((high - 1) as u32);
    let d: int = scaled_magnitude(high);
    assert(magnitude_of(low) == low && magnitude_of(high) == high);
    assert(magnitude_of((low + 1) as u32) == low + 1);
    assert(magnitude_of((high - 1) as u32) == high - 1);
    lemma_magnitude_order(low, (high - 1) as u32);
    lemma_magnitude_order((low + 1) as u32, high);
    assert(a <= c && b <= d);
    assert((a + b) * den <= (c + d) * den) by (nonlinear_arith)
        requires
            a + b <= c + d,
            den > 0,
    ;
    if low + 1 < high {
        assert(a < c);
        assert((a + b) * den < (c + d) * den) by (nonlinear_arith)
            requires
                a + b < c + d,
                den > 0,
        ;
    }
}

proof fn lemma_pow2_le(low: nat, high: nat)
    requires
        low <= high,
    ensures
        pow2(low) <= pow2(high),
{
    if low < high {
        lemma_pow2_strictly_increases(low, high);
    }
}

/// How far a fraction is shifted up by a binary exponent.
spec fn shift_up(t: int) -> nat {
    if t > 0 {
        t as nat
    } else {
        0
    }
}

/// How far a fraction is shifted down by a binary exponent.
spec fn shift_down(t: int) -> nat {
    if t < 0 {
        (-t) as nat
    } else {
        0
    }
}

/// The numerator of the fraction `(a / b) * 2^t`.
spec fn numerator(a: int, t: int) -> int {
    a * pow2(shift_up(t))
}

/// The denominator of the fraction `(a / b) * 2^t`.
spec fn denominator(b: int, t: int) -> int {
    b * pow2(shift_down(t))
}

fn power_of_two(k: u32) -> (p: u64)
    requires
        k <= 62,
    ensures
        p == pow2(k as nat),
        1 <= p <= 0x4000_0000_0000_0000,
{
    let mut p: u64 = 1;
    let mut i: u32 = 0;
    proof {
        lemma2_to64();
        lemma2_to64_rest();
    }
    while i < k
        invariant
            i <= k <= 62,
            p == pow2(i as nat),
            pow2(0) == 1,
            pow2(61) == 0x2000_0000_0000_0000,
            pow2(62) == 0x4000_0000_0000_0000,
        decreases k - i,
    {
        proof {
            lemma_pow2_le(i as nat, 61);
            lemma_pow2_unfold((i + 1) as nat);
        }
        p = p * 2;
        i = i + 1;
    }
    proof {
        lemma_pow2_le(k as nat, 62);
        lemma_pow2_pos(k as nat);
    }
    p
}

fn bit_length(n: u64) -> (len: u32)
    requires
        0 < n < 0x4000_0000_0000_0000,
    ensures
        1 <= len <= 62,
        pow2((len - 1) as nat) <= n < pow2(len as nat),
{
    let mut len: u32 = 1;
    let mut p: u64 = 2;
    proof {
        lemma2_to64();
        lemma2_to64_rest();
    }
    while p <= n
        invariant
            1 <= len <= 62,
            p == pow2(len as nat),
            pow2((len - 1) as nat) <= n,
            n < 0x4000_0000_0000_0000,
            pow2(62) == 0x4000_0000_0000_0000,
        decreases 62 - len,
    {
        proof {
            if len >= 62 {
                lemma_pow2_le(62, len as nat);
            }
            lemma_pow2_unfold((len + 1) as nat);
        }
        p = p * 2;
        len = len + 1;
    }
    len
}

/// Where a fraction stands between two neighbours of the grid.
///
/// The fraction is `(n * b + rem) * c / (b * d)` with `n == q * p + r`; the
/// grid step is `e`, and `p * c == e * d` ties the two scales together.
proof fn lemma_place(n: int, b: int, rem: int, p: int, q: int, r: int, c: int, d: int, e: int)
    requires
        n == q * p + r,
        p * c == e * d,
    ensures
        (n * b + rem) * c - (q * e) * (b * d) == c * (r * b + rem),
        2 * ((n * b + rem) * c) - ((q * e) + (q + 1) * e) * (b * d) == c * (2 * (r * b + rem)
            - p * b),
{
    let ed: int = e * d;
    assert((q * e) * (b * d) == q * b * ed) by (nonlinear_arith)
        requires
            ed == e * d,
    ;
    assert(((q * e) + (q + 1) * e) * (b * d) == (2 * q + 1) * b * ed) by (nonlinear_arith)
        requires
            ed == e * d,
    ;
    let pc: int = p * c;
    assert(ed == pc);
    assert((n * b + rem) * c == q * b * pc + c * (r * b + rem)) by (nonlinear_arith)
        requires
            n == q * p + r,
            pc == p * c,
    ;
    assert((2 * q + 1) * b * pc == 2 * (q * b * pc) + c * (p * b)) by (nonlinear_arith)
        requires
            pc == p * c,
    ;
    assert(c * (2 * (r * b + rem) - p * b) == 2 * (c * (r * b + rem)) - c * (p * b))
        by (nonlinear_arith);
}

proof fn lemma_infinity_magnitude()
    ensures
        scaled_magnitude(INFINITY_BITS) == pow2(277),
        scaled_magnitude(0u32) == 0,
        scaled_magnitude(1u32) == 1,
{
    lemma2_to64();
    lemma_pow2_adds(23, 254);
    assert(exponent_of(INFINITY_BITS) == 255 && fraction_of(INFINITY_BITS) == 0);
}

/// A fraction at or above a magnitude and below the next one rounds to one
/// of the two, by its place against their midpoint.
proof fn lemma_rounds_between(m: u32, num: int, den: int, up: bool)
    requires
        den > 0,
        m < INFINITY_BITS,
        scaled_magnitude(m) * den <= num,
        num < scaled_magnitude((m + 1) as u32) * den,
        ({
            let middle = (scaled_magnitude(m) + scaled_magnitude((m + 1) as u32)) * den;
            if up {
                middle < 2 * num || (middle == 2 * num && m % 2 == 1)
            } else {
                2 * num < middle || (middle == 2 * num && m % 2 == 0)
            }
        }),
    ensures
        rounds_to(
            if up {
                (m + 1) as u32
            } else {
                m
            },
            num,
            den,
        ),
{
    let here: int = scaled_magnitude(m);
    let next: int = scaled_magnitude((m + 1) as u32);
    assert(magnitude_of(m) == m && magnitude_of((m + 1) as u32) == m + 1);
    if up {
        if m + 1 < INFINITY_BITS {
            let after: int = scaled_magnitude((m + 2) as u32);
            assert(magnitude_of((m + 2) as u32) == m + 2);
            lemma_magnitude_order((m + 1) as u32, (m + 2) as u32);
            assert(2 * num < (next + after) * den) by (nonlinear_arith)
                requires
                    num < next * den,
                    next < after,
                    den > 0,
            ;
        }
    } else {
        if m > 0 {
            let before: int = scaled_magnitude((m - 1) as u32);
            assert(magnitude_of((m - 1) as u32) == m - 1);
            lemma_magnitude_order((m - 1) as u32, m);
            assert((before + here) * den < 2 * num) by (nonlinear_arith)
                requires
                    here * den <= num,
                    before < here,
                    den > 0,
            ;
        }
    }
}

/// The two scales of a rounding meet: dropping `shift` bits of a numerator
/// that stands `t` binary places up leaves it `u` places up.
proof fn lemma_scales_meet(t: int, u: int, shift: int)
    requires
        shift == u - t,
        u >= 0,
        shift >= 0,
    ensures
        pow2(shift as nat) * pow2(shift_up(t)) == pow2(u as nat) * pow2(shift_down(t)),
{
    lemma2_to64();
    if t >= 0 {
        lemma_pow2_adds(shift as nat, t as nat);
        assert(pow2(u as nat) * pow2(0) == pow2(u as nat)) by (nonlinear_arith)
            requires
                pow2(0) == 1,
        ;
    } else {
        lemma_pow2_adds(u as nat, (-t) as nat);
        assert(pow2(shift as nat) * pow2(0) == pow2(shift as nat)) by (nonlinear_arith)
            requires
                pow2(0) == 1,
        ;
    }
}

/// A fraction of at least two to the power 277 rounds to infinity.
proof fn lemma_round_overflow(n: int, b: int, rem: int, len: int, t: int)
    requires
        b >= 1,
        rem >= 0,
        1 <= len,
        pow2((len - 1) as nat) <= n,
        t > 0,
        len - 1 + t >= 277,
    ensures
        rounds_to(INFINITY_BITS, numerator(n * b + rem, t), denominator(b, t)),
{
    lemma2_to64();
    lemma_infinity_magnitude();
    let c: int = pow2(t as nat) as int;
    let num: int = (n * b + rem) * c;
    let den: int = b * pow2(0);
    lemma_pow2_adds((len - 1) as nat, t as nat);
    lemma_pow2_le(277, (len - 1 + t) as nat);
    lemma_pow2_pos(t as nat);
    lemma_pow2_pos((len - 1) as nat);
    let low_n: int = pow2((len - 1) as nat) as int;
    let top: int = pow2(277) as int;
    assert(top * b <= num) by (nonlinear_arith)
        requires
            num == (n * b + rem) * c,
            rem >= 0,
            n >= low_n,
            low_n * c >= top,
            b >= 1,
            c > 0,
            low_n > 0,
    ;
    let last: int = scaled_magnitude((INFINITY_BITS - 1) as u32);
    lemma_magnitude_order((INFINITY_BITS - 1) as u32, INFINITY_BITS);
    assert((last + top) * den < 2 * num) by (nonlinear_arith)
        requires
            last < top,
            top * b <= num,
            den == b * 1,
            b >= 1,
    ;
}

/// A fraction below one half of the smallest magnitude rounds to zero.
proof fn lemma_round_tiny(n: int, b: int, rem: int, len: int, t: int)
    requires
        b >= 1,
        0 <= rem < b,
        0 <= n < pow2(len as nat),
        1 <= len,
        t < 0,
        -t > len,
    ensures
        rounds_to(0u32, numerator(n * b + rem, t), denominator(b, t)),
{
    lemma2_to64();
    lemma_infinity_magnitude();
    let shift: int = -t;
    let num: int = (n * b + rem) * pow2(0);
    let d: int = pow2(shift as nat) as int;
    let den: int = b * d;
    lemma_pow2_le(len as nat, (shift - 1) as nat);
    lemma_pow2_unfold(shift as nat);
    assert(2 * num <= den) by (nonlinear_arith)
        requires
            num == (n * b + rem) * 1,
            rem < b,
            n + 1 <= pow2(len as nat),
            pow2(len as nat) <= pow2((shift - 1) as nat),
            d == 2 * pow2((shift - 1) as nat),
            den == b * d,
            b >= 1,
    ;
    assert((0 + 1) * den == den) by (nonlinear_arith);
}

/// A fraction that is a magnitude rounds to that magnitude.
proof fn lemma_round_exact(n: int, q: int, k: int, u: int, t: int)
    requires
        0 <= u <= 253,
        0 <= q < 2 * FRACTION_SPAN,
        u > 0 ==> q >= FRACTION_SPAN,
        k >= 0,
        t == u + k,
        q == n * pow2(k as nat),
    ensures
        rounds_to(
            (u * FRACTION_SPAN + q) as u32,
            numerator(n, t),
            denominator(1, t),
        ),
{
    lemma2_to64();
    lemma_grid(u, q);
    let m: u32 = (u * FRACTION_SPAN + q) as u32;
    lemma_next(m);
    lemma_pow2_pos(u as nat);
    lemma_pow2_adds(k as nat, u as nat);
    let c: int = pow2(shift_up(t)) as int;
    let num: int = n * c;
    let den: int = denominator(1, t);
    let here: int = scaled_magnitude(m);
    let next: int = scaled_magnitude((m + 1) as u32);
    assert(den == 1);
    assert(here == num) by (nonlinear_arith)
        requires
            here == q * pow2(u as nat),
            q == n * pow2(k as nat),
            c == pow2(k as nat) * pow2(u as nat),
            num == n * c,
    ;
    assert(here * den <= num && num < next * den && 2 * num < (here + next) * den)
        by (nonlinear_arith)
        requires
            here == num,
            here < next,
            den == 1,
    ;
    lemma_rounds_between(m, num, den, false);
}

/// A fraction between two neighbouring magnitudes rounds by the bits that
/// the floor drops.
proof fn lemma_round_main(
    n: int,
    b: int,
    rem: int,
    p: int,
    q: int,
    r: int,
    t: int,
    u: int,
    up: bool,
)
    requires
        0 <= u <= 253,
        0 <= q < 2 * FRACTION_SPAN,
        u > 0 ==> q >= FRACTION_SPAN,
        u - t >= 1,
        p == pow2((u - t) as nat),
        n == q * p + r,
        0 <= r < p,
        0 <= rem < b,
        up == (2 * (r * b + rem) > p * b || (2 * (r * b + rem) == p * b && q % 2 == 1)),
    ensures
        rounds_to(
            if up {
                (u * FRACTION_SPAN + q + 1) as u32
            } else {
                (u * FRACTION_SPAN + q) as u32
            },
            numerator(n * b + rem, t),
            denominator(b, t),
        ),
{
    let c: int = pow2(shift_up(t)) as int;
    let d: int = pow2(shift_down(t)) as int;
    let e: int = pow2(u as nat) as int;
    let num: int = (n * b + rem) * c;
    let den: int = b * d;
    lemma_pow2_pos(shift_up(t));
    lemma_pow2_pos(shift_down(t));
    lemma_pow2_pos(u as nat);
    lemma_grid(u, q);
    let m0: u32 = (u * FRACTION_SPAN + q) as u32;
    lemma_next(m0);
    lemma_scales_meet(t, u, u - t);
    assert(p * c == e * d);
    lemma_place(n, b, rem, p, q, r, c, d, e);
    let here: int = scaled_magnitude(m0);
    let next: int = scaled_magnitude((m0 + 1) as u32);
    assert(here == q * e);
    assert(next == (q + 1) * e) by (nonlinear_arith)
        requires
            next == here + e,
            here == q * e,
    ;
    let part: int = r * b + rem;
    assert(num - here * den == c * part);
    assert(2 * num - (here + next) * den == c * (2 * part - p * b));
    assert(den > 0) by (nonlinear_arith)
        requires
            den == b * d,
            b >= 1,
            d > 0,
    ;
    assert(part >= 0 && part < p * b) by (nonlinear_arith)
        requires
            part == r * b + rem,
            0 <= r < p,
            0 <= rem < b,
    ;
    assert(c * part >= 0) by (nonlinear_arith)
        requires
            c > 0,
            part >= 0,
    ;
    assert(next * den - here * den == c * (p * b)) by (nonlinear_arith)
        requires
            next == here + e,
            den == b * d,
            p * c == e * d,
    ;
    assert(c * part < c * (p * b)) by (nonlinear_arith)
        requires
            c > 0,
            part < p * b,
    ;
    let gap: int = 2 * part - p * b;
    assert((gap > 0 ==> c * gap > 0) && (gap < 0 ==> c * gap < 0) && (gap == 0 ==> c * gap == 0))
        by (nonlinear_arith)
        requires
            c > 0,
    ;
    lemma_rounds_between(m0, num, den, up);
}

/// The floor of a rounding has 24 bits at most, and exactly 24 above the
/// lowest steps.
proof fn lemma_floor_width(n: int, p: int, q: int, r: int, len: int, shift: int, u: int)
    requires
        1 <= shift <= len,
        p == pow2(shift as nat),
        n == q * p + r,
        0 <= r < p,
        pow2((len - 1) as nat) <= n < pow2(len as nat),
        len - shift <= 24,
        u > 0 ==> len - shift == 24,
    ensures
        0 <= q < 2 * FRACTION_SPAN,
        u > 0 ==> q >= FRACTION_SPAN,
{
    lemma2_to64();
    let width: nat = (len - shift) as nat;
    lemma_pow2_adds(width, shift as nat);
    lemma_pow2_le(width, 24);
    lemma_pow2_pos(shift as nat);
    assert(q < pow2(width)) by (nonlinear_arith)
        requires
            n == q * p + r,
            r >= 0,
            n < pow2(width) * p,
            p > 0,
    ;
    assert(q >= 0) by (nonlinear_arith)
        requires
            n == q * p + r,
            r < p,
            n >= 0,
            p > 0,
    ;
    if u > 0 {
        lemma_pow2_adds(23, shift as nat);
        assert(q >= pow2(23)) by (nonlinear_arith)
            requires
                n == q * p + r,
                r < p,
                n >= pow2(23) * p,
                p > 0,
        ;
    }
}

/// Rounds the fraction `(a / b) * 2^t`, in the scale of
/// [`scaled_magnitude`], to the nearest magnitude.
///
/// A divisor other than one must leave a quotient of at least 26 bits, so
/// that what the division drops lies below the place of rounding.
fn round(a: u64, b: u64, t: i32) -> (m: u32)
    requires
        a < 0x4000_0000_0000_0000,
        1 <= b < 0x200_0000,
        -2000 <= t <= 2000,
        b > 1 ==> a / b >= 0x200_0000,
    ensures
        rounds_to(m, numerator(a as int, t as int), denominator(b as int, t as int)),
{
    let n: u64 = a / b;
    let rem: u64 = a % b;
    proof {
        vstd::arithmetic::div_mod::lemma_fundamental_div_mod(a as int, b as int);
        assert(a == n * b + rem) by (nonlinear_arith)
            requires
                a == b * n + rem,
        ;
    }
    if n == 0 {
        proof {
            assert(a == 0);
            lemma_rounds_to_zero(b as int, t as int);
        }
        return 0;
    }
    let len: u32 = bit_length(n);
    let hi: i32 = len as i32 - 1 + t;
    let u: i32 = if hi > 23 {
        hi - 23
    } else {
        0
    };
    if u > 253 {
        proof {
            lemma_round_overflow(n as int, b as int, rem as int, len as int, t as int);
        }
        return INFINITY_BITS;
    }
    let shift: i32 = u - t;
    if shift <= 0 {
        let k: u32 = (t - u) as u32;
        assert(b == 1) by {
            if b > 1 {
                lemma2_to64();
                lemma_pow2_le(len as nat, 25);
            }
        }
        let scale: u64 = power_of_two(k);
        proof {
            lemma2_to64();
            lemma_pow2_adds(len as nat, k as nat);
            lemma_pow2_adds((len - 1) as nat, k as nat);
            lemma_pow2_le((len + k) as nat, 24);
            assert(n * scale < pow2((len + k) as nat)) by (nonlinear_arith)
                requires
                    n < pow2(len as nat),
                    scale > 0,
                    pow2((len + k) as nat) == pow2(len as nat) * scale,
            ;
            assert(n * scale >= pow2((len - 1 + k) as nat)) by (nonlinear_arith)
                requires
                    n >= pow2((len - 1) as nat),
                    scale > 0,
                    pow2((len - 1 + k) as nat) == pow2((len - 1) as nat) * scale,
            ;
        }
        let q: u64 = n * scale;
        proof {
            lemma_round_exact(n as int, q as int, k as int, u as int, t as int);
            assert(a == n);
        }
        return (u as u32) * 0x0080_0000 + (q as u32);
    }
    if shift > len as i32 {
        proof {
            lemma_round_tiny(n as int, b as int, rem as int, len as int, t as int);
        }
        return 0;
    }
    let p: u64 = power_of_two(shift as u32);
    let q: u64 = n / p;
    let r: u64 = n % p;
    proof {
        vstd::arithmetic::div_mod::lemma_fundamental_div_mod(n as int, p as int);
        assert(n == q * p + r) by (nonlinear_arith)
            requires
                n == p * q + r,
        ;
        lemma_floor_width(
            n as int,
            p as int,
            q as int,
            r as int,
            len as int,
            shift as int,
            u as int,
        );
        assert((r as int) * (b as int) + rem < (p as int) * (b as int)) by (nonlinear_arith)
            requires
                r < p,
                rem < b,
                r >= 0,
        ;
        assert((p as int) * (b as int) < 0x4000_0000_0000_0000 * 0x200_0000) by (nonlinear_arith)
            requires
                p <= 0x4000_0000_0000_0000,
                b < 0x200_0000,
                p >= 1,
                b >= 1,
        ;
        assert((r as int) * (b as int) >= 0) by (nonlinear_arith)
            requires
                r >= 0,
                b >= 0,
        ;
    }
    let left: u128 = 2 * ((r as u128) * (b as u128) + (rem as u128));
    let right: u128 = (p as u128) * (b as u128);
    let up: bool = left > right || (left == right && q % 2 == 1);
    proof {
        lemma_round_main(
            n as int,
            b as int,
            rem as int,
            p as int,
            q as int,
            r as int,
            t as int,
            u as int,
            up,
        );
        lemma_grid(u as int, q as int);
    }
    if up {
        (u as u32) * 0x0080_0000 + (q as u32) + 1
    } else {
        (u as u32) * 0x0080_0000 + (q as u32)
    }
}

/// Nothing rounds to zero like zero itself.
proof fn lemma_rounds_to_zero(b: int, t: int)
    requires
        b >= 1,
    ensures
        rounds_to(0u32, numerator(0, t), denominator(b, t)),
{
    lemma_infinity_magnitude();
    lemma_pow2_pos(shift_down(t));
    let den: int = denominator(b, t);
    assert(den > 0) by (nonlinear_arith)
        requires
            den == b * pow2(shift_down(t)),
            b >= 1,
            pow2(shift_down(t)) > 0,
    ;
    assert((0 + 1) * den == den) by (nonlinear_arith);
    assert(numerator(0, t) == 0) by (nonlinear_arith)
        requires
            numerator(0, t) == 0 * pow2(shift_up(t)),
    ;
}

/// Two fractions of the same value round alike.
proof fn lemma_same_fraction(m: u32, num: int, den: int, other_num: int, other_den: int)
    requires
        den > 0,
        other_den > 0,
        num * other_den == other_num * den,
        rounds_to(m, num, den),
    ensures
        rounds_to(m, other_num, other_den),
{
    lemma_rounds_to_scales(m, num, den, other_den);
    lemma_rounds_to_scales(m, other_num, other_den, den);
    assert(den * other_den == other_den * den) by (nonlinear_arith);
}

/// What a fraction rounds to is its nearest magnitude.
proof fn lemma_nearest_is(m: u32, num: int, den: int)
    requires
        den > 0,
        rounds_to(m, num, den),
    ensures
        nearest(num, den) == m,
{
    lemma_rounds_to_one(m, nearest(num, den), num, den);
}

/// Products of numbers that each carry a power of two.
proof fn lemma_power_product(x: int, i: nat, y: int, j: nat)
    ensures
        (x * pow2(i)) * (y * pow2(j)) == (x * y) * pow2(i + j),
{
    lemma_pow2_adds(i, j);
    let p: int = pow2(i) as int;
    let q: int = pow2(j) as int;
    assert((x * p) * (y * q) == (x * y) * (p * q)) by (nonlinear_arith);
}

/// The significand and the step of a finite magnitude.
fn parts(m: u32) -> (parts: (u64, i32))
    requires
        m < INFINITY_BITS,
    ensures
        parts.0 == significand_of(m),
        parts.1 == step_of(m),
        parts.0 < 0x100_0000,
        0 <= parts.1 <= 253,
        scaled_magnitude(m) == parts.0 * pow2(parts.1 as nat),
        m >= FRACTION_SPAN ==> parts.0 >= FRACTION_SPAN,
        m > 0 ==> parts.0 > 0,
{
    proof {
        lemma_scaled_is_significand_times_step(m);
        assert(magnitude_of(m) == m);
    }
    let exponent: u32 = m / 0x0080_0000;
    let fraction: u32 = m % 0x0080_0000;
    if exponent == 0 {
        (fraction as u64, 0)
    } else {
        ((0x0080_0000 + fraction) as u64, (exponent - 1) as i32)
    }
}

/// The product of two single-precision numbers.
///
/// A NaN operand, or zero times infinity, gives the NaN. Otherwise the sign
/// is negative exactly when the operands' signs differ; an infinity gives
/// infinity, and two finite numbers give the magnitude nearest to the
/// product of their values.
pub open spec fn product_of(a: u32, b: u32) -> u32 {
    let negative = sign_of(a) != sign_of(b);
    if encodes_nan(a) || encodes_nan(b) {
        QUIET_NAN
    } else if encodes_infinity(a) || encodes_infinity(b) {
        if encodes_zero(a) || encodes_zero(b) {
            QUIET_NAN
        } else {
            with_sign(negative, INFINITY_BITS)
        }
    } else {
        with_sign(
            negative,
            nearest(scaled_magnitude(a) * scaled_magnitude(b), pow2(149) as int),
        )
    }
}

fn signed(negative: bool, m: u32) -> (bits: u32)
    requires
        m <= INFINITY_BITS,
    ensures
        bits == with_sign(negative, m),
{
    if negative {
        m + SIGN_BIT
    } else {
        m
    }
}

/// Multiplies two single-precision numbers as the hardware does, but for
/// the sign and payload of a NaN.
pub fn product(a: u32, b: u32) -> (product: u32)
    ensures
        product == product_of(a, b),
{
    let ma: u32 = magnitude(a);
    let mb: u32 = magnitude(b);
    let negative: bool = (a >= SIGN_BIT) != (b >= SIGN_BIT);
    if ma > INFINITY_BITS || mb > INFINITY_BITS {
        return QUIET_NAN;
    }
    if ma == INFINITY_BITS || mb == INFINITY_BITS {
        if ma == 0 || mb == 0 {
            return QUIET_NAN;
        }
        return signed(negative, INFINITY_BITS);
    }
    let (sa, ua) = parts(ma);
    let (sb, ub) = parts(mb);
    proof {
        assert(sa * sb < 0x100_0000 * 0x100_0000) by (nonlinear_arith)
            requires
                0 <= sa < 0x100_0000,
                0 <= sb < 0x100_0000,
        ;
    }
    let n: u64 = sa * sb;
    let t: i32 = ua + ub - 149;
    let m: u32 = round(n, 1, t);
    proof {
        lemma_product_fraction(m, ma, mb, t as int);
        assert(scaled_magnitude(a) == scaled_magnitude(ma) && scaled_magnitude(b)
            == scaled_magnitude(mb));
    }
    signed(negative, m)
}

proof fn lemma_product_fraction(m: u32, ma: u32, mb: u32, t: int)
    requires
        t == step_of(ma) + step_of(mb) - 149,
        rounds_to(m, numerator(significand_of(ma) * significand_of(mb), t), denominator(1, t)),
    ensures
        nearest(scaled_magnitude(ma) * scaled_magnitude(mb), pow2(149) as int) == m,
{
    let sa: int = significand_of(ma);
    let sb: int = significand_of(mb);
    let ua: nat = step_of(ma);
    let ub: nat = step_of(mb);
    lemma_scaled_is_significand_times_step(ma);
    lemma_scaled_is_significand_times_step(mb);
    lemma_power_product(sa, ua, sb, ub);
    let n: int = sa * sb;
    let num: int = numerator(n, t);
    let den: int = denominator(1, t);
    let exact: int = scaled_magnitude(ma) * scaled_magnitude(mb);
    let unit: int = pow2(149) as int;
    lemma_pow2_pos(149);
    lemma_pow2_pos(shift_down(t));
    lemma_power_product(n, shift_up(t), 1, 149);
    lemma_power_product(n, ua + ub, 1, shift_down(t));
    assert(num * unit == exact * den) by (nonlinear_arith)
        requires
            num == n * pow2(shift_up(t)),
            den == 1 * pow2(shift_down(t)),
            exact == n * pow2(ua + ub),
            (n * pow2(shift_up(t))) * (1 * pow2(149)) == (n * 1) * pow2(shift_up(t) + 149),
            (n * pow2(ua + ub)) * (1 * pow2(shift_down(t))) == (n * 1) * pow2(
                ua + ub + shift_down(t),
            ),
            shift_up(t) + 149 == ua + ub + shift_down(t),
            unit == pow2(149),
    ;
    lemma_same_fraction(m, num, den, exact, unit);
    lemma_nearest_is(m, exact, unit);
}

/// The sum of two single-precision numbers.
///
/// A NaN operand, or the sum of the two infinities, gives the NaN; an
/// infinity and anything else give that infinity. Two finite numbers give
/// the magnitude nearest to the sum of their values, under the sign of that
/// sum. A sum of zero is the positive zero unless both operands are
/// negative.
pub open spec fn sum_of(a: u32, b: u32) -> u32 {
    if encodes_nan(a) || encodes_nan(b) {
        QUIET_NAN
    } else if encodes_infinity(a) {
        if encodes_infinity(b) && sign_of(a) != sign_of(b) {
            QUIET_NAN
        } else {
            a
        }
    } else if encodes_infinity(b) {
        b
    } else {
        let exact = scaled_value(a) + scaled_value(b);
        if exact == 0 {
            if sign_of(a) && sign_of(b) {
                SIGN_BIT
            } else {
                0
            }
        } else if exact < 0 {
            with_sign(true, nearest(-exact, 1))
        } else {
            with_sign(false, nearest(exact, 1))
        }
    }
}

/// The encoding of the same number under the other sign.
pub open spec fn negation_of(bits: u32) -> u32 {
    with_sign(!sign_of(bits), magnitude_of(bits))
}

/// The difference of two single-precision numbers: the sum of the first and
/// the negation of the second.
pub open spec fn difference_of(a: u32, b: u32) -> u32 {
    sum_of(a, negation_of(b))
}

/// A number far below another does not move it: the sum and the difference
/// of the two round to the greater.
proof fn lemma_round_far(big: u32, small: u32, subtract: bool)
    requires
        small <= big < INFINITY_BITS,
        step_of(big) > step_of(small) + 36,
    ensures
        rounds_to(
            big,
            if subtract {
                scaled_magnitude(big) - scaled_magnitude(small)
            } else {
                scaled_magnitude(big) + scaled_magnitude(small)
            },
            1,
        ),
{
    lemma2_to64();
    let top: nat = step_of(big);
    let here: int = scaled_magnitude(big);
    let tiny: int = scaled_magnitude(small);
    lemma_scaled_is_significand_times_step(small);
    lemma_next(big);
    assert(magnitude_of(big) == big && magnitude_of(small) == small);
    assert(big > 0);
    let under: u32 = (big - 1) as u32;
    lemma_next(under);
    assert(magnitude_of(under) == under);
    assert(step_of(under) + 1 >= top);
    lemma_pow2_le((top - 1) as nat, step_of(under));
    lemma_pow2_unfold(top);
    // The small number is below two to the step of the big one, by far.
    lemma_pow2_adds(24, step_of(small));
    lemma_pow2_le(24 + step_of(small), (top - 2) as nat);
    lemma_pow2_unfold((top - 1) as nat);
    lemma_pow2_pos(step_of(small));
    assert(tiny < pow2(24 + step_of(small))) by (nonlinear_arith)
        requires
            tiny == significand_of(small) * pow2(step_of(small)),
            significand_of(small) < 0x100_0000,
            pow2(24) == 0x100_0000,
            pow2(24 + step_of(small)) == pow2(24) * pow2(step_of(small)),
            pow2(step_of(small)) > 0,
    ;
    assert(tiny >= 0) by {
        lemma_magnitude_order(small, 0);
    }
    let before: int = scaled_magnitude(under);
    let after: int = scaled_magnitude((big + 1) as u32);
    let exact: int = if subtract {
        here - tiny
    } else {
        here + tiny
    };
    assert(4 * tiny < pow2(top));
    assert((before + here) * 1 < 2 * exact);
    assert(2 * exact < (here + after) * 1);
}

/// Rounds the sum or the difference of two finite magnitudes, the first
/// being the greater.
fn combine(big: u32, small: u32, subtract: bool) -> (m: u32)
    requires
        small <= big < INFINITY_BITS,
    ensures
        rounds_to(
            m,
            if subtract {
                scaled_magnitude(big) - scaled_magnitude(small)
            } else {
                scaled_magnitude(big) + scaled_magnitude(small)
            },
            1,
        ),
{
    let (sb, ub) = parts(big);
    let (ss, us) = parts(small);
    proof {
        assert(magnitude_of(big) == big && magnitude_of(small) == small);
        assert(exponent_of(small) <= exponent_of(big));
    }
    let gap: i32 = ub - us;
    if gap > 36 {
        proof {
            lemma_round_far(big, small, subtract);
        }
        return big;
    }
    let scale: u64 = power_of_two(gap as u32);
    proof {
        lemma2_to64();
        lemma2_to64_rest();
        lemma_pow2_le(gap as nat, 36);
        assert(sb * scale < 0x100_0000 * 0x10_0000_0000 + 0) by (nonlinear_arith)
            requires
                0 <= sb < 0x100_0000,
                0 < scale <= 0x10_0000_0000,
        ;
        lemma_pow2_adds(gap as nat, us as nat);
        lemma_pow2_pos(us as nat);
        lemma_magnitude_order(small, big);
        assert(scaled_magnitude(big) == (sb * scale) * pow2(us as nat)) by (nonlinear_arith)
            requires
                scaled_magnitude(big) == sb * pow2(ub as nat),
                pow2(ub as nat) == scale * pow2(us as nat),
        ;
        assert(ss <= sb * scale) by (nonlinear_arith)
            requires
                ss * pow2(us as nat) <= (sb * scale) * pow2(us as nat),
                pow2(us as nat) > 0,
        ;
    }
    let n: u64 = if subtract {
        sb * scale - ss
    } else {
        sb * scale + ss
    };
    let m: u32 = round(n, 1, us);
    proof {
        let exact: int = if subtract {
            scaled_magnitude(big) - scaled_magnitude(small)
        } else {
            scaled_magnitude(big) + scaled_magnitude(small)
        };
        assert(numerator(n as int, us as int) == exact) by (nonlinear_arith)
            requires
                numerator(n as int, us as int) == n * pow2(us as nat),
                scaled_magnitude(big) == (sb * scale) * pow2(us as nat),
                scaled_magnitude(small) == ss * pow2(us as nat),
                subtract ==> n == sb * scale - ss,
                !subtract ==> n == sb * scale + ss,
                exact == if subtract {
                    scaled_magnitude(big) - scaled_magnitude(small)
                } else {
                    scaled_magnitude(big) + scaled_magnitude(small)
                },
        ;
        assert(denominator(1, us as int) == 1);
    }
    m
}

/// Adds two single-precision numbers as the hardware does, but for the sign
/// and payload of a NaN.
pub fn sum(a: u32, b: u32) -> (sum: u32)
    ensures
        sum == sum_of(a, b),
{
    let ma: u32 = magnitude(a);
    let mb: u32 = magnitude(b);
    let na: bool = a >= SIGN_BIT;
    let nb: bool = b >= SIGN_BIT;
    if ma > INFINITY_BITS || mb > INFINITY_BITS {
        return QUIET_NAN;
    }
    if ma == INFINITY_BITS {
        if mb == INFINITY_BITS && na != nb {
            return QUIET_NAN;
        }
        return a;
    }
    if mb == INFINITY_BITS {
        return b;
    }
    proof {
        lemma_magnitude_order(ma, mb);
        lemma_magnitude_order(ma, 0);
        lemma_magnitude_order(mb, 0);
        assert(scaled_magnitude(a) == scaled_magnitude(ma) && scaled_magnitude(b)
            == scaled_magnitude(mb));
    }
    if na == nb {
        if ma == 0 && mb == 0 {
            return if na {
                SIGN_BIT
            } else {
                0
            };
        }
        let m: u32 = if ma >= mb {
            combine(ma, mb, false)
        } else {
            combine(mb, ma, false)
        };
        proof {
            lemma_nearest_is(m, scaled_magnitude(ma) + scaled_magnitude(mb), 1);
        }
        signed(na, m)
    } else {
        if ma == mb {
            return 0;
        }
        if ma > mb {
            let m: u32 = combine(ma, mb, true);
            proof {
                lemma_nearest_is(m, scaled_magnitude(ma) - scaled_magnitude(mb), 1);
            }
            signed(na, m)
        } else {
            let m: u32 = combine(mb, ma, true);
            proof {
                lemma_nearest_is(m, scaled_magnitude(mb) - scaled_magnitude(ma), 1);
            }
            signed(nb, m)
        }
    }
}

/// The same number under the other sign; a NaN stays a NaN.
pub fn negate(bits: u32) -> (negated: u32)
    ensures
        negated == negation_of(bits),
{
    if bits >= SIGN_BIT {
        bits - SIGN_BIT
    } else {
        bits + SIGN_BIT
    }
}

/// Subtracts the second number from the first as the hardware does, but for
/// the sign and payload of a NaN.
pub fn difference(a: u32, b: u32) -> (difference: u32)
    ensures
        difference == difference_of(a, b),
{
    sum(a, negate(b))
}

/// The quotient of two single-precision numbers.
///
/// A NaN operand, infinity over infinity and zero over zero give the NaN.
/// Otherwise the sign is negative exactly when the operands' signs differ;
/// an infinite dividend or a zero divisor gives infinity, an infinite
/// divisor gives zero, and two finite numbers give the magnitude nearest to
/// the quotient of their values.
pub open spec fn quotient_of(a: u32, b: u32) -> u32 {
    let negative = sign_of(a) != sign_of(b);
    if encodes_nan(a) || encodes_nan(b) {
        QUIET_NAN
    } else if encodes_infinity(a) {
        if encodes_infinity(b) {
            QUIET_NAN
        } else {
            with_sign(negative, INFINITY_BITS)
        }
    } else if encodes_infinity(b) {
        with_sign(negative, 0)
    } else if encodes_zero(b) {
        if encodes_zero(a) {
            QUIET_NAN
        } else {
            with_sign(negative, INFINITY_BITS)
        }
    } else {
        with_sign(
            negative,
            nearest(scaled_magnitude(a) * pow2(149), scaled_magnitude(b)),
        )
    }
}

/// A significand moved up until it has 24 bits, with the number of places.
fn normalized(significand: u64) -> (moved: (u64, i32))
    requires
        0 < significand < 0x100_0000,
    ensures
        0x80_0000 <= moved.0 < 0x100_0000,
        0 <= moved.1 <= 23,
        moved.0 == significand * pow2(moved.1 as nat),
{
    let len: u32 = bit_length(significand);
    proof {
        lemma2_to64();
        if len > 24 {
            lemma_pow2_le(24, (len - 1) as nat);
        }
    }
    let places: u32 = 24 - len;
    let scale: u64 = power_of_two(places);
    proof {
        lemma_pow2_adds(len as nat, places as nat);
        lemma_pow2_adds((len - 1) as nat, places as nat);
        assert(significand * scale < pow2(24)) by (nonlinear_arith)
            requires
                significand < pow2(len as nat),
                scale > 0,
                pow2(24) == pow2(len as nat) * scale,
        ;
        assert(significand * scale >= pow2(23)) by (nonlinear_arith)
            requires
                significand >= pow2((len - 1) as nat),
                scale > 0,
                pow2(23) == pow2((len - 1) as nat) * scale,
        ;
    }
    (significand * scale, places as i32)
}

proof fn lemma_quotient_fraction(
    m: u32,
    ma: u32,
    mb: u32,
    wide_a: int,
    places_a: int,
    wide_b: int,
    places_b: int,
    t: int,
)
    requires
        0 <= places_a,
        0 <= places_b,
        wide_a == significand_of(ma) * pow2(places_a as nat),
        wide_b == significand_of(mb) * pow2(places_b as nat),
        wide_b > 0,
        scaled_magnitude(mb) > 0,
        t == step_of(ma) - places_a - step_of(mb) + places_b + 149 - 26,
        rounds_to(m, numerator(wide_a * 0x400_0000, t), denominator(wide_b, t)),
    ensures
        nearest(scaled_magnitude(ma) * pow2(149), scaled_magnitude(mb)) == m,
{
    lemma2_to64();
    let sa: int = significand_of(ma);
    let sb: int = significand_of(mb);
    let ua: nat = step_of(ma);
    let ub: nat = step_of(mb);
    let la: nat = places_a as nat;
    let lb: nat = places_b as nat;
    lemma_scaled_is_significand_times_step(ma);
    lemma_scaled_is_significand_times_step(mb);
    let num: int = numerator(wide_a * 0x400_0000, t);
    let den: int = denominator(wide_b, t);
    let exact_num: int = scaled_magnitude(ma) * pow2(149);
    let exact_den: int = scaled_magnitude(mb);
    // num == sa * 2^(la + 26 + up), den == sb * 2^(lb + down)
    lemma_power_product(sa, la, 1, 26);
    lemma_power_product(sa, la + 26, 1, shift_up(t));
    assert(num == sa * pow2(la + 26 + shift_up(t))) by (nonlinear_arith)
        requires
            num == (wide_a * 0x400_0000) * pow2(shift_up(t)),
            wide_a == sa * pow2(la),
            pow2(26) == 0x400_0000,
            (sa * pow2(la)) * (1 * pow2(26)) == (sa * 1) * pow2(la + 26),
            (sa * pow2(la + 26)) * (1 * pow2(shift_up(t))) == (sa * 1) * pow2(
                la + 26 + shift_up(t),
            ),
    ;
    lemma_power_product(sb, lb, 1, shift_down(t));
    assert(den == sb * pow2(lb + shift_down(t))) by (nonlinear_arith)
        requires
            den == wide_b * pow2(shift_down(t)),
            wide_b == sb * pow2(lb),
            (sb * pow2(lb)) * (1 * pow2(shift_down(t))) == (sb * 1) * pow2(lb + shift_down(t)),
    ;
    lemma_power_product(sa, ua, 1, 149);
    assert(exact_num == sa * pow2(ua + 149)) by (nonlinear_arith)
        requires
            exact_num == scaled_magnitude(ma) * pow2(149),
            scaled_magnitude(ma) == sa * pow2(ua),
            (sa * pow2(ua)) * (1 * pow2(149)) == (sa * 1) * pow2(ua + 149),
    ;
    assert(exact_den == sb * pow2(ub));
    // Cross products carry the same power of two.
    lemma_power_product(sa, la + 26 + shift_up(t), sb, ub);
    lemma_power_product(sa, ua + 149, sb, lb + shift_down(t));
    assert(la + 26 + shift_up(t) + ub == ua + 149 + lb + shift_down(t));
    assert(num * exact_den == exact_num * den);
    lemma_pow2_pos(shift_down(t));
    assert(den > 0) by (nonlinear_arith)
        requires
            den == wide_b * pow2(shift_down(t)),
            wide_b > 0,
            pow2(shift_down(t)) > 0,
    ;
    lemma_same_fraction(m, num, den, exact_num, exact_den);
    lemma_nearest_is(m, exact_num, exact_den);
}

/// Divides the first single-precision number by the second as the hardware
/// does, but for the sign and payload of a NaN.
pub fn quotient(a: u32, b: u32) -> (quotient: u32)
    ensures
        quotient == quotient_of(a, b),
{
    let ma: u32 = magnitude(a);
    let mb: u32 = magnitude(b);
    let negative: bool = (a >= SIGN_BIT) != (b >= SIGN_BIT);
    if ma > INFINITY_BITS || mb > INFINITY_BITS {
        return QUIET_NAN;
    }
    if ma == INFINITY_BITS {
        if mb == INFINITY_BITS {
            return QUIET_NAN;
        }
        return signed(negative, INFINITY_BITS);
    }
    if mb == INFINITY_BITS {
        return signed(negative, 0);
    }
    if mb == 0 {
        if ma == 0 {
            return QUIET_NAN;
        }
        return signed(negative, INFINITY_BITS);
    }
    proof {
        lemma_magnitude_order(mb, 0);
        lemma_magnitude_order(ma, 0);
        assert(scaled_magnitude(a) == scaled_magnitude(ma) && scaled_magnitude(b)
            == scaled_magnitude(mb));
    }
    if ma == 0 {
        proof {
            lemma_infinity_magnitude();
            let den: int = scaled_magnitude(mb);
            assert(scaled_magnitude(ma) * pow2(149) == 0) by (nonlinear_arith)
                requires
                    scaled_magnitude(ma) == 0,
            ;
            assert((0 + 1) * den == den) by (nonlinear_arith);
            assert(rounds_to(0u32, 0, den));
            lemma_nearest_is(0, 0, den);
        }
        return signed(negative, 0);
    }
    let (sa, ua) = parts(ma);
    let (sb, ub) = parts(mb);
    let (wide_a, places_a) = normalized(sa);
    let (wide_b, places_b) = normalized(sb);
    let top: u64 = wide_a * 0x400_0000;
    let t: i32 = ua - places_a - ub + places_b + 149 - 26;
    proof {
        vstd::arithmetic::div_mod::lemma_fundamental_div_mod(top as int, wide_b as int);
        let whole: int = top as int / wide_b as int;
        let rest: int = top as int % wide_b as int;
        assert(whole >= 0x200_0000) by (nonlinear_arith)
            requires
                top == wide_b * whole + rest,
                0 <= rest < wide_b,
                top >= 0x80_0000 * 0x400_0000,
                0 < wide_b < 0x100_0000,
        ;
    }
    let m: u32 = round(top, wide_b, t);
    proof {
        lemma_quotient_fraction(
            m,
            ma,
            mb,
            wide_a as int,
            places_a as int,
            wide_b as int,
            places_b as int,
            t as int,
        );
    }
    signed(negative, m)
}

/// Whether the magnitude `m` is the nearest to the square root of
/// `radicand`, in the scale of [`scaled_magnitude`]: as [`rounds_to`], with
/// every midpoint compared through its square.
pub open spec fn root_rounds_to(m: u32, radicand: int) -> bool {
    &&& m <= INFINITY_BITS
    &&& m > 0 ==> {
        let low = scaled_magnitude((m - 1) as u32) + scaled_magnitude(m);
        low * low < 4 * radicand || (low * low == 4 * radicand && m % 2 == 0)
    }
    &&& m < INFINITY_BITS ==> {
        let high = scaled_magnitude(m) + scaled_magnitude((m + 1) as u32);
        4 * radicand < high * high || (4 * radicand == high * high && m % 2 == 0)
    }
}

/// The magnitude nearest to the square root of `radicand`.
pub open spec fn nearest_root(radicand: int) -> u32 {
    choose|m: u32| root_rounds_to(m, radicand)
}

/// The square root of a single-precision number.
///
/// A NaN and every number below zero give the NaN; a zero of either sign and
/// the positive infinity give themselves. Any other number gives the
/// magnitude nearest to the square root of its value: in the scale of
/// [`scaled_magnitude`] that root is the square root of the scaled value
/// times two to the power 149.
pub open spec fn root_of(a: u32) -> u32 {
    if encodes_nan(a) {
        QUIET_NAN
    } else if encodes_zero(a) {
        a
    } else if sign_of(a) {
        QUIET_NAN
    } else if encodes_infinity(a) {
        a
    } else {
        nearest_root(scaled_magnitude(a) * pow2(149))
    }
}

proof fn lemma_square_order(x: int, y: int)
    by (nonlinear_arith)
    requires
        0 <= x,
        0 <= y,
    ensures
        x <= y ==> x * x <= y * y,
        x < y ==> x * x < y * y,
{
}

proof fn lemma_roots_between(low: u32, high: u32, radicand: int)
    requires
        low < high,
        root_rounds_to(low, radicand),
        root_rounds_to(high, radicand),
    ensures
        low == high,
{
    let a: int = scaled_magnitude(low);
    let b: int = scaled_magnitude((low + 1) as u32);
    let c: int = scaled_magnitude((high - 1) as u32);
    let d: int = scaled_magnitude(high);
    assert(magnitude_of(low) == low && magnitude_of(high) == high);
    assert(magnitude_of((low + 1) as u32) == low + 1);
    assert(magnitude_of((high - 1) as u32) == high - 1);
    lemma_magnitude_order(low, (high - 1) as u32);
    lemma_magnitude_order((low + 1) as u32, high);
    lemma_magnitude_order(low, 0);
    assert(0 <= a && a <= c && b <= d);
    lemma_square_order(a + b, c + d);
    if low + 1 < high {
        assert(a < c);
    }
}

/// At most one magnitude is nearest to a square root.
pub proof fn lemma_root_rounds_to_one(first: u32, second: u32, radicand: int)
    requires
        root_rounds_to(first, radicand),
        root_rounds_to(second, radicand),
    ensures
        first == second,
{
    if first < second {
        lemma_roots_between(first, second, radicand);
    } else if second < first {
        lemma_roots_between(second, first, radicand);
    }
}

/// The whole part of the square root of a number of 49 or 50 bits.
fn whole_root(n: u64) -> (r: u64)
    requires
        0x1_0000_0000_0000 <= n < 0x4_0000_0000_0000,
    ensures
        0x100_0000 <= r < 0x200_0000,
        r * r <= n < (r + 1) * (r + 1),
{
    let mut low: u64 = 0x100_0000;
    let mut high: u64 = 0x200_0000;
    while high - low > 1
        invariant
            0x100_0000 <= low < high <= 0x200_0000,
            low * low <= n < high * high,
        decreases high - low,
    {
        let middle: u64 = low + (high - low) / 2;
        proof {
            assert(middle * middle < 0x200_0000 * 0x200_0000) by (nonlinear_arith)
                requires
                    0 <= middle < 0x200_0000,
            ;
        }
        if middle * middle <= n {
            low = middle;
        } else {
            high = middle;
        }
    }
    low
}

/// The rounded root of a radicand whose whole root has 25 bits.
proof fn lemma_root_place(n: int, r: int, j: int, radicand: int, up: bool)
    requires
        0x100_0000 <= r < 0x200_0000,
        r * r <= n < (r + 1) * (r + 1),
        0 <= j <= 250,
        radicand == n * pow2((2 * j) as nat),
        up == (r % 2 == 1 && (r * r < n || (r / 2) % 2 == 1)),
    ensures
        root_rounds_to(
            if up {
                ((j + 1) * FRACTION_SPAN + r / 2 + 1) as u32
            } else {
                ((j + 1) * FRACTION_SPAN + r / 2) as u32
            },
            radicand,
        ),
{
    let q: int = r / 2;
    let u: int = j + 1;
    let e: int = pow2(j as nat) as int;
    lemma_pow2_pos(j as nat);
    lemma_pow2_adds(j as nat, j as nat);
    lemma_pow2_unfold(u as nat);
    lemma_grid(u, q);
    let m0: u32 = (u * FRACTION_SPAN + q) as u32;
    lemma_next(m0);
    let here: int = scaled_magnitude(m0);
    let next: int = scaled_magnitude((m0 + 1) as u32);
    assert(magnitude_of(m0) == m0 && magnitude_of((m0 + 1) as u32) == m0 + 1);
    assert(here == (2 * q) * e) by (nonlinear_arith)
        requires
            here == q * pow2(u as nat),
            pow2(u as nat) == 2 * e,
    ;
    assert(next == (2 * q + 2) * e) by (nonlinear_arith)
        requires
            next == here + pow2(u as nat),
            here == (2 * q) * e,
            pow2(u as nat) == 2 * e,
    ;
    let four: int = 4 * radicand;
    assert(pow2((2 * j) as nat) == e * e) by {
        assert((2 * j) as nat == j as nat + j as nat);
    }
    assert(four == (4 * n) * (e * e)) by (nonlinear_arith)
        requires
            four == 4 * radicand,
            radicand == n * pow2((2 * j) as nat),
            pow2((2 * j) as nat) == e * e,
    ;
    // Squares of whole multiples of the unit compare as the multiples do.
    let middle: int = here + next;
    assert(middle * middle == (4 * ((2 * q + 1) * (2 * q + 1))) * (e * e)) by (nonlinear_arith)
        requires
            middle == (2 * q) * e + (2 * q + 2) * e,
    ;
    assert((2 * here) * (2 * here) == (4 * ((2 * q) * (2 * q))) * (e * e)) by (nonlinear_arith)
        requires
            here == (2 * q) * e,
    ;
    assert((2 * next) * (2 * next) == (4 * ((2 * q + 2) * (2 * q + 2))) * (e * e))
        by (nonlinear_arith)
        requires
            next == (2 * q + 2) * e,
    ;
    let unit: int = e * e;
    assert(unit > 0) by (nonlinear_arith)
        requires
            unit == e * e,
            e > 0,
    ;
    assert((2 * q) * (2 * q) <= r * r) by (nonlinear_arith)
        requires
            0 <= 2 * q <= r,
    ;
    assert((r + 1) * (r + 1) <= (2 * q + 2) * (2 * q + 2)) by (nonlinear_arith)
        requires
            0 <= r + 1 <= 2 * q + 2,
    ;
    assert((4 * ((2 * q) * (2 * q))) * unit <= (4 * n) * unit) by (nonlinear_arith)
        requires
            (2 * q) * (2 * q) <= n,
            unit > 0,
    ;
    lemma_scale_compare(4 * n, 4 * ((2 * q + 2) * (2 * q + 2)), unit);
    lemma_scale_compare(4 * n, 4 * ((2 * q + 1) * (2 * q + 1)), unit);
    lemma_scale_compare(4 * ((2 * q + 1) * (2 * q + 1)), 4 * n, unit);
    assert((2 * here) * (2 * here) <= four);
    assert(four < (2 * next) * (2 * next));
    if r % 2 == 0 {
        assert(n < (2 * q + 1) * (2 * q + 1));
    } else {
        assert((2 * q + 1) * (2 * q + 1) <= n);
        assert((2 * q + 1) * (2 * q + 1) == n <==> r * r == n);
    }
    if up {
        if m0 + 1 < INFINITY_BITS {
            let after: int = scaled_magnitude((m0 + 2) as u32);
            assert(magnitude_of((m0 + 2) as u32) == m0 + 2);
            lemma_magnitude_order((m0 + 1) as u32, (m0 + 2) as u32);
            lemma_magnitude_order((m0 + 1) as u32, 0);
            lemma_square_order(2 * next, next + after);
        }
    } else {
        if m0 > 0 {
            let before: int = scaled_magnitude((m0 - 1) as u32);
            assert(magnitude_of((m0 - 1) as u32) == m0 - 1);
            lemma_magnitude_order((m0 - 1) as u32, m0);
            lemma_magnitude_order((m0 - 1) as u32, 0);
            lemma_square_order(before + here, 2 * here - 1);
            assert((2 * here - 1) * (2 * here - 1) < (2 * here) * (2 * here)) by (nonlinear_arith)
                requires
                    here >= 1,
            ;
        }
    }
}

/// The square root of a single-precision number as the hardware computes it,
/// but for the sign and payload of a NaN.
pub fn root(a: u32) -> (root: u32)
    ensures
        root == root_of(a),
{
    let ma: u32 = magnitude(a);
    if ma > INFINITY_BITS {
        return QUIET_NAN;
    }
    if ma == 0 {
        return a;
    }
    if a >= SIGN_BIT {
        return QUIET_NAN;
    }
    if ma == INFINITY_BITS {
        return a;
    }
    let (sa, ua) = parts(ma);
    let (wide, places) = normalized(sa);
    let exponent: i32 = ua + 149 - places;
    let odd: bool = exponent % 2 == 1;
    let n: u64 = if odd {
        wide * 0x200_0000
    } else {
        wide * 0x400_0000
    };
    let j: i32 = if odd {
        (exponent - 25) / 2
    } else {
        (exponent - 26) / 2
    };
    let r: u64 = whole_root(n);
    let q: u64 = r / 2;
    let up: bool = r % 2 == 1 && (r * r < n || q % 2 == 1);
    proof {
        lemma2_to64();
        let k: nat = if odd {
            25
        } else {
            26
        };
        let radicand: int = scaled_magnitude(a) * pow2(149);
        assert(scaled_magnitude(a) == sa * pow2(ua as nat));
        lemma_power_product(sa as int, ua as nat, 1, 149);
        lemma_power_product(sa as int, places as nat, 1, k);
        lemma_power_product(sa as int, places as nat + k, 1, (2 * j) as nat);
        assert(n == sa * pow2(places as nat + k)) by (nonlinear_arith)
            requires
                n == wide * pow2(k),
                wide == sa * pow2(places as nat),
                (sa * pow2(places as nat)) * (1 * pow2(k)) == (sa * 1) * pow2(places as nat + k),
        ;
        assert(places as nat + k + (2 * j) as nat == ua as nat + 149);
        assert(radicand == n * pow2((2 * j) as nat)) by (nonlinear_arith)
            requires
                radicand == (sa * pow2(ua as nat)) * pow2(149),
                (sa * pow2(ua as nat)) * (1 * pow2(149)) == (sa * 1) * pow2(ua as nat + 149),
                n == sa * pow2(places as nat + k),
                (sa * pow2(places as nat + k)) * (1 * pow2((2 * j) as nat)) == (sa * 1) * pow2(
                    places as nat + k + (2 * j) as nat,
                ),
                places as nat + k + (2 * j) as nat == ua as nat + 149,
        ;
        lemma_root_place(n as int, r as int, j as int, radicand, up);
        lemma_grid((j + 1) as int, q as int);
        let m: u32 = if up {
            ((j + 1) * FRACTION_SPAN + q + 1) as u32
        } else {
            ((j + 1) * FRACTION_SPAN + q) as u32
        };
        lemma_root_rounds_to_one(m, nearest_root(radicand), radicand);
    }
    let m0: u32 = ((j + 1) as u32) * 0x0080_0000 + (q as u32);
    if up {
        m0 + 1
    } else {
        m0
    }
}

/// A sum does not depend on the order of its operands.
pub proof fn lemma_sum_commutes(a: u32, b: u32)
    ensures
        sum_of(a, b) == sum_of(b, a),
{
}

/// A product does not depend on the order of its operands.
pub proof fn lemma_product_commutes(a: u32, b: u32)
    ensures
        product_of(a, b) == product_of(b, a),
{
    assert(scaled_magnitude(a) * scaled_magnitude(b) == scaled_magnitude(b) * scaled_magnitude(a))
        by (nonlinear_arith);
}

/// Whether the fraction lies at or above the midpoint between `m` and the
/// magnitude before it, by the rule of [`rounds_to`].
spec fn reaches(m: u32, num: int, den: int) -> bool {
    let low = (scaled_magnitude((m - 1) as u32) + scaled_magnitude(m)) * den;
    low < 2 * num || (low == 2 * num && m % 2 == 0)
}

/// The greatest magnitude up to `top` that the fraction reaches, or zero.
spec fn greatest_reached(top: u32, num: int, den: int) -> u32
    decreases top,
{
    if top == 0 || reaches(top, num, den) {
        top
    } else {
        greatest_reached((top - 1) as u32, num, den)
    }
}

proof fn lemma_greatest_reached(top: u32, num: int, den: int)
    requires
        top <= INFINITY_BITS,
    ensures
        greatest_reached(top, num, den) <= top,
        greatest_reached(top, num, den) > 0 ==> reaches(greatest_reached(top, num, den), num, den),
        forall|m: u32|
            greatest_reached(top, num, den) < m <= top ==> !#[trigger] reaches(m, num, den),
    decreases top,
{
    if top != 0 && !reaches(top, num, den) {
        lemma_greatest_reached((top - 1) as u32, num, den);
    }
}

/// Every fraction has a nearest magnitude.
pub proof fn lemma_nearest_rounds(num: int, den: int)
    ensures
        rounds_to(nearest(num, den), num, den),
        nearest(num, den) <= INFINITY_BITS,
{
    let m: u32 = greatest_reached(INFINITY_BITS, num, den);
    lemma_greatest_reached(INFINITY_BITS, num, den);
    if m < INFINITY_BITS {
        assert(!reaches((m + 1) as u32, num, den));
    }
    assert(rounds_to(m, num, den));
}

/// The sign and the magnitude of an encoding built from the two.
pub proof fn lemma_with_sign(negative: bool, m: u32)
    requires
        m <= INFINITY_BITS,
    ensures
        sign_of(with_sign(negative, m)) == negative,
        magnitude_of(with_sign(negative, m)) == m,
        !encodes_nan(with_sign(negative, m)),
        scaled_magnitude(with_sign(negative, m)) == scaled_magnitude(m),
{
}

/// Negation keeps the magnitude and flips the sign, so it negates the value
/// and keeps what kind of encoding it is.
pub proof fn lemma_negation(a: u32)
    ensures
        magnitude_of(negation_of(a)) == magnitude_of(a),
        sign_of(negation_of(a)) == !sign_of(a),
        scaled_magnitude(negation_of(a)) == scaled_magnitude(a),
        scaled_value(negation_of(a)) == -scaled_value(a),
        encodes_nan(negation_of(a)) == encodes_nan(a),
        negation_of(negation_of(a)) == a,
{
}

/// A product that is a number has the sign that its operands' signs give,
/// and negating an operand negates it.
pub proof fn lemma_product_sign(a: u32, b: u32)
    requires
        !encodes_nan(product_of(a, b)),
    ensures
        sign_of(product_of(a, b)) == (sign_of(a) != sign_of(b)),
        product_of(a, negation_of(b)) == negation_of(product_of(a, b)),
        product_of(negation_of(a), b) == negation_of(product_of(a, b)),
        !encodes_nan(a) && !encodes_nan(b),
{
    lemma_negation(a);
    lemma_negation(b);
    let m: u32 = nearest(scaled_magnitude(a) * scaled_magnitude(b), pow2(149) as int);
    lemma_nearest_rounds(scaled_magnitude(a) * scaled_magnitude(b), pow2(149) as int);
    lemma_with_sign(true, m);
    lemma_with_sign(false, m);
    lemma_with_sign(true, INFINITY_BITS);
    lemma_with_sign(false, INFINITY_BITS);
}

/// A quotient that is a number has the sign that its operands' signs give,
/// and negating the dividend negates it.
pub proof fn lemma_quotient_sign(a: u32, b: u32)
    requires
        !encodes_nan(quotient_of(a, b)),
    ensures
        sign_of(quotient_of(a, b)) == (sign_of(a) != sign_of(b)),
        quotient_of(negation_of(a), b) == negation_of(quotient_of(a, b)),
        !encodes_nan(a) && !encodes_nan(b),
{
    lemma_negation(a);
    let m: u32 = nearest(scaled_magnitude(a) * pow2(149), scaled_magnitude(b));
    lemma_nearest_rounds(scaled_magnitude(a) * pow2(149), scaled_magnitude(b));
    lemma_with_sign(true, m);
    lemma_with_sign(false, m);
    lemma_with_sign(true, INFINITY_BITS);
    lemma_with_sign(false, INFINITY_BITS);
    lemma_with_sign(true, 0);
    lemma_with_sign(false, 0);
}

/// A difference that is a number other than zero is the negation of the
/// difference taken the other way round.
pub proof fn lemma_difference_turns(a: u32, b: u32)
    requires
        !encodes_nan(difference_of(a, b)),
        !encodes_zero(difference_of(a, b)),
    ensures
        difference_of(b, a) == negation_of(difference_of(a, b)),
        !encodes_nan(a) && !encodes_nan(b),
{
    lemma_negation(a);
    lemma_negation(b);
    let exact: int = scaled_value(a) - scaled_value(b);
    lemma_nearest_rounds(exact, 1);
    lemma_nearest_rounds(-exact, 1);
    lemma_with_sign(true, nearest(exact, 1));
    lemma_with_sign(false, nearest(exact, 1));
    lemma_with_sign(true, nearest(-exact, 1));
    lemma_with_sign(false, nearest(-exact, 1));
    lemma_with_sign(true, INFINITY_BITS);
    lemma_with_sign(false, INFINITY_BITS);
}

/// Two numbers whose difference is a zero have a zero for their difference
/// the other way round as well.
pub proof fn lemma_zero_difference_turns(a: u32, b: u32)
    requires
        encodes_zero(difference_of(a, b)),
    ensures
        encodes_zero(difference_of(b, a)),
        !encodes_nan(a) && !encodes_nan(b),
{
    lemma_negation(a);
    lemma_negation(b);
    lemma_infinity_magnitude();
    let exact: int = scaled_value(a) - scaled_value(b);
    lemma_nearest_rounds(exact, 1);
    lemma_nearest_rounds(-exact, 1);
    lemma_with_sign(true, nearest(exact, 1));
    lemma_with_sign(false, nearest(exact, 1));
    lemma_with_sign(true, nearest(-exact, 1));
    lemma_with_sign(false, nearest(-exact, 1));
    lemma_with_sign(true, INFINITY_BITS);
    lemma_with_sign(false, INFINITY_BITS);
    if exact > 0 {
        assert(nearest(exact, 1) != 0);
    }
    if exact < 0 {
        assert(nearest(-exact, 1) != 0);
    }
}

/// Two numbers whose difference is no number have the same NaN for their
/// difference the other way round.
pub proof fn lemma_nan_difference_turns(a: u32, b: u32)
    requires
        encodes_nan(difference_of(a, b)),
    ensures
        difference_of(a, b) == QUIET_NAN,
        difference_of(b, a) == QUIET_NAN,
{
    lemma_negation(a);
    lemma_negation(b);
    let exact: int = scaled_value(a) - scaled_value(b);
    lemma_nearest_rounds(exact, 1);
    lemma_nearest_rounds(-exact, 1);
    lemma_with_sign(true, nearest(exact, 1));
    lemma_with_sign(false, nearest(exact, 1));
    lemma_with_sign(true, nearest(-exact, 1));
    lemma_with_sign(false, nearest(-exact, 1));
}

/// A number times itself is what its negation times itself is.
pub proof fn lemma_square_of_negation(a: u32)
    ensures
        product_of(negation_of(a), negation_of(a)) == product_of(a, a),
{
    lemma_negation(a);
}

} // verus!
