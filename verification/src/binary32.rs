use vstd::arithmetic::div_mod::{
    lemma_basic_div, lemma_div_is_ordered, lemma_div_multiples_vanish_fancy,
};
use vstd::arithmetic::power2::{
    lemma2_to64, lemma2_to64_rest, lemma_pow2_pos, lemma_pow2_strictly_increases,
    lemma_pow2_unfold, pow2,
};
use vstd::prelude::*;

verus! {

// Single-precision numbers as exact ratios. A number is given by its 32-bit
// pattern: one sign bit, eight exponent bits, 23 fraction bits. Every finite
// one equals `numerator / denominator`, the denominator a power of two.

/// The exponent field of the pattern.
pub open spec fn exponent(bits: u32) -> int {
    (bits as int / 0x80_0000) % 256
}

/// The fraction field of the pattern.
pub open spec fn fraction(bits: u32) -> int {
    bits as int % 0x80_0000
}

/// Whether the sign bit is set.
pub open spec fn negative(bits: u32) -> bool {
    bits >= 0x8000_0000
}

/// Whether the pattern stands for a number, not for an infinity or a
/// not-a-number.
pub open spec fn finite(bits: u32) -> bool {
    exponent(bits) != 255
}

/// The fraction with its implied leading one, which only the subnormal numbers
/// (exponent field zero) lack.
pub open spec fn significand(bits: u32) -> int {
    if exponent(bits) == 0 {
        fraction(bits)
    } else {
        fraction(bits) + 0x80_0000
    }
}

/// The power of two that the significand is multiplied by.
pub open spec fn scale(bits: u32) -> int {
    (if exponent(bits) == 0 {
        1
    } else {
        exponent(bits)
    }) - 150
}

/// Numerator of a finite number.
pub open spec fn numerator(bits: u32) -> int {
    let magnitude = if scale(bits) >= 0 {
        significand(bits) * pow2(scale(bits) as nat)
    } else {
        significand(bits)
    };
    if negative(bits) {
        -magnitude
    } else {
        magnitude
    }
}

/// Denominator of a finite number, a positive power of two.
pub open spec fn denominator(bits: u32) -> int {
    if scale(bits) >= 0 {
        1
    } else {
        pow2((-scale(bits)) as nat) as int
    }
}

/// Whether the pattern stands for a number from `-limit` to `limit`.
pub open spec fn within(bits: u32, limit: int) -> bool {
    &&& finite(bits)
    &&& -limit * denominator(bits) <= numerator(bits) <= limit * denominator(bits)
}

/// The integer nearest to `p / d`, a half going away from zero; `d` positive.
pub open spec fn nearest(p: int, d: int) -> int {
    if p >= 0 {
        (2 * p + d) / (2 * d)
    } else {
        -((2 * (-p) + d) / (2 * d))
    }
}

/// The integer nearest to `factor * (x + shift)` for the number `x` that the
/// pattern stands for.
pub open spec fn scaled(bits: u32, factor: int, shift: int) -> int {
    nearest(factor * (numerator(bits) + shift * denominator(bits)), denominator(bits))
}

/// The fields of a pattern: sign, exponent field, significand.
pub(crate) fn fields(bits: u32) -> (out: (bool, u32, u32))
    ensures
        out.0 == negative(bits),
        out.1 == exponent(bits),
        out.2 == significand(bits),
        out.1 < 256,
        out.2 < 0x100_0000,
        out.1 != 0 ==> out.2 >= 0x80_0000,
{
    let exp: u32 = (bits / 0x80_0000) % 256;
    let frac: u32 = bits % 0x80_0000;
    let significand: u32 = if exp == 0 {
        frac
    } else {
        frac + 0x80_0000
    };
    (bits >= 0x8000_0000, exp, significand)
}

/// Two to the power `k`.
pub(crate) fn power_of_two(k: u32) -> (out: u64)
    requires
        k <= 62,
    ensures
        out == pow2(k as nat),
        out <= 0x4000_0000_0000_0000,
{
    let mut out: u64 = 1;
    let mut i: u32 = 0;
    proof {
        lemma2_to64();
        lemma2_to64_rest();
    }
    while i < k
        invariant
            i <= k <= 62,
            out == pow2(i as nat),
            pow2(62) == 0x4000_0000_0000_0000,
        decreases k - i,
    {
        proof {
            lemma_pow2_unfold((i + 1) as nat);
            if i + 1 < 62 {
                lemma_pow2_strictly_increases((i + 1) as nat, 62);
            }
        }
        out = out * 2;
        i += 1;
    }
    proof {
        if k < 62 {
            lemma_pow2_strictly_increases(k as nat, 62);
        }
    }
    out
}

/// The integer nearest to `p / d`.
pub(crate) fn nearest_quotient(p: u64, d: u64) -> (out: u64)
    requires
        d > 0,
        2 * p + d <= u64::MAX,
        2 * d <= u64::MAX,
    ensures
        out == nearest(p as int, d as int),
{
    (2 * p + d) / (2 * d)
}

/// A ratio below one half rounds to zero.
pub(crate) proof fn lemma_nearest_small(p: int, d: int)
    requires
        0 <= p,
        2 * p < d,
    ensures
        nearest(p, d) == 0,
{
    lemma_basic_div(2 * p + d, 2 * d);
}

/// Rounding `whole + p / d` where `p / d` is less than a half in size.
pub(crate) proof fn lemma_nearest_whole(whole: int, p: int, d: int)
    requires
        0 <= whole,
        -d < 2 * p < d,
        0 <= whole * d + p,
    ensures
        nearest(whole * d + p, d) == whole,
{
    assert(2 * (whole * d + p) + d == (2 * d) * whole + (2 * p + d)) by (nonlinear_arith);
    lemma_div_multiples_vanish_fancy(whole, 2 * p + d, 2 * d);
}

/// Rounding is monotone and exact on whole numbers, so a ratio of at most
/// `whole` rounds to at most `whole`.
pub(crate) proof fn lemma_nearest_bound(p: int, d: int, whole: int)
    requires
        0 <= p <= whole * d,
        0 < d,
        0 <= whole,
    ensures
        0 <= nearest(p, d) <= whole,
{
    assert(2 * (whole * d) + d == (2 * d) * whole + d) by (nonlinear_arith);
    lemma_div_multiples_vanish_fancy(whole, d, 2 * d);
    lemma_div_is_ordered(2 * p + d, 2 * (whole * d) + d, 2 * d);
    lemma_div_is_ordered(0, 2 * p + d, 2 * d);
}

/// The size of a number against a limit, by its magnitude.
pub(crate) proof fn lemma_within_magnitude(bits: u32, limit: int)
    requires
        finite(bits),
    ensures
        scale(bits) < 0 ==> (within(bits, limit) <==> significand(bits) <= limit * pow2(
            (-scale(bits)) as nat,
        )),
        scale(bits) >= 0 ==> (within(bits, limit) <==> significand(bits) * pow2(
            scale(bits) as nat,
        ) <= limit),
{
    let d = denominator(bits);
    assert(-limit * d == -(limit * d)) by (nonlinear_arith);
    if scale(bits) >= 0 {
        lemma_pow2_pos(scale(bits) as nat);
        assert(significand(bits) * pow2(scale(bits) as nat) >= 0) by (nonlinear_arith)
            requires
                significand(bits) >= 0,
                pow2(scale(bits) as nat) > 0,
        ;
        assert(limit * d == limit);
    }
}

/// A normal number whose exponent puts it above `limit`: with `places`
/// binary places or fewer, its significand alone exceeds the limit.
pub(crate) proof fn lemma_too_large(bits: u32, limit: int, places: nat)
    requires
        finite(bits),
        exponent(bits) >= 1,
        limit * pow2(places) < 0x80_0000,
        limit >= 1,
        scale(bits) >= -(places as int),
    ensures
        !within(bits, limit),
{
    lemma_within_magnitude(bits, limit);
    let m = significand(bits);
    lemma_pow2_pos(places);
    assert(limit * pow2(places) >= limit) by (nonlinear_arith)
        requires
            limit >= 1,
            pow2(places) >= 1,
    ;
    if scale(bits) >= 0 {
        let s = scale(bits) as nat;
        lemma_pow2_pos(s);
        assert(m * pow2(s) >= m) by (nonlinear_arith)
            requires
                m >= 0,
                pow2(s) >= 1,
        ;
    } else {
        let k = (-scale(bits)) as nat;
        if k < places {
            lemma_pow2_strictly_increases(k, places);
        }
        assert(limit * pow2(k) <= limit * pow2(places)) by (nonlinear_arith)
            requires
                limit >= 1,
                pow2(k) <= pow2(places),
        ;
    }
}

/// A number with `places` binary places or more lies within a limit that,
/// taken to that many places, exceeds every significand.
pub(crate) proof fn lemma_small_enough(bits: u32, limit: int, places: nat)
    requires
        finite(bits),
        limit >= 1,
        limit * pow2(places) >= 0x100_0000,
        places >= 1,
        scale(bits) <= -(places as int),
    ensures
        within(bits, limit),
{
    lemma_within_magnitude(bits, limit);
    let k = (-scale(bits)) as nat;
    if places < k {
        lemma_pow2_strictly_increases(places, k);
    }
    assert(limit * pow2(places) <= limit * pow2(k)) by (nonlinear_arith)
        requires
            limit >= 1,
            pow2(places) <= pow2(k),
    ;
}

} // verus!
