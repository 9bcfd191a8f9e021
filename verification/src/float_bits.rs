//! Double-precision floats as their IEEE-754 bit patterns: classification,
//! order, truncation, and the encoding that puts "simple" values first.
//!
//! A pattern is a `u64`: the sign bit, an 11-bit exponent and a 52-bit
//! mantissa, from the most significant bit down.
use vstd::arithmetic::div_mod::{
    lemma_div_multiples_vanish, lemma_fundamental_div_mod, lemma_fundamental_div_mod_converse,
    lemma_mod_multiples_basic,
};
use vstd::arithmetic::mul::{lemma_mul_is_associative, lemma_mul_is_commutative};
use vstd::arithmetic::power2::{
    lemma2_to64, lemma2_to64_rest, lemma_pow2_adds, lemma_pow2_pos, lemma_pow2_strictly_increases,
    lemma_pow2_unfold, pow2,
};
use vstd::bits::{lemma_u64_pow2_no_overflow, lemma_u64_shl_is_mul};
use vstd::prelude::*;

verus! {

/// The pattern of -0.0: the sign bit alone.
pub const SIGN: u64 = 0x8000_0000_0000_0000;

/// One more than the largest mantissa, `2^52`.
pub const MANTISSA_RANGE: u64 = 0x10_0000_0000_0000;

/// The exponent of the infinities and of NaN.
pub const MAX_EXPONENT: u64 = 0x7FF;

/// The exponent of 1.0.
pub const BIAS: i64 = 1023;

/// `2^56`: whole values from here on are not "simple".
pub const SIMPLE_LIMIT: u64 = 0x100_0000_0000_0000;

/// The sign bit is set.
pub open spec fn is_negative(b: u64) -> bool {
    b >= SIGN
}

/// The pattern without its sign bit.
pub open spec fn magnitude(b: u64) -> nat {
    b as nat % SIGN as nat
}

/// The exponent field.
pub open spec fn exponent(b: u64) -> nat {
    magnitude(b) / MANTISSA_RANGE as nat
}

/// The mantissa field.
pub open spec fn mantissa(b: u64) -> nat {
    magnitude(b) % MANTISSA_RANGE as nat
}

/// Not a number.
pub open spec fn is_nan(b: u64) -> bool {
    exponent(b) == MAX_EXPONENT && mantissa(b) != 0
}

/// Neither infinite nor NaN.
pub open spec fn is_finite(b: u64) -> bool {
    exponent(b) != MAX_EXPONENT
}

/// The integer that a finite pattern scales by a power of two.
pub open spec fn significand(b: u64) -> nat {
    if exponent(b) == 0 {
        mantissa(b)
    } else {
        mantissa(b) + MANTISSA_RANGE as nat
    }
}

/// The absolute value of a finite float, in units of `2^-1074` (the smallest
/// positive float). Always a whole number of units.
pub open spec fn units(b: u64) -> nat {
    significand(b) * pow2((if exponent(b) == 0 { 0 } else { exponent(b) - 1 }) as nat)
}

/// The number of units in 1.0.
pub open spec fn one() -> nat {
    pow2(1074)
}

/// A whole number below `2^56`.
pub open spec fn is_simple(b: u64) -> bool {
    &&& is_finite(b)
    &&& units(b) % one() == 0
    &&& units(b) / one() < SIMPLE_LIMIT
}

/// Position on the number line: floats that are not NaN compare as these do.
pub open spec fn signed(b: u64) -> int {
    if is_negative(b) {
        -(magnitude(b) as int)
    } else {
        magnitude(b) as int
    }
}

/// IEEE equality: NaN equals nothing, and the two zeros are equal.
pub open spec fn float_eq(a: u64, b: u64) -> bool {
    !is_nan(a) && !is_nan(b) && signed(a) == signed(b)
}

/// The `n` low bits of `x`, in reverse order.
pub open spec fn reversed(x: nat, n: nat) -> nat
    decreases n,
{
    if n == 0 {
        0
    } else {
        (x % 2) * pow2((n - 1) as nat) + reversed(x / 2, (n - 1) as nat)
    }
}

/// Rank of an exponent: from 1.0's upwards first, then from the one below
/// 1.0's downwards, then the exponent of infinity and NaN.
pub open spec fn rank(e: nat) -> nat {
    if e == MAX_EXPONENT {
        e
    } else if e >= BIAS {
        (e - BIAS) as nat
    } else {
        (2046 - e) as nat
    }
}

/// How many of the mantissa's bits stand for fractions at this unbiased
/// exponent.
pub open spec fn fraction_bits(unbiased: int) -> nat {
    if unbiased <= 0 {
        52
    } else if unbiased <= 51 {
        (52 - unbiased) as nat
    } else {
        0
    }
}

/// The mantissa with its fractional bits reversed, so that fewer fraction
/// bits make a smaller number. At an unbiased exponent of at most 0 the whole
/// mantissa is fractional and bits above it are dropped.
pub open spec fn reordered(unbiased: int, m: nat) -> nat {
    let n = fraction_bits(unbiased);
    if unbiased <= 0 {
        reversed(m, n)
    } else {
        (m - m % pow2(n) + reversed(m, n)) as nat
    }
}

/// The encoding of a float that is not simple: tag bit, exponent rank,
/// reordered mantissa.
pub open spec fn tagged(b: u64) -> nat {
    (SIGN + rank(exponent(b)) * MANTISSA_RANGE + reordered(exponent(b) - BIAS, mantissa(b))) as nat
}

/// The lexicographic encoding of a float's magnitude: simple values as
/// themselves, everything else tagged.
pub open spec fn lex_of(b: u64) -> nat {
    if is_simple(b) {
        units(b) / one()
    } else {
        tagged(b)
    }
}

/// Complexity of a float: NaN worst, then by sign, then by the encoding of
/// the magnitude.
pub open spec fn complexity(b: u64) -> nat {
    if is_nan(b) {
        u128::MAX as nat
    } else if is_negative(b) {
        0x1_0000_0000_0000_0000 + lex_of(b)
    } else {
        lex_of(b)
    }
}

/// Where draws from `[min, max]` shrink to: +0.0, moved into the range. A
/// bound that is NaN does not bind.
pub open spec fn shrink_target(min: u64, max: u64) -> u64 {
    let lo = if is_nan(min) || signed(min) <= 0 {
        0
    } else {
        min
    };
    if is_nan(max) || signed(lo) <= signed(max) {
        lo
    } else {
        max
    }
}

/// A pattern is made of its fields.
pub proof fn lemma_fields(b: u64)
    ensures
        magnitude(b) < SIGN,
        exponent(b) <= MAX_EXPONENT,
        mantissa(b) < MANTISSA_RANGE,
        magnitude(b) == exponent(b) * MANTISSA_RANGE + mantissa(b),
        b == magnitude(b) + (if is_negative(b) { SIGN as int } else { 0 }),
        significand(b) < 2 * MANTISSA_RANGE,
{
}

/// Taking one more bit of `x` appends it at the low end.
proof fn lemma_reversed_push(x: nat, n: nat)
    ensures
        reversed(x, n + 1) == 2 * reversed(x, n) + (x / pow2(n)) % 2,
    decreases n,
{
    lemma2_to64();
    if n == 0 {
        assert(reversed(x, 1) == (x % 2) * pow2(0) + reversed(x / 2, 0));
    } else {
        let m = (n - 1) as nat;
        lemma_reversed_push(x / 2, m);
        lemma_pow2_unfold(n);
        lemma_pow2_pos(m);
        assert((x / 2) / pow2(m) == x / pow2(n)) by {
            vstd::arithmetic::div_mod::lemma_div_denominator(x as int, 2, pow2(m) as int);
        }
        assert((x % 2) * pow2(n) == 2 * ((x % 2) * pow2(m))) by (nonlinear_arith)
            requires
                pow2(n) == 2 * pow2(m),
        ;
        assert(reversed(x, n + 1) == (x % 2) * pow2(n) + reversed(x / 2, n));
    }
}

/// Reversed bits are as many as they were.
pub proof fn lemma_reversed_bound(x: nat, n: nat)
    ensures
        reversed(x, n) < pow2(n),
    decreases n,
{
    lemma2_to64();
    if n > 0 {
        let m = (n - 1) as nat;
        lemma_reversed_bound(x / 2, m);
        lemma_pow2_unfold(n);
        assert((x % 2) * pow2(m) <= pow2(m)) by (nonlinear_arith)
            requires
                x % 2 <= 1,
        ;
    }
}

/// A number without its `k` low bits reverses into the `n - k` low bits, and
/// only such a number does.
pub proof fn lemma_reversed_divisible(x: nat, n: nat, k: nat)
    requires
        k <= n,
    ensures
        x % pow2(k) == 0 <==> reversed(x, n) < pow2((n - k) as nat),
    decreases k,
{
    lemma2_to64();
    if k == 0 {
        lemma_reversed_bound(x, n);
    } else {
        let m = (n - 1) as nat;
        let j = (k - 1) as nat;
        lemma_reversed_divisible(x / 2, m, j);
        lemma_pow2_unfold(k);
        lemma_pow2_pos(j);
        assert(m - j == n - k);
        assert(x % pow2(k) == x % 2 + 2 * ((x / 2) % pow2(j))) by {
            vstd::arithmetic::div_mod::lemma_mod_breakdown(x as int, 2, pow2(j) as int);
        }
        if x % 2 == 1 {
            assert(pow2((n - k) as nat) <= pow2(m)) by {
                if n - k < m {
                    lemma_pow2_strictly_increases((n - k) as nat, m);
                }
            }
        } else {
            assert((x % 2) * pow2(m) == 0) by (nonlinear_arith)
                requires
                    x % 2 == 0,
            ;
        }
    }
}

/// Bits above the `n` low ones do not count.
proof fn lemma_reversed_low(x: nat, n: nat)
    ensures
        reversed(x % pow2(n), n) == reversed(x, n),
    decreases n,
{
    lemma_pow2_pos(n);
    if n > 0 {
        let m = (n - 1) as nat;
        lemma_pow2_unfold(n);
        lemma_pow2_pos(m);
        vstd::arithmetic::div_mod::lemma_mod_breakdown(x as int, 2, pow2(m) as int);
        lemma_reversed_low(x / 2, m);
        assert((x % pow2(n)) / 2 == (x / 2) % pow2(m));
    }
}

/// Reversing bits twice gives them back.
pub proof fn lemma_reversed_twice(x: nat, n: nat)
    ensures
        reversed(reversed(x, n), n) == x % pow2(n),
    decreases n,
{
    lemma2_to64();
    if n > 0 {
        let m = (n - 1) as nat;
        let p = pow2(m);
        let y = reversed(x, n);
        let tail = reversed(x / 2, m);
        lemma_pow2_unfold(n);
        lemma_pow2_pos(m);
        lemma_reversed_bound(x / 2, m);
        lemma_reversed_twice(x / 2, m);
        lemma_reversed_push(y, m);
        vstd::arithmetic::div_mod::lemma_fundamental_div_mod_converse(
            y as int,
            p as int,
            (x % 2) as int,
            tail as int,
        );
        lemma_reversed_low(y, m);
        vstd::arithmetic::div_mod::lemma_mod_breakdown(x as int, 2, p as int);
    }
}

/// Reversing puts the lowest of the bits highest, and so on: bit `i` comes from
/// as far below the top as it is above the bottom.
pub proof fn lemma_reversed_bits(x: nat, n: nat, i: nat)
    requires
        i < n,
    ensures
        (reversed(x, n) / pow2(i)) % 2 == (x / pow2((n - 1 - i) as nat)) % 2,
    decreases i,
{
    let m = (n - 1) as nat;
    lemma2_to64();
    lemma_reversed_push(x, m);
    if i == 0 {
        assert(reversed(x, n) / pow2(0) == reversed(x, n));
    } else {
        let j = (i - 1) as nat;
        lemma_reversed_bits(x, m, j);
        lemma_pow2_unfold(i);
        lemma_pow2_pos(j);
        vstd::arithmetic::div_mod::lemma_div_denominator(
            reversed(x, n) as int,
            2,
            pow2(j) as int,
        );
        assert(reversed(x, n) / 2 == reversed(x, m));
    }
}

/// Which bits of a mantissa are reversed: those that stand for fractions, all of
/// them below 2, one fewer with each doubling, and none from `2^52` on. The bits
/// above them stay.
pub proof fn lemma_fractions_are_reversed(unbiased: int, m: nat)
    requires
        m < MANTISSA_RANGE,
    ensures
        unbiased <= 0 ==> reordered(unbiased, m) == reversed(m, 52),
        0 < unbiased <= 51 ==> {
            let n = (52 - unbiased) as nat;
            &&& reordered(unbiased, m) % pow2(n) == reversed(m, n)
            &&& reordered(unbiased, m) / pow2(n) == m / pow2(n)
        },
        unbiased > 51 ==> reordered(unbiased, m) == m,
{
    let n = fraction_bits(unbiased);
    let p = pow2(n);
    lemma2_to64();
    lemma_pow2_pos(n);
    lemma_reversed_bound(m, n);
    if unbiased > 0 {
        lemma_fundamental_div_mod(m as int, p as int);
        lemma_mul_is_commutative(p as int, m as int / p as int);
        vstd::arithmetic::div_mod::lemma_fundamental_div_mod_converse(
            reordered(unbiased, m) as int,
            p as int,
            m as int / p as int,
            reversed(m, n) as int,
        );
    }
}

/// Reordering a mantissa twice gives it back.
pub proof fn lemma_reordered_twice(unbiased: int, m: nat)
    requires
        m < MANTISSA_RANGE,
    ensures
        reordered(unbiased, reordered(unbiased, m)) == m,
{
    let n = fraction_bits(unbiased);
    let p = pow2(n);
    lemma2_to64();
    lemma2_to64_rest();
    lemma_pow2_pos(n);
    lemma_reversed_twice(m, n);
    if unbiased <= 0 {
        vstd::arithmetic::div_mod::lemma_small_mod(m, p);
    } else {
        let r = reordered(unbiased, m);
        lemma_reversed_bound(m, n);
        lemma_fundamental_div_mod(m as int, p as int);
        lemma_mul_is_commutative(p as int, m as int / p as int);
        vstd::arithmetic::div_mod::lemma_fundamental_div_mod_converse(
            r as int,
            p as int,
            m as int / p as int,
            reversed(m, n) as int,
        );
        lemma_reversed_low(r, n);
    }
}

/// The `n` low bits of `x`, in reverse order.
fn reverse_low(x: u64, n: u32) -> (r: u64)
    requires
        n <= 52,
    ensures
        r == reversed(x as nat, n as nat),
{
    let mut r: u64 = 0;
    let mut rest: u64 = x;
    let mut i: u32 = 0;
    proof {
        lemma2_to64();
    }
    while i < n
        invariant
            i <= n <= 52,
            r == reversed(x as nat, i as nat),
            rest == x as nat / pow2(i as nat),
        decreases n - i,
    {
        proof {
            lemma_reversed_bound(x as nat, i as nat);
            lemma_pow2_strictly_increases(i as nat, 52);
            lemma2_to64_rest();
            lemma_reversed_push(x as nat, i as nat);
            lemma_pow2_pos(i as nat);
            lemma_pow2_unfold((i + 1) as nat);
            vstd::arithmetic::div_mod::lemma_div_denominator(x as int, pow2(i as nat) as int, 2);
        }
        r = 2 * r + rest % 2;
        rest = rest / 2;
        i += 1;
    }
    r
}

/// Rank of an 11-bit exponent: non-negative unbiased exponents first in
/// increasing order, then negative unbiased exponents in decreasing order,
/// then the exponent of infinity and NaN last.
pub fn exponent_rank(e: u64) -> (r: u64)
    requires
        e <= MAX_EXPONENT,
    ensures
        r == rank(e as nat),
        r <= MAX_EXPONENT,
{
    if e == MAX_EXPONENT {
        MAX_EXPONENT
    } else if e >= 1023 {
        e - 1023
    } else {
        2046 - e
    }
}

/// The mantissa with its fractional bits reversed.
pub fn update_mantissa(unbiased_exponent: i64, mantissa: u64) -> (r: u64)
    ensures
        r == reordered(unbiased_exponent as int, mantissa as nat),
{
    if unbiased_exponent <= 0 {
        reverse_low(mantissa, 52)
    } else if unbiased_exponent <= 51 {
        let n_fractional: u32 = (52 - unbiased_exponent) as u32;
        let range: u64 = power_of_two(n_fractional as u64);
        proof {
            lemma_pow2_pos(n_fractional as nat);
            lemma_reversed_bound(mantissa as nat, n_fractional as nat);
            lemma_fundamental_div_mod(mantissa as int, range as int);
            lemma_whole_part_room(mantissa, n_fractional as nat);
        }
        mantissa - mantissa % range + reverse_low(mantissa, n_fractional)
    } else {
        proof {
            lemma2_to64();
            assert(mantissa as nat % 1 == 0);
            assert(reversed(mantissa as nat, 0) == 0);
        }
        mantissa
    }
}

proof fn lemma_whole_part_room(m: u64, n: nat)
    requires
        n <= 51,
    ensures
        m - m as nat % pow2(n) + pow2(n) <= 0x1_0000_0000_0000_0000,
{
    let p = pow2(n) as int;
    let q = pow2((64 - n) as nat) as int;
    lemma_pow2_pos(n);
    lemma_pow2_adds(n, (64 - n) as nat);
    lemma2_to64_rest();
    assert(pow2(64) == 0x1_0000_0000_0000_0000);
    lemma_fundamental_div_mod(m as int, p);
    let d = m as int / p;
    assert(d < q) by (nonlinear_arith)
        requires
            p > 0,
            p * q == 0x1_0000_0000_0000_0000,
            p * d <= m < 0x1_0000_0000_0000_0000,
    ;
    assert(p * (d + 1) <= p * q) by (nonlinear_arith)
        requires
            d + 1 <= q,
            p > 0,
    ;
    assert(p * (d + 1) == p * d + p) by (nonlinear_arith);
}

/// `2^n` as a machine number.
fn power_of_two(n: u64) -> (r: u64)
    requires
        n < 64,
    ensures
        r == pow2(n as nat),
{
    proof {
        lemma_u64_pow2_no_overflow(n as nat);
        lemma_u64_shl_is_mul(1, n);
    }
    1u64 << n
}

/// Scaling numerator and denominator keeps the quotient and scales the
/// remainder.
proof fn lemma_scaled_division(a: nat, b: nat, c: nat)
    requires
        b > 0,
        c > 0,
    ensures
        (a * c) / (b * c) == a / b,
        (a * c) % (b * c) == (a % b) * c,
{
    let q = (a / b) as int;
    let r = (a % b) as int;
    lemma_fundamental_div_mod(a as int, b as int);
    assert(a * c == q * (b * c) + r * c) by (nonlinear_arith)
        requires
            a == b * q + r,
    ;
    assert(0 <= r * c < b * c) by (nonlinear_arith)
        requires
            0 <= r < b,
            c > 0,
    ;
    lemma_fundamental_div_mod_converse((a * c) as int, (b * c) as int, q, r * c);
}

/// From `2^52` on every float is whole.
proof fn lemma_units_large(b: u64)
    requires
        1075 <= exponent(b) < MAX_EXPONENT,
    ensures
        units(b) % one() == 0,
        units(b) / one() == significand(b) * pow2((exponent(b) - 1075) as nat),
        exponent(b) <= 1078 <==> units(b) / one() < SIMPLE_LIMIT,
{
    lemma_fields(b);
    let s = significand(b);
    let k = (exponent(b) - 1075) as nat;
    lemma_pow2_adds(k, 1074);
    lemma_pow2_pos(1074);
    lemma_pow2_pos(k);
    let v = (s * pow2(k)) as int;
    assert(units(b) == v * one()) by {
        assert(k + 1074 == exponent(b) - 1);
        lemma_mul_is_associative(s as int, pow2(k) as int, one() as int);
    }
    lemma_mod_multiples_basic(v, one() as int);
    lemma_div_multiples_vanish(v, one() as int);
    lemma_mul_is_commutative(v, one() as int);
    lemma2_to64();
    if exponent(b) <= 1078 {
        if k < 3 {
            lemma_pow2_strictly_increases(k, 3);
        }
        assert(s * pow2(k) < 0x20_0000_0000_0000 * 8) by (nonlinear_arith)
            requires
                s < 0x20_0000_0000_0000,
                0 < pow2(k) <= 8,
        ;
    } else {
        if k > 4 {
            lemma_pow2_strictly_increases(4, k);
        }
        assert(s * pow2(k) >= 0x10_0000_0000_0000 * 16) by (nonlinear_arith)
            requires
                s >= 0x10_0000_0000_0000,
                pow2(k) >= 16,
        ;
    }
}

/// Below `2^52` a float is whole where the significand's fractional bits are
/// all zero; the other bits are its whole part.
proof fn lemma_units_small(b: u64)
    requires
        exponent(b) < 1075,
    ensures
        ({
            let s = (if exponent(b) == 0 { 1074 } else { 1075 - exponent(b) }) as nat;
            &&& units(b) % one() == 0 <==> significand(b) % pow2(s) == 0
            &&& units(b) / one() == significand(b) / pow2(s)
            &&& units(b) / one() < SIMPLE_LIMIT
            &&& units(b) - units(b) % one() == (significand(b) - significand(b) % pow2(s)) * pow2(
                (1074 - s) as nat,
            )
        }),
{
    lemma_fields(b);
    let s = (if exponent(b) == 0 { 1074 } else { 1075 - exponent(b) }) as nat;
    let p = (1074 - s) as nat;
    let x = significand(b);
    lemma_pow2_adds(s, p);
    lemma_pow2_pos(s);
    lemma_pow2_pos(p);
    lemma_scaled_division(x, pow2(s), pow2(p));
    let r = x % pow2(s);
    assert(r == 0 <==> r * pow2(p) == 0) by (nonlinear_arith)
        requires
            pow2(p) > 0,
    ;
    lemma_fundamental_div_mod(x as int, pow2(s) as int);
    assert(x / pow2(s) <= x) by (nonlinear_arith)
        requires
            x == pow2(s) * (x / pow2(s)) + x % pow2(s),
            pow2(s) > 0,
            0 <= x % pow2(s),
            0 <= x / pow2(s),
    ;
    assert(x * pow2(p) - r * pow2(p) == (x - r) * pow2(p)) by (nonlinear_arith);
}

/// A significand has no more than 53 bits.
proof fn lemma_long_shift(b: u64, s: nat)
    requires
        s >= 53,
    ensures
        significand(b) % pow2(s) == significand(b),
        significand(b) / pow2(s) == 0,
{
    lemma_fields(b);
    lemma2_to64_rest();
    if s > 53 {
        lemma_pow2_strictly_increases(53, s);
    }
    vstd::arithmetic::div_mod::lemma_small_mod(significand(b), pow2(s));
    vstd::arithmetic::div_mod::lemma_basic_div(significand(b) as int, pow2(s) as int);
}

/// Whether the pattern is NaN.
pub fn nan(b: u64) -> (r: bool)
    ensures
        r == is_nan(b),
{
    let m: u64 = b % SIGN;
    m / MANTISSA_RANGE == MAX_EXPONENT && m % MANTISSA_RANGE != 0
}

/// The value of a simple float.
fn simple_value(b: u64) -> (r: Option<u64>)
    ensures
        match r {
            Some(v) => is_simple(b) && v == units(b) / one(),
            None => !is_simple(b),
        },
{
    let m: u64 = b % SIGN;
    let e: u64 = m / MANTISSA_RANGE;
    let x: u64 = if e == 0 { m % MANTISSA_RANGE } else { m % MANTISSA_RANGE + MANTISSA_RANGE };
    proof {
        lemma_fields(b);
    }
    if e == MAX_EXPONENT {
        return None;
    }
    if e >= 1075 {
        proof {
            lemma_units_large(b);
        }
        if e > 1078 {
            return None;
        }
        let p: u64 = power_of_two(e - 1075);
        assert(x * p == x as nat * p as nat);
        Some(x * p)
    } else {
        let s: u64 = if e == 0 { 1074 } else { 1075 - e };
        proof {
            lemma_units_small(b);
        }
        if s >= 53 {
            proof {
                lemma_long_shift(b, s as nat);
            }
            if x == 0 {
                Some(0)
            } else {
                None
            }
        } else {
            let p: u64 = power_of_two(s);
            proof {
                lemma_pow2_pos(s as nat);
            }
            if x % p == 0 {
                Some(x / p)
            } else {
                None
            }
        }
    }
}

/// A reordered mantissa still fits its field.
proof fn lemma_reordered_bound(unbiased: int, m: nat)
    requires
        m < MANTISSA_RANGE,
    ensures
        reordered(unbiased, m) < MANTISSA_RANGE,
{
    let n = fraction_bits(unbiased);
    lemma_reversed_bound(m, n);
    lemma2_to64();
    lemma2_to64_rest();
    if unbiased > 0 {
        let p = pow2(n) as int;
        let q = pow2((52 - n) as nat) as int;
        lemma_pow2_pos(n);
        lemma_pow2_adds(n, (52 - n) as nat);
        lemma_fundamental_div_mod(m as int, p);
        let d = m as int / p;
        assert(d < q) by (nonlinear_arith)
            requires
                p > 0,
                p * q == 0x10_0000_0000_0000,
                p * d <= m < 0x10_0000_0000_0000,
        ;
        assert(p * d + p <= p * q) by (nonlinear_arith)
            requires
                d + 1 <= q,
                p > 0,
        ;
    }
}

/// The encoding of a float that is not a simple whole number, by its
/// magnitude: tag bit, exponent rank, mantissa with its fraction reversed.
pub fn base_float_to_lex(b: u64) -> (r: u64)
    ensures
        r == tagged(b),
{
    let bits: u64 = b % SIGN;
    let exponent: u64 = bits / MANTISSA_RANGE;
    proof {
        lemma_fields(b);
        lemma_reordered_bound(exponent as int - BIAS, (bits % MANTISSA_RANGE) as nat);
    }
    let mantissa = update_mantissa(exponent as i64 - BIAS, bits % MANTISSA_RANGE);
    SIGN + exponent_rank(exponent) * MANTISSA_RANGE + mantissa
}

/// Maps non-negative floats to integers such that smaller integers stand for
/// "simpler" floats: whole values below `2^56` encode as themselves, and
/// everything else comes after them.
pub fn float_to_lex(b: u64) -> (r: u64)
    requires
        !is_negative(b) || is_nan(b) || magnitude(b) == 0,
    ensures
        r == lex_of(b),
{
    match simple_value(b) {
        Some(v) => v,
        None => base_float_to_lex(b),
    }
}

/// Complexity key for floats: NaN worst, then by sign (non-negative simpler),
/// then by the encoding of the magnitude.
pub fn float_key(b: u64) -> (r: u128)
    ensures
        r == complexity(b),
{
    if nan(b) {
        return 0xFFFF_FFFF_FFFF_FFFF_FFFF_FFFF_FFFF_FFFF;
    }
    let absolute: u64 = b % SIGN;
    proof {
        lemma_fields(b);
        assert(magnitude(absolute) == magnitude(b));
    }
    let sign: u128 = if b >= SIGN { 0x1_0000_0000_0000_0000 } else { 0 };
    sign + float_to_lex(absolute) as u128
}

/// Position on the number line.
fn position(b: u64) -> (r: i128)
    ensures
        r == signed(b),
{
    let m: i128 = (b % SIGN) as i128;
    if b >= SIGN {
        -m
    } else {
        m
    }
}

/// The shrink target of a float draw constrained to `[min, max]`: the
/// in-range value closest to +0.0.
pub fn float_shrink_target(min: u64, max: u64) -> (r: u64)
    ensures
        r == shrink_target(min, max),
{
    let lo: u64 = if nan(min) || position(min) <= 0 { 0 } else { min };
    if nan(max) || position(lo) <= position(max) {
        lo
    } else {
        max
    }
}

/// IEEE equality of two floats.
pub fn equal_floats(a: u64, b: u64) -> (r: bool)
    ensures
        r == float_eq(a, b),
{
    !nan(a) && !nan(b) && position(a) == position(b)
}

/// The whole part of a float, towards zero. Infinities and NaN stay as they
/// are.
pub fn float_trunc(b: u64) -> (r: u64)
    ensures
        !is_finite(b) ==> r == b,
        is_finite(b) ==> is_finite(r) && is_negative(r) == is_negative(b) && units(r) == units(b)
            - units(b) % one(),
{
    let m: u64 = b % SIGN;
    let e: u64 = m / MANTISSA_RANGE;
    proof {
        lemma_fields(b);
    }
    if e >= 1075 {
        proof {
            if is_finite(b) {
                lemma_units_large(b);
            }
        }
        return b;
    }
    proof {
        lemma_units_small(b);
    }
    if e < 1023 {
        let r: u64 = b - m;
        proof {
            let s = (if e == 0 { 1074 } else { 1075 - e }) as nat;
            lemma_long_shift(b, s);
            let cleared = significand(b) - significand(b) % pow2(s);
            assert(cleared * pow2((1074 - s) as nat) == 0) by (nonlinear_arith)
                requires
                    cleared == 0,
            ;
            lemma_fields(r);
            lemma2_to64();
            assert(magnitude(r) == 0);
            assert(units(r) == 0 * pow2(0));
            assert(units(b) - units(b) % one() == 0);
        }
        r
    } else {
        let s: u64 = 1075 - e;
        let p: u64 = power_of_two(s);
        proof {
            lemma_pow2_pos(s as nat);
            lemma_trunc_mantissa(m as nat, e as nat, p as nat, s as nat);
        }
        let r: u64 = b - m % p;
        proof {
            lemma_fields(r);
            assert(magnitude(r) == e * MANTISSA_RANGE + (mantissa(b) - m % p));
            assert(exponent(r) == e);
            assert(significand(r) == significand(b) - significand(b) % pow2(s as nat));
            assert((1074 - s) as nat == exponent(r) - 1);
        }
        r
    }
}

/// Clearing fractional bits of a mantissa below a range of `2^52` leaves the
/// exponent above it alone.
proof fn lemma_trunc_mantissa(m: nat, e: nat, p: nat, s: nat)
    requires
        s <= 52,
        p == pow2(s),
        m == e * MANTISSA_RANGE + m % MANTISSA_RANGE as nat,
    ensures
        p > 0,
        m % p == (m % MANTISSA_RANGE as nat) % p,
        m % p == (m % MANTISSA_RANGE as nat + MANTISSA_RANGE) % (p as int),
        m % p <= m % MANTISSA_RANGE as nat,
{
    let f = m % MANTISSA_RANGE as nat;
    let q = pow2((52 - s) as nat);
    lemma_pow2_pos(s);
    lemma_pow2_adds(s, (52 - s) as nat);
    lemma2_to64_rest();
    assert(p * q == MANTISSA_RANGE);
    assert(m == (e * q) * p + f) by (nonlinear_arith)
        requires
            m == e * MANTISSA_RANGE + f,
            p * q == MANTISSA_RANGE,
    ;
    vstd::arithmetic::div_mod::lemma_mod_multiples_vanish((e * q) as int, f as int, p as int);
    vstd::arithmetic::div_mod::lemma_mod_multiples_vanish(q as int, f as int, p as int);
    assert(p * (e * q) == (e * q) * p) by (nonlinear_arith);
    vstd::arithmetic::div_mod::lemma_mod_decreases(f, p);
}

/// The pattern of positive infinity.
pub const INFINITY: u64 = 0x7FF0_0000_0000_0000;

/// Patterns order non-negative finite floats by value.
pub proof fn lemma_magnitude_orders_values(a: u64, b: u64)
    requires
        is_finite(a),
        is_finite(b),
    ensures
        magnitude(a) < magnitude(b) <==> units(a) < units(b),
        magnitude(a) == magnitude(b) <==> units(a) == units(b),
{
    if magnitude(a) < magnitude(b) {
        lemma_units_increase(a, b);
    } else if magnitude(b) < magnitude(a) {
        lemma_units_increase(b, a);
    }
}

proof fn lemma_units_increase(a: u64, b: u64)
    requires
        magnitude(a) < magnitude(b),
    ensures
        units(a) < units(b),
{
    lemma_fields(a);
    lemma_fields(b);
    let ea = (if exponent(a) == 0 { 0 } else { exponent(a) - 1 }) as nat;
    let eb = (if exponent(b) == 0 { 0 } else { exponent(b) - 1 }) as nat;
    let sa = significand(a);
    let sb = significand(b);
    lemma_pow2_pos(ea);
    lemma_pow2_pos(eb);
    if ea == eb {
        assert(sa * pow2(ea) < sb * pow2(ea)) by (nonlinear_arith)
            requires
                sa < sb,
                pow2(ea) > 0,
        ;
    } else {
        lemma_pow2_unfold(eb);
        if ea < eb - 1 {
            lemma_pow2_strictly_increases(ea, (eb - 1) as nat);
        }
        assert(2 * pow2(ea) <= pow2(eb));
        assert(sa * pow2(ea) < sb * pow2(eb)) by (nonlinear_arith)
            requires
                sa < 2 * sb,
                0 < 2 * pow2(ea) <= pow2(eb),
        ;
    }
}

/// Whole numbers below `2^56` order by value, and any of them is simpler than
/// any other float.
pub proof fn lemma_simple_floats_first(a: u64, b: u64)
    requires
        is_simple(a),
    ensures
        lex_of(a) < SIMPLE_LIMIT,
        is_simple(b) ==> (lex_of(a) < lex_of(b) <==> units(a) < units(b)),
        !is_simple(b) ==> lex_of(a) < lex_of(b),
{
    lemma_pow2_pos(1074);
    if is_simple(b) {
        lemma_fundamental_div_mod(units(a) as int, one() as int);
        lemma_fundamental_div_mod(units(b) as int, one() as int);
        let x = (units(a) / one()) as int;
        let y = (units(b) / one()) as int;
        assert(x < y <==> one() * x < one() * y) by (nonlinear_arith)
            requires
                one() > 0,
        ;
    }
}

/// The encoding of a whole number below `2^56` is that number.
pub proof fn lemma_simple_floats_encode_as_themselves(b: u64, v: nat)
    requires
        is_finite(b),
        units(b) == v * one(),
        v < SIMPLE_LIMIT,
    ensures
        lex_of(b) == v,
{
    lemma_pow2_pos(1074);
    lemma_mod_multiples_basic(v as int, one() as int);
    lemma_div_multiples_vanish(v as int, one() as int);
    lemma_mul_is_commutative(v as int, one() as int);
}

/// Infinity is worse than every finite value.
pub proof fn lemma_infinity_is_last(b: u64)
    requires
        is_finite(b),
    ensures
        lex_of(b) < lex_of(INFINITY),
{
    lemma_fields(b);
    lemma_reordered_bound(exponent(b) - BIAS, mantissa(b));
    assert(exponent(INFINITY) == MAX_EXPONENT);
    assert(rank(exponent(b)) <= 2046);
}

/// Among floats with the same exponent and the same whole part, one with
/// fewer fraction bits is simpler: `a` has none of the `k` lowest bits, `b`
/// has one of them.
pub proof fn lemma_fewer_fraction_bits_are_simpler(a: u64, b: u64, k: nat)
    requires
        !is_simple(a),
        !is_simple(b),
        exponent(a) == exponent(b),
        ({
            let n = fraction_bits(exponent(a) - BIAS);
            &&& k <= n
            &&& mantissa(a) / pow2(n) == mantissa(b) / pow2(n)
        }),
        mantissa(a) % pow2(k) == 0,
        mantissa(b) % pow2(k) != 0,
    ensures
        lex_of(a) < lex_of(b),
{
    let n = fraction_bits(exponent(a) - BIAS);
    lemma_reversed_divisible(mantissa(a), n, k);
    lemma_reversed_divisible(mantissa(b), n, k);
    lemma_pow2_pos(n);
    lemma_fundamental_div_mod(mantissa(a) as int, pow2(n) as int);
    lemma_fundamental_div_mod(mantissa(b) as int, pow2(n) as int);
}

/// NaN is worse than everything else, and any negative float is worse than
/// any other.
pub proof fn lemma_complexity_by_class(a: u64, b: u64)
    requires
        !is_nan(a),
    ensures
        is_nan(b) ==> complexity(a) < complexity(b),
        !is_negative(a) && !is_nan(b) && is_negative(b) ==> complexity(a) < complexity(b),
        is_negative(a) == is_negative(b) && !is_nan(b) ==> (complexity(a) < complexity(b)
            <==> lex_of(a) < lex_of(b)),
{
    lemma_fields(a);
    lemma_fields(b);
    lemma_pow2_pos(1074);
    lemma_reordered_bound(exponent(a) - BIAS, mantissa(a));
    lemma_reordered_bound(exponent(b) - BIAS, mantissa(b));
    assert(rank(exponent(a)) <= MAX_EXPONENT);
}

/// The encoding tells floats of different magnitudes apart.
pub proof fn lemma_lex_injective(a: u64, b: u64)
    requires
        lex_of(a) == lex_of(b),
    ensures
        magnitude(a) == magnitude(b),
{
    lemma_fields(a);
    lemma_fields(b);
    lemma_pow2_pos(1074);
    lemma_reordered_bound(exponent(a) - BIAS, mantissa(a));
    lemma_reordered_bound(exponent(b) - BIAS, mantissa(b));
    if is_simple(a) && is_simple(b) {
        lemma_fundamental_div_mod(units(a) as int, one() as int);
        lemma_fundamental_div_mod(units(b) as int, one() as int);
        lemma_magnitude_orders_values(a, b);
    } else if is_simple(a) {
        lemma_simple_floats_first(a, b);
    } else if is_simple(b) {
        lemma_simple_floats_first(b, a);
    } else {
        assert(rank(exponent(a)) == rank(exponent(b)));
        assert(exponent(a) == exponent(b));
        lemma_reordered_twice(exponent(a) - BIAS, mantissa(a));
        lemma_reordered_twice(exponent(b) - BIAS, mantissa(b));
    }
}

/// What complexities are: that of a non-negative float is its encoding, that of
/// a negative one is as much above `2^64`, and that of NaN is the largest number
/// there is. The encoding does not look at the sign.
pub proof fn lemma_complexity_values(b: u64)
    ensures
        is_nan(b) ==> complexity(b) == u128::MAX,
        !is_nan(b) && b < 0x8000_0000_0000_0000 ==> complexity(b) == lex_of(b),
        !is_nan(b) && b >= 0x8000_0000_0000_0000 ==> complexity(b) == 0x1_0000_0000_0000_0000
            + lex_of((b - 0x8000_0000_0000_0000) as u64),
{
    lemma_fields(b);
    if b >= 0x8000_0000_0000_0000 {
        let a = (b - 0x8000_0000_0000_0000) as u64;
        lemma_fields(a);
        assert(magnitude(a) == magnitude(b));
    }
}

/// +0.0 is the simplest float.
pub proof fn lemma_zero_is_simplest(b: u64)
    ensures
        complexity(0) == 0,
        complexity(b) == 0 ==> b == 0,
{
    lemma_fields(0);
    lemma_fields(b);
    lemma_pow2_pos(1074);
    assert(units(0) == 0);
    lemma_simple_floats_encode_as_themselves(0, 0);
    if complexity(b) == 0 {
        lemma_fundamental_div_mod(units(b) as int, one() as int);
        assert(one() * 0 == 0) by (nonlinear_arith);
        assert(units(b) == 0);
        lemma_magnitude_orders_values(b, 0);
    }
}

/// The shrink target of a range lies in it, and nothing in the range is
/// closer to zero.
pub proof fn lemma_shrink_target_in_range(min: u64, max: u64, b: u64)
    requires
        !is_nan(min),
        !is_nan(max),
        signed(min) <= signed(max),
    ensures
        !is_nan(shrink_target(min, max)),
        signed(min) <= signed(shrink_target(min, max)) <= signed(max),
        signed(min) <= signed(b) <= signed(max) ==> magnitude(shrink_target(min, max)) <= magnitude(
            b,
        ),
{
}

/// Two floats are equal as numbers if neither is NaN and their patterns are the
/// same, or are those of the two zeros.
pub proof fn lemma_float_eq(a: u64, b: u64)
    ensures
        float_eq(a, b) <==> !is_nan(a) && !is_nan(b) && (a == b || (magnitude(a) == 0 && magnitude(
            b,
        ) == 0)),
{
    lemma_fields(a);
    lemma_fields(b);
}

/// Which patterns are what: the sign is the top bit, and above the pattern of
/// infinity, sign aside, is NaN.
pub proof fn lemma_patterns(b: u64)
    ensures
        is_negative(b) <==> b >= 0x8000_0000_0000_0000,
        !is_negative(b) ==> magnitude(b) == b,
        is_negative(b) ==> magnitude(b) == b - 0x8000_0000_0000_0000,
        is_nan(b) <==> magnitude(b) > 0x7FF0_0000_0000_0000,
        is_finite(b) <==> magnitude(b) < 0x7FF0_0000_0000_0000,
        is_negative(b) ==> signed(b) == -magnitude(b),
        !is_negative(b) ==> signed(b) == magnitude(b),
{
    lemma_fields(b);
}

/// The value of a finite float doubles with each step of its exponent: in
/// units of the smallest positive float, subnormal ones are their mantissa.
pub proof fn lemma_values(b: u64)
    ensures
        magnitude(b) < 0x10_0000_0000_0000 ==> units(b) == magnitude(b),
        magnitude(b) >= 0x10_0000_0000_0000 ==> units(b) == (magnitude(b) % 0x10_0000_0000_0000
            + 0x10_0000_0000_0000) * pow2((magnitude(b) / 0x10_0000_0000_0000 - 1) as nat),
{
    lemma_fields(b);
    lemma2_to64();
    if magnitude(b) < 0x10_0000_0000_0000 {
        assert(units(b) == significand(b) * pow2(0));
        assert(significand(b) * 1 == significand(b));
    }
}

/// Which floats encode as themselves: those with a whole value below `2^56`.
/// All others come after every such value, and those whose exponent ranks
/// first are simpler.
pub proof fn lemma_encoding(a: u64, b: u64)
    ensures
        is_finite(a) && units(a) % pow2(1074) == 0 && units(a) / pow2(1074)
            < 0x100_0000_0000_0000 ==> lex_of(a) == units(a) / pow2(1074),
        !(is_finite(a) && units(a) % pow2(1074) == 0 && units(a) / pow2(1074)
            < 0x100_0000_0000_0000) ==> lex_of(a) >= 0x8000_0000_0000_0000,
        !is_simple(a) && !is_simple(b) && rank(exponent(a)) < rank(exponent(b)) ==> lex_of(a)
            < lex_of(b),
{
    lemma_fields(a);
    lemma_fields(b);
    lemma_reordered_bound(exponent(a) - BIAS, mantissa(a));
    lemma_reordered_bound(exponent(b) - BIAS, mantissa(b));
}

/// What exponents rank as, and what shrink targets are of bounds that do not
/// bound: one that is NaN does not bind, and of bounds that cross the upper one
/// is the target.
pub proof fn lemma_ranks_and_targets(e: nat, min: u64, max: u64)
    ensures
        e == 2047 ==> rank(e) == 2047,
        1023 <= e < 2047 ==> rank(e) == e - 1023,
        e < 1023 ==> rank(e) == 2046 - e,
        is_nan(min) ==> shrink_target(min, max) == shrink_target(0xFFF0_0000_0000_0000, max),
        is_nan(max) ==> shrink_target(min, max) == shrink_target(min, 0x7FF0_0000_0000_0000),
        !is_nan(min) && !is_nan(max) && signed(min) > signed(max) ==> shrink_target(min, max)
            == max,
{
    lemma_patterns(min);
    lemma_patterns(max);
    lemma_patterns(0xFFF0_0000_0000_0000);
    lemma_patterns(0x7FF0_0000_0000_0000);
}

/// Exponents rank from 1.0's upwards, then from the one below downwards, and
/// that of infinity and NaN last.
pub proof fn lemma_rank_order(e: nat, f: nat)
    requires
        e < f <= MAX_EXPONENT,
    ensures
        f == MAX_EXPONENT ==> rank(e) < rank(f),
        f < MAX_EXPONENT && e >= BIAS ==> rank(e) < rank(f),
        f < MAX_EXPONENT && e < BIAS ==> rank(f) < rank(e),
{
}

} // verus!
