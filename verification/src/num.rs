//! Numbers as IEEE 754 bit patterns.
//!
//! Samples are double-precision values. The library holds each as the `u64`
//! that its sign, exponent and fraction spell, and computes on that integer.

use vstd::prelude::*;

verus! {

use vstd::arithmetic::power::{lemma_pow_adds, lemma_pow_positive};
use vstd::arithmetic::power2::{lemma2_to64, lemma2_to64_rest, lemma_pow2_pos, lemma_pow2_unfold, pow2};

/// The implicit leading bit of a double's fraction: 2^52.
pub const HIDDEN: u64 = 0x10_0000_0000_0000;

/// The sign bit of a double.
pub const SIGN: u64 = 0x8000_0000_0000_0000;

/// The pattern of positive infinity.
pub const INFINITY: u64 = 0x7ff0_0000_0000_0000;

/// A quiet NaN.
pub const NAN: u64 = 0x7ff8_0000_0000_0000;

/// The pattern without its sign.
pub open spec fn magnitude(b: u64) -> u64 {
    if b >= SIGN {
        (b - SIGN) as u64
    } else {
        b
    }
}

/// Whether the pattern is not a number.
pub open spec fn is_nan(b: u64) -> bool {
    magnitude(b) > INFINITY
}

/// An integer that orders the patterns of numbers as the numbers are ordered.
/// The two zeros share it.
pub open spec fn rank(b: u64) -> int {
    if b >= SIGN {
        -(b - SIGN)
    } else {
        b as int
    }
}

/// Whether the number `a` is less than the number `b`.
pub open spec fn below(a: u64, b: u64) -> bool {
    !is_nan(a) && !is_nan(b) && rank(a) < rank(b)
}

/// Whether the numbers are equal.
pub open spec fn equal(a: u64, b: u64) -> bool {
    !is_nan(a) && !is_nan(b) && rank(a) == rank(b)
}

/// The smaller of two numbers; the other one where one is not a number.
pub open spec fn lesser(a: u64, b: u64) -> u64 {
    if is_nan(a) || below(b, a) {
        b
    } else {
        a
    }
}

/// The larger of two numbers; the other one where one is not a number.
pub open spec fn greater(a: u64, b: u64) -> u64 {
    if is_nan(a) || below(a, b) {
        b
    } else {
        a
    }
}

pub fn number_is_nan(b: u64) -> (r: bool)
    ensures
        r == is_nan(b),
{
    if b >= SIGN {
        b - SIGN > INFINITY
    } else {
        b > INFINITY
    }
}

pub fn number_below(a: u64, b: u64) -> (r: bool)
    ensures
        r == below(a, b),
{
    if number_is_nan(a) || number_is_nan(b) {
        false
    } else if a >= SIGN {
        if b >= SIGN {
            a > b
        } else {
            a > SIGN || b > 0
        }
    } else {
        b < SIGN && a < b
    }
}

pub fn number_equal(a: u64, b: u64) -> (r: bool)
    ensures
        r == equal(a, b),
{
    !number_is_nan(a) && !number_is_nan(b) && !number_below(a, b) && !number_below(b, a)
}

pub fn number_min(a: u64, b: u64) -> (r: u64)
    ensures
        r == lesser(a, b),
{
    if number_is_nan(a) || number_below(b, a) {
        b
    } else {
        a
    }
}

pub fn number_max(a: u64, b: u64) -> (r: u64)
    ensures
        r == greater(a, b),
{
    if number_is_nan(a) || number_below(a, b) {
        b
    } else {
        a
    }
}

/// The number of the highest bit of `n`.
pub open spec fn top_bit(n: nat) -> nat
    decreases n,
{
    if n <= 1 {
        0
    } else {
        1 + top_bit(n / 2)
    }
}

/// `n` without its low `s` bits, rounded to the nearest integer, a tie going to
/// the even one.
pub open spec fn round_shift(n: nat, s: nat) -> nat {
    let d = pow2(s);
    let q = n / d;
    let r = n % d;
    if 2 * r > d || (2 * r == d && q % 2 == 1) {
        q + 1
    } else {
        q
    }
}

/// The double nearest to `n`, a tie going to the one with the even fraction.
///
/// The fraction has 53 bits, the highest of them implied. A fraction that
/// rounding carries past the last of them moves into the exponent by itself.
pub open spec fn double_of_nat(n: nat) -> nat {
    if n == 0 {
        0
    } else {
        let e = top_bit(n);
        let fraction = if e <= 52 {
            n * pow2((52 - e) as nat)
        } else {
            round_shift(n, (e - 52) as nat)
        };
        ((e + 1023) * HIDDEN + fraction - HIDDEN) as nat
    }
}

/// The double nearest to `n`.
pub open spec fn double_of_int(n: int) -> nat {
    if n < 0 {
        SIGN as nat + double_of_nat((-n) as nat)
    } else {
        double_of_nat(n as nat)
    }
}

/// Whether the positive double `b` is the integer `n`.
pub open spec fn stands_for(b: u64, n: nat) -> bool {
    let e = b as int / HIDDEN as int - 1023;
    let m = (HIDDEN + b % HIDDEN) as nat;
    if n == 0 {
        b == 0
    } else if e <= 52 {
        e >= 0 && m == n * pow2((52 - e) as nat)
    } else {
        n == m * pow2((e - 52) as nat)
    }
}

/// The highest bit brackets the number.
pub proof fn lemma_top_bit(n: nat)
    requires
        n > 0,
    ensures
        pow2(top_bit(n)) <= n < 2 * pow2(top_bit(n)),
    decreases n,
{
    if n == 1 {
        lemma2_to64();
    } else {
        lemma_top_bit(n / 2);
        lemma_pow2_unfold(top_bit(n));
    }
}

/// A bracket by powers of two names the highest bit.
pub proof fn lemma_top_bit_unique(n: nat, e: nat)
    requires
        n > 0,
        pow2(e) <= n < 2 * pow2(e),
    ensures
        top_bit(n) == e,
    decreases n,
{
    if n == 1 {
        if e > 0 {
            lemma_pow2_unfold(e);
            lemma_pow2_pos((e - 1) as nat);
        }
    } else {
        if e == 0 {
            lemma2_to64();
        } else {
            lemma_pow2_unfold(e);
            lemma_top_bit_unique(n / 2, (e - 1) as nat);
        }
    }
}

/// Powers of two multiply by adding their exponents.
pub proof fn lemma_pow2_sum(a: nat, b: nat)
    ensures
        pow2(a) * pow2(b) == pow2(a + b),
{
    lemma_pow_adds(2, a, b);
    lemma_pow_positive(2, a);
    lemma_pow_positive(2, b);
    lemma_pow_positive(2, a + b);
}

/// The power of two with exponent `k`.
pub(crate) fn power_of_two(k: u64) -> (r: u64)
    requires
        k < 64,
    ensures
        r == pow2(k as nat),
{
    let mut p: u64 = 1;
    let mut i: u64 = 0;
    proof {
        lemma2_to64();
    }
    while i < k
        invariant
            i <= k < 64,
            p == pow2(i as nat),
        decreases k - i,
    {
        proof {
            lemma_pow2_unfold((i + 1) as nat);
            lemma_pow2_monotone((i + 1) as nat, 63);
            lemma2_to64_rest();
        }
        p = p * 2;
        i = i + 1;
    }
    p
}

pub proof fn lemma_pow2_monotone(a: nat, b: nat)
    requires
        a <= b,
    ensures
        pow2(a) <= pow2(b),
    decreases b,
{
    if a < b {
        lemma_pow2_monotone(a, (b - 1) as nat);
        lemma_pow2_unfold(b);
    }
}

/// From 64 on, a power of two is larger than any `u64`.
pub proof fn lemma_pow2_exceeds_u64(k: nat)
    requires
        k >= 64,
    ensures
        pow2(k) > u64::MAX,
{
    lemma_pow2_monotone(64, k);
    lemma2_to64_rest();
}

/// The highest bit of `n` and its weight.
pub(crate) fn highest_bit(n: u64) -> (r: (u64, u64))
    requires
        n > 0,
    ensures
        r.0 == top_bit(n as nat),
        r.1 == pow2(r.0 as nat),
        r.0 < 64,
        r.1 <= n < 2 * r.1,
{
    let mut e: u64 = 0;
    let mut p: u64 = 1;
    proof {
        lemma2_to64();
    }
    while n / 2 >= p
        invariant
            p == pow2(e as nat),
            1 <= p <= n,
            e < 64,
        decreases n - p,
    {
        proof {
            lemma_pow2_unfold((e + 1) as nat);
            if e == 63 {
                lemma2_to64_rest();
            }
        }
        p = p * 2;
        e = e + 1;
    }
    proof {
        lemma_top_bit_unique(n as nat, e as nat);
    }
    (e, p)
}

/// The double nearest to `n`.
pub fn f64_of_u64(n: u64) -> (b: u64)
    ensures
        b == double_of_nat(n as nat),
        b < INFINITY,
{
    if n == 0 {
        return 0;
    }
    let (e, p) = highest_bit(n);
    let fraction: u64 = if e <= 52 {
        let k: u64 = power_of_two(52 - e);
        proof {
            lemma_pow2_sum(e as nat, (52 - e) as nat);
            lemma2_to64_rest();
            assert(p * k == HIDDEN);
            assert(p * k <= n * k) by (nonlinear_arith)
                requires
                    p <= n,
                    k > 0,
            ;
            assert(n * k < 2 * p * k) by (nonlinear_arith)
                requires
                    n < 2 * p,
                    k > 0,
            ;
            assert(2 * p * k == 2 * (p * k)) by (nonlinear_arith);
            lemma_pow2_pos((52 - e) as nat);
        }
        n * k
    } else {
        let d: u64 = power_of_two(e - 52);
        proof {
            lemma_pow2_sum(52, (e - 52) as nat);
            lemma2_to64_rest();
            assert(p == HIDDEN * d);
            lemma_pow2_pos((e - 52) as nat);
        }
        let q: u64 = n / d;
        let r: u64 = n % d;
        proof {
            assert(HIDDEN <= q < 2 * HIDDEN && r < d) by (nonlinear_arith)
                requires
                    d > 0,
                    q == n / d,
                    r == n % d,
                    HIDDEN * d <= n < 2 * (HIDDEN * d),
            ;
        }
        if r > d - r || (r == d - r && q % 2 == 1) {
            q + 1
        } else {
            q
        }
    };
    (e + 1023) * HIDDEN + (fraction - HIDDEN)
}

/// The double nearest to `n`.
pub fn f64_of_i64(n: i64) -> (b: u64)
    ensures
        b == double_of_int(n as int),
{
    if n < 0 {
        let m: u64 = (-(n + 1)) as u64 + 1;
        SIGN + f64_of_u64(m)
    } else {
        f64_of_u64(n as u64)
    }
}

/// Up to 2^53 every integer is a double: the conversion keeps its value.
pub proof fn law_small_integers_are_exact(n: nat)
    requires
        n <= 0x20_0000_0000_0000,
    ensures
        stands_for(double_of_nat(n) as u64, n),
{
    if n > 0 {
        let e = top_bit(n);
        lemma_top_bit(n);
        lemma2_to64_rest();
        if e > 53 {
            lemma_pow2_monotone(54, e);
        }
        if e <= 52 {
            let k = pow2((52 - e) as nat);
            lemma_pow2_sum(e, (52 - e) as nat);
            lemma_pow2_pos((52 - e) as nat);
            let m = n * k;
            let p = pow2(e);
            assert(HIDDEN <= m < 2 * HIDDEN) by (nonlinear_arith)
                requires
                    m == n * k,
                    p <= n < 2 * p,
                    k > 0,
                    p * k == HIDDEN,
            ;
            let b = double_of_nat(n);
            assert(b == (e + 1023) * HIDDEN + (m - HIDDEN));
            assert(b as int / HIDDEN as int == e + 1023);
            assert(b % (HIDDEN as nat) == m - HIDDEN);
            assert(stands_for(b as u64, n));
        } else {
            assert(n == 0x20_0000_0000_0000);
            assert(pow2(1) == 2) by {
                lemma2_to64();
            }
            assert(e == 53);
            let b = double_of_nat(n);
            assert(pow2((e - 52) as nat) == 2);
            assert(round_shift(n, 1) == HIDDEN);
            assert(b == 1076 * HIDDEN);
            assert(b / (HIDDEN as nat) == 1076);
            assert(b % (HIDDEN as nat) == 0);
            assert(stands_for(b as u64, n));
        }
    }
}

/// The double with the value of the single `b`. Every single has one; what is
/// not a number stays so, with its quiet bit set.
pub open spec fn double_of_single(b: u32) -> nat {
    let sign = (if b >= 0x8000_0000 {
        SIGN
    } else {
        0u64
    }) as nat;
    let e = (b as nat / 0x80_0000) % 256;
    let m = b as nat % 0x80_0000;
    let wide = m * 0x2000_0000;
    sign + (if e == 255 {
        if m == 0 || m >= 0x40_0000 {
            INFINITY as nat + wide
        } else {
            NAN as nat + wide
        }
    } else if e > 0 {
        (e + 896) * HIDDEN as nat + wide
    } else if m == 0 {
        0
    } else {
        let k = top_bit(m);
        ((k + 874) * HIDDEN + m * pow2((52 - k) as nat) - HIDDEN) as nat
    })
}

/// The double with the value of the single `b`.
pub fn f64_of_f32(b: u32) -> (r: u64)
    ensures
        r == double_of_single(b),
{
    let sign: u64 = if b >= 0x8000_0000 {
        SIGN
    } else {
        0
    };
    let e: u64 = ((b / 0x80_0000) % 256) as u64;
    let m: u64 = (b % 0x80_0000) as u64;
    let wide: u64 = m * 0x2000_0000;
    if e == 255 {
        if m == 0 || m >= 0x40_0000 {
            sign + (INFINITY + wide)
        } else {
            sign + (NAN + wide)
        }
    } else if e > 0 {
        sign + ((e + 896) * HIDDEN + wide)
    } else if m == 0 {
        sign
    } else {
        let (k, p) = highest_bit(m);
        proof {
            lemma2_to64();
            if k > 22 {
                lemma_pow2_monotone(23, k as nat);
            }
        }
        let scale: u64 = power_of_two(52 - k);
        proof {
            lemma_pow2_sum(k as nat, (52 - k) as nat);
            lemma2_to64_rest();
            lemma_pow2_pos((52 - k) as nat);
            assert(HIDDEN <= m * scale < 2 * HIDDEN) by (nonlinear_arith)
                requires
                    p <= m < 2 * p,
                    scale > 0,
                    p * scale == HIDDEN,
            ;
        }
        sign + ((k + 874) * HIDDEN + (m * scale - HIDDEN))
    }
}

/// The integer part of the size of `b`, for a pattern that is a number. An
/// infinity counts as the number that its exponent would spell.
pub open spec fn whole_part(b: u64) -> nat {
    let mag = magnitude(b);
    let e = mag as int / HIDDEN as int - 1023;
    let m = (HIDDEN + mag % HIDDEN) as nat;
    if e < 0 {
        0
    } else if e <= 52 {
        m / pow2((52 - e) as nat)
    } else {
        m * pow2((e - 52) as nat)
    }
}

/// `v`, or the nearest bound of `i64`.
pub open spec fn clamp_i64(v: int) -> int {
    if v < i64::MIN {
        i64::MIN as int
    } else if v > i64::MAX {
        i64::MAX as int
    } else {
        v
    }
}

/// A double as an integer: its fraction dropped, held within `i64`, and zero for
/// what is not a number.
pub open spec fn int_of_double(b: u64) -> int {
    if is_nan(b) {
        0
    } else if b >= SIGN {
        clamp_i64(-(whole_part(b) as int))
    } else {
        clamp_i64(whole_part(b) as int)
    }
}

pub fn i64_of_f64(b: u64) -> (r: i64)
    ensures
        r == int_of_double(b),
{
    if number_is_nan(b) {
        return 0;
    }
    let negative = b >= SIGN;
    let mag: u64 = if negative {
        b - SIGN
    } else {
        b
    };
    let biased: u64 = mag / HIDDEN;
    let m: u64 = HIDDEN + mag % HIDDEN;
    if biased < 1023 {
        return 0;
    }
    let e: u64 = biased - 1023;
    if e >= 63 {
        proof {
            lemma_pow2_monotone(11, (e - 52) as nat);
            lemma2_to64();
            let d = pow2((e - 52) as nat);
            assert(m * d >= HIDDEN * 2048) by (nonlinear_arith)
                requires
                    m >= HIDDEN,
                    d >= 2048,
            ;
        }
        return if negative {
            i64::MIN
        } else {
            i64::MAX
        };
    }
    let whole: u64 = if e <= 52 {
        let d: u64 = power_of_two(52 - e);
        proof {
            lemma_pow2_pos((52 - e) as nat);
            assert(m / d <= m) by (nonlinear_arith)
                requires
                    d > 0,
            ;
        }
        m / d
    } else {
        let d: u64 = power_of_two(e - 52);
        proof {
            lemma_pow2_monotone((e - 52) as nat, 10);
            lemma2_to64();
            assert(m * d < 0x20_0000_0000_0000 * 1024) by (nonlinear_arith)
                requires
                    m < 0x20_0000_0000_0000,
                    0 <= d <= 1024,
            ;
        }
        m * d
    };
    if negative {
        -(whole as i64)
    } else {
        whole as i64
    }
}

/// The double of a whole number below 2^53 cuts back to that number, and numbers
/// in between stay in between.
pub proof fn lemma_int_of_double_bracket(b: u64, lo: nat, hi: nat)
    requires
        0 < lo <= hi < 0x20_0000_0000_0000,
        !is_nan(b),
        !below(b, double_of_nat(lo) as u64),
        !below(double_of_nat(hi) as u64, b),
    ensures
        lo <= int_of_double(b) <= hi,
{
    lemma_double_of_small(lo);
    lemma_double_of_small(hi);
    let x = double_of_nat(lo) as u64;
    let y = double_of_nat(hi) as u64;
    lemma_whole_part_monotone(x, b);
    lemma_whole_part_monotone(b, y);
}

proof fn lemma_double_of_small(n: nat)
    requires
        0 < n < 0x20_0000_0000_0000,
    ensures
        HIDDEN * 1023 <= double_of_nat(n) < INFINITY,
        whole_part(double_of_nat(n) as u64) == n,
{
    let e = top_bit(n);
    lemma_top_bit(n);
    lemma2_to64_rest();
    if e > 52 {
        lemma_pow2_monotone(53, e);
    }
    let k = pow2((52 - e) as nat);
    lemma_pow2_sum(e, (52 - e) as nat);
    lemma_pow2_pos((52 - e) as nat);
    let m = n * k;
    let p = pow2(e);
    assert(HIDDEN <= m < 2 * HIDDEN) by (nonlinear_arith)
        requires
            m == n * k,
            p <= n < 2 * p,
            k > 0,
            p * k == HIDDEN,
    ;
    let b = double_of_nat(n);
    assert(b == (e + 1023) * HIDDEN + (m - HIDDEN));
    assert(b as int / HIDDEN as int == e + 1023);
    assert(b % (HIDDEN as nat) == m - HIDDEN);
    assert(m / k == n) by (nonlinear_arith)
        requires
            m == n * k,
            k > 0,
    ;
}

/// Of two positive doubles the larger one has the larger whole part.
proof fn lemma_whole_part_monotone(a: u64, b: u64)
    requires
        a <= b < SIGN,
    ensures
        whole_part(a) <= whole_part(b),
{
    let ea = a as int / HIDDEN as int - 1023;
    let eb = b as int / HIDDEN as int - 1023;
    let ma = (HIDDEN + a % HIDDEN) as nat;
    let mb = (HIDDEN + b % HIDDEN) as nat;
    if ea >= 0 {
        assert(ea <= eb);
        if ea == eb {
            assert(ma <= mb);
            if ea <= 52 {
                let d = pow2((52 - ea) as nat);
                lemma_pow2_pos((52 - ea) as nat);
                assert(ma / d <= mb / d) by (nonlinear_arith)
                    requires
                        ma <= mb,
                        d > 0,
                ;
            } else {
                let d = pow2((ea - 52) as nat);
                assert(ma * d <= mb * d) by (nonlinear_arith)
                    requires
                        ma <= mb,
                        d >= 0,
                ;
            }
        } else {
            lemma_whole_part_size(a);
            lemma_whole_part_size(b);
            lemma_pow2_monotone((ea + 1) as nat, eb as nat);
        }
    }
}

/// The whole part of a double with a given exponent.
pub proof fn lemma_whole_part_size(a: u64)
    requires
        a < SIGN,
        a as int / HIDDEN as int >= 1023,
    ensures
        ({
            let e = (a as int / HIDDEN as int - 1023) as nat;
            pow2(e) <= whole_part(a) < pow2(e + 1)
        }),
{
    let e = (a as int / HIDDEN as int - 1023) as nat;
    let m = (HIDDEN + a % HIDDEN) as nat;
    lemma2_to64_rest();
    lemma_pow2_unfold(e + 1);
    if e <= 52 {
        let d = pow2((52 - e) as nat);
        lemma_pow2_pos((52 - e) as nat);
        lemma_pow2_sum(e, (52 - e) as nat);
        let p = pow2(e);
        assert(p <= m / d < 2 * p) by (nonlinear_arith)
            requires
                p * d == HIDDEN,
                d > 0,
                HIDDEN <= m < 2 * HIDDEN,
        ;
    } else {
        let d = pow2((e - 52) as nat);
        lemma_pow2_sum(52, (e - 52) as nat);
        lemma_pow2_pos((e - 52) as nat);
        let p = pow2(e);
        assert(p <= m * d < 2 * p) by (nonlinear_arith)
            requires
                p == HIDDEN * d,
                d > 0,
                HIDDEN <= m < 2 * HIDDEN,
        ;
    }
}

/// The quotient of `n` and `d`, rounded to the nearest integer, a tie going to the even
/// one.
pub open spec fn round_quotient(n: nat, d: nat) -> nat {
    let q = n / d;
    let r = n % d;
    if 2 * r > d || (2 * r == d && q % 2 == 1) {
        q + 1
    } else {
        q
    }
}

/// The fraction of a double with its implied bit.
pub open spec fn significand(b: u64) -> nat {
    (HIDDEN + b % HIDDEN) as nat
}

/// The exponent of the quotient of two positive doubles, before rounding.
pub open spec fn quotient_exponent(a: u64, b: u64) -> int {
    let e = a as int / HIDDEN as int - b as int / HIDDEN as int;
    if significand(a) >= significand(b) {
        e
    } else {
        e - 1
    }
}

/// The significand of `a`, moved so that its quotient by that of `b` has 53 bits.
pub open spec fn moved_significand(a: u64, b: u64) -> nat {
    if significand(a) >= significand(b) {
        significand(a) * HIDDEN as nat
    } else {
        significand(a) * (2 * HIDDEN) as nat
    }
}

/// The double nearest to the quotient of `a`, which is zero or positive, and `b`, which
/// is positive; a tie goes to the one with the even fraction. It is for doubles of middle
/// size, whose quotients are neither too large nor too small for a full fraction.
pub open spec fn double_quotient(a: u64, b: u64) -> u64 {
    if a == 0 {
        0
    } else {
        ((quotient_exponent(a, b) + 1023) * HIDDEN + round_quotient(
            moved_significand(a, b),
            significand(b),
        ) - HIDDEN) as u64
    }
}

/// Whether the double lies between `2^-255` and `2^257`.
pub open spec fn is_middling(b: u64) -> bool {
    768 * HIDDEN <= b < 1280 * HIDDEN
}

proof fn lemma_quotient_fraction(a: u64, b: u64)
    ensures
        HIDDEN <= round_quotient(moved_significand(a, b), significand(b)) <= 2 * HIDDEN,
        moved_significand(a, b) < 0x20_0000_0000_0000 * 0x20_0000_0000_0000,
        moved_significand(a, b) / significand(b) < 2 * HIDDEN,
{
    let n = moved_significand(a, b);
    let d = significand(b);
    let m = significand(a);
    assert(HIDDEN <= m < 2 * HIDDEN && HIDDEN <= d < 2 * HIDDEN);
    let h = HIDDEN as nat;
    let q = n / d;
    assert(n < 0x20_0000_0000_0000 * 0x20_0000_0000_0000 && h <= q < 2 * h) by (nonlinear_arith)
        requires
            h == 0x10_0000_0000_0000,
            h <= m < 2 * h,
            h <= d < 2 * h,
            q == n / d,
            n == (if m >= d {
                m * h
            } else {
                m * (2 * h)
            }),
    ;
}

/// Divides doubles of middle size.
pub fn f64_quotient(a: u64, b: u64) -> (r: u64)
    requires
        a == 0 || is_middling(a),
        is_middling(b),
    ensures
        r == double_quotient(a, b),
{
    if a == 0 {
        return 0;
    }
    let m: u64 = HIDDEN + a % HIDDEN;
    let d: u64 = HIDDEN + b % HIDDEN;
    let n: u128 = if m >= d {
        m as u128 * HIDDEN as u128
    } else {
        m as u128 * 0x20_0000_0000_0000
    };
    // The biased exponents differ by less than 512.
    let e: u64 = if m >= d {
        a / HIDDEN + 1023 - b / HIDDEN
    } else {
        a / HIDDEN + 1022 - b / HIDDEN
    };
    proof {
        lemma_quotient_fraction(a, b);
        assert(n == moved_significand(a, b));
    }
    let q: u64 = (n / d as u128) as u64;
    let rest: u64 = (n % d as u128) as u64;
    let fraction: u64 = if 2 * rest > d || (2 * rest == d && q % 2 == 1) {
        q + 1
    } else {
        q
    };
    assert(fraction == round_quotient(moved_significand(a, b), significand(b)));
    assert(e < 2000);
    assert(e == quotient_exponent(a, b) + 1023);
    e * HIDDEN + (fraction - HIDDEN)
}

/// Rounding keeps order.
proof fn lemma_round_quotient_monotone(x: nat, y: nat, d: nat)
    requires
        x <= y,
        d > 0,
    ensures
        round_quotient(x, d) <= round_quotient(y, d),
{
    let (p, q) = (x / d, y / d);
    vstd::arithmetic::div_mod::lemma_div_is_ordered(x as int, y as int, d as int);
    if p == q {
        vstd::arithmetic::div_mod::lemma_fundamental_div_mod(x as int, d as int);
        vstd::arithmetic::div_mod::lemma_fundamental_div_mod(y as int, d as int);
        assert(x % d <= y % d);
    }
}

/// Of two doubles the larger one has the larger quotient by a third.
pub proof fn lemma_quotient_monotone(a: u64, b: u64, c: u64)
    requires
        a <= b,
        a == 0 || is_middling(a),
        b == 0 || is_middling(b),
        is_middling(c),
    ensures
        double_quotient(a, c) <= double_quotient(b, c) < 1600 * HIDDEN,
        b != 0 ==> double_quotient(b, c) >= 500 * HIDDEN,
{
    if b != 0 {
        lemma_quotient_fraction(b, c);
    }
    if a != 0 {
        lemma_quotient_fraction(a, c);
        let (x, y) = (moved_significand(a, c), moved_significand(b, c));
        let (ea, eb) = (quotient_exponent(a, c), quotient_exponent(b, c));
        let (ma, mb) = (significand(a), significand(b));
        assert(ea <= eb);
        if ea == eb {
            let h = HIDDEN as nat;
            assert(x <= y) by {
                if ma >= significand(c) && mb < significand(c) {
                    assert(ma * h <= mb * (2 * h)) by (nonlinear_arith)
                        requires
                            ma <= 2 * h,
                            mb >= h,
                    ;
                } else if ma < significand(c) && mb >= significand(c) {
                } else {
                    assert(ma <= mb);
                    assert(ma * h <= mb * h && ma * (2 * h) <= mb * (2 * h)) by (nonlinear_arith)
                        requires
                            ma <= mb,
                    ;
                }
            }
            lemma_round_quotient_monotone(x, y, significand(c));
        }
    }
}

/// The quotient of the doubles of two integers is of middle size.
pub proof fn lemma_quotient_size(a: u64, b: u64)
    requires
        1023 * HIDDEN <= a <= 1087 * HIDDEN,
        1023 * HIDDEN <= b <= 1087 * HIDDEN,
    ensures
        is_middling(double_quotient(a, b)),
{
    lemma_quotient_fraction(a, b);
}

/// Of two integers the larger one has the larger double.
pub proof fn lemma_double_of_nat_monotone(a: nat, b: nat)
    requires
        a <= b <= u64::MAX,
    ensures
        double_of_nat(a) <= double_of_nat(b),
        b > 0 ==> 1023 * HIDDEN <= double_of_nat(b) <= 1087 * HIDDEN,
{
    if b > 0 {
        lemma_double_fraction(b);
    }
    if a > 0 {
        lemma_double_fraction(a);
        let (ea, eb) = (top_bit(a), top_bit(b));
        lemma_top_bit(a);
        lemma_top_bit(b);
        if ea > eb {
            lemma_pow2_monotone(eb + 1, ea);
            lemma_pow2_unfold(eb + 1);
        }
        if ea == eb {
            if ea <= 52 {
                let k = pow2((52 - ea) as nat);
                assert(a * k <= b * k) by (nonlinear_arith)
                    requires
                        a <= b,
                ;
            } else {
                let d = pow2((ea - 52) as nat);
                lemma_pow2_pos((ea - 52) as nat);
                lemma_round_quotient_monotone(a, b, d);
            }
        }
    }
}

pub proof fn lemma_double_fraction(n: nat)
    requires
        0 < n <= u64::MAX,
    ensures
        ({
            let e = top_bit(n);
            let fraction = double_of_nat(n) - (e + 1023) * HIDDEN + HIDDEN;
            &&& e < 64
            &&& HIDDEN <= fraction <= 2 * HIDDEN
            &&& fraction == (if e <= 52 {
                n * pow2((52 - e) as nat)
            } else {
                round_shift(n, (e - 52) as nat)
            })
        }),
{
    let e = top_bit(n);
    lemma_top_bit(n);
    lemma2_to64_rest();
    if e >= 64 {
        lemma_pow2_exceeds_u64(e);
    }
    let p = pow2(e);
    let h = HIDDEN as nat;
    if e <= 52 {
        let k = pow2((52 - e) as nat);
        lemma_pow2_sum(e, (52 - e) as nat);
        lemma_pow2_pos((52 - e) as nat);
        assert(h <= n * k < 2 * h) by (nonlinear_arith)
            requires
                p <= n < 2 * p,
                k > 0,
                p * k == h,
        ;
    } else {
        let d = pow2((e - 52) as nat);
        lemma_pow2_sum(52, (e - 52) as nat);
        lemma_pow2_pos((e - 52) as nat);
        assert(h <= n / d < 2 * h) by (nonlinear_arith)
            requires
                p == h * d,
                d > 0,
                p <= n < 2 * p,
        ;
    }
}

/// A double cut to an integer keeps order.
pub proof fn lemma_int_of_double_monotone(a: u64, b: u64)
    requires
        a <= b < INFINITY,
    ensures
        0 <= int_of_double(a) <= int_of_double(b),
{
    lemma_whole_part_monotone(a, b);
}

} // verus!
