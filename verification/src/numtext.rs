//! Numbers as text: doubles in decimal, counts and sizes with a unit.

use crate::capture::CaptureStats;
use crate::clock::append_padded;
use crate::num::{highest_bit, power_of_two, HIDDEN, INFINITY, SIGN};
use crate::text::{append_digits, append_text};
use vstd::prelude::*;

verus! {

use crate::clock::padded;
use crate::num::{is_nan, lemma_pow2_monotone, lemma_pow2_sum, magnitude, round_shift, top_bit};
use crate::text::{decimal, digit_char};
use vstd::arithmetic::power2::{lemma2_to64, lemma2_to64_rest, lemma_pow2_pos, lemma_pow2_unfold, pow2};

/// The integer nearest to `x / y`, a tie going to the even one.
pub open spec fn round_div(x: nat, y: nat) -> nat {
    let q = x / y;
    let r = x % y;
    if 2 * r > y || (2 * r == y && q % 2 == 1) {
        q + 1
    } else {
        q
    }
}

/// The integer nearest to `x / y`.
fn rounded(x: u128, y: u128) -> (r: u128)
    requires
        0 < y <= 0x1000_0000_0000_0000_0000_0000_0000_0000,
        x < 0x1000_0000_0000_0000_0000_0000_0000_0000,
    ensures
        r == round_div(x as nat, y as nat),
{
    let q: u128 = x / y;
    let m: u128 = x % y;
    proof {
        assert(q <= x) by (nonlinear_arith)
            requires
                q == x / y,
                y > 0,
                x >= 0,
        ;
    }
    if m > y - m || (m == y - m && q % 2 == 1) {
        q + 1
    } else {
        q
    }
}

/// The mantissa of a positive double: the number is this times a power of two.
pub open spec fn mantissa(b: u64) -> nat {
    let mag = magnitude(b);
    if mag < HIDDEN {
        mag as nat
    } else {
        HIDDEN as nat + mag as nat % HIDDEN as nat
    }
}

/// The exponent of that power of two.
pub open spec fn exponent(b: u64) -> int {
    let mag = magnitude(b);
    if mag < HIDDEN {
        -1074
    } else {
        mag as int / HIDDEN as int - 1075
    }
}

/// The size of a double in millionths, to the nearest whole one.
pub open spec fn millionths(b: u64) -> nat {
    let m = mantissa(b);
    let e = exponent(b);
    if e >= 0 {
        m * pow2(e as nat) * 1_000_000
    } else {
        round_div(m * 1_000_000, pow2((-e) as nat))
    }
}

/// The digits without the zeros at their end.
pub open spec fn trim_zeros(s: Seq<char>) -> Seq<char>
    decreases s.len(),
{
    if s.len() > 0 && s.last() == '0' {
        trim_zeros(s.drop_last())
    } else {
        s
    }
}

/// A number of millionths in decimal: the whole part, and the fraction where there
/// is one, without zeros at its end.
pub open spec fn millionths_text(v: nat) -> Seq<char> {
    let whole = decimal(v / 1_000_000);
    if v % 1_000_000 == 0 {
        whole
    } else {
        whole.push('.') + trim_zeros(padded(v % 1_000_000, 6))
    }
}

/// A double in decimal, to at most six places.
pub open spec fn scalar_text(b: u64) -> Seq<char> {
    if is_nan(b) {
        "NaN"@
    } else {
        let size = if magnitude(b) == INFINITY {
            "inf"@
        } else {
            millionths_text(millionths(b))
        };
        if b >= SIGN {
            seq!['-'] + size
        } else {
            size
        }
    }
}

/// The number that decimal digits spell, the lowest digit first.
pub open spec fn low_first(d: Seq<u8>) -> nat
    decreases d.len(),
{
    if d.len() == 0 {
        0
    } else {
        d[0] as nat + 10 * low_first(d.skip(1))
    }
}

/// Decimal digits, the lowest first, without leading zeros.
pub open spec fn is_numeral(d: Seq<u8>) -> bool {
    &&& d.len() > 0
    &&& forall|i: int| 0 <= i < d.len() ==> #[trigger] d[i] < 10
    &&& (d.len() > 1 ==> d.last() > 0)
}

/// The text of digits, the highest first.
spec fn spelled(d: Seq<u8>) -> Seq<char>
    decreases d.len(),
{
    if d.len() == 0 {
        Seq::empty()
    } else {
        spelled(d.skip(1)).push(digit_char(d[0] as nat))
    }
}

proof fn lemma_low_first_positive(d: Seq<u8>)
    requires
        is_numeral(d),
        d.len() > 1,
    ensures
        low_first(d) >= 10,
    decreases d.len(),
{
    let r = d.skip(1);
    if r.len() > 1 {
        lemma_low_first_positive(r);
    } else {
        reveal_with_fuel(low_first, 3);
        assert(r.skip(1) =~= Seq::empty());
        assert(r[0] == d.last());
    }
}

proof fn lemma_spelled(d: Seq<u8>)
    requires
        is_numeral(d),
    ensures
        spelled(d) == decimal(low_first(d)),
    decreases d.len(),
{
    let r = d.skip(1);
    if d.len() == 1 {
        reveal_with_fuel(low_first, 2);
        reveal_with_fuel(spelled, 2);
        assert(r =~= Seq::empty());
        assert(low_first(d) == d[0]);
        assert(spelled(d) =~= decimal(low_first(d)));
    } else {
        lemma_spelled(r);
        lemma_low_first_positive(d);
        assert(low_first(d) / 10 == low_first(r));
        assert(low_first(d) % 10 == d[0]);
    }
}

/// The decimal digits of `n`, the lowest first.
fn numeral_of(n: u64) -> (d: Vec<u8>)
    ensures
        is_numeral(d@),
        low_first(d@) == n,
    decreases n,
{
    let low: u8 = (n % 10) as u8;
    let mut d: Vec<u8> = Vec::new();
    d.push(low);
    if n >= 10 {
        let mut rest = numeral_of(n / 10);
        let ghost r = rest@;
        d.append(&mut rest);
        proof {
            assert(d@.skip(1) =~= r);
            assert(r.len() == 1 ==> r[0] > 0) by {
                if r.len() == 1 {
                    reveal_with_fuel(low_first, 2);
                    assert(r.skip(1) =~= Seq::empty());
                }
            }
        }
    } else {
        proof {
            reveal_with_fuel(low_first, 2);
            assert(d@.skip(1) =~= Seq::empty());
        }
    }
    d
}

proof fn lemma_low_first_push(d: Seq<u8>, x: u8)
    ensures
        low_first(d.push(x)) == low_first(d) + x * ten_to(d.len()),
    decreases d.len(),
{
    if d.len() == 0 {
        reveal_with_fuel(low_first, 2);
        assert(d.push(x).skip(1) =~= Seq::empty());
        let t = ten_to(0);
        assert(x * t == x) by (nonlinear_arith)
            requires
                t == 1,
        ;
    } else {
        lemma_low_first_push(d.skip(1), x);
        assert(d.push(x).skip(1) =~= d.skip(1).push(x));
        let t = ten_to((d.len() - 1) as nat);
        assert(10 * (x * t) == x * (10 * t)) by (nonlinear_arith);
    }
}

spec fn ten_to(n: nat) -> nat
    decreases n,
{
    if n == 0 {
        1
    } else {
        10 * ten_to((n - 1) as nat)
    }
}

/// Doubles a number in place.
fn double_numeral(d: &mut Vec<u8>)
    requires
        is_numeral(old(d)@),
    ensures
        is_numeral(final(d)@),
        low_first(final(d)@) == 2 * low_first(old(d)@),
{
    let n: usize = d.len();
    let mut i: usize = 0;
    let mut carry: u8 = 0;
    let ghost before = d@;
    assert(d@.take(0) =~= Seq::empty());
    assert(before.take(0) =~= Seq::empty());
    while i < n
        invariant
            i <= n == d@.len() == before.len(),
            carry <= 1,
            is_numeral(before),
            forall|j: int| 0 <= j < n ==> #[trigger] d@[j] < 10,
            forall|j: int| i <= j < n ==> #[trigger] d@[j] == before[j],
            low_first(d@.take(i as int)) + carry * ten_to(i as nat) == 2 * low_first(
                before.take(i as int),
            ),
            i == n ==> (carry == 1 || before.len() == 1 || d@.last() > 0),
        decreases n - i,
    {
        let v: u8 = 2 * d[i] + carry;
        let ghost old_take = d@.take(i as int);
        let ghost c = carry;
        let low: u8 = if v >= 10 {
            v - 10
        } else {
            v
        };
        carry = if v >= 10 {
            1
        } else {
            0
        };
        d.set(i, low);
        proof {
            assert(d@.take(i + 1) =~= old_take.push(low));
            assert(before.take(i + 1) =~= before.take(i as int).push(before[i as int]));
            lemma_low_first_push(old_take, low);
            lemma_low_first_push(before.take(i as int), before[i as int]);
            let t = ten_to(i as nat);
            let x = before[i as int] as int;
            assert(low * t + carry * (10 * t) == (2 * x + c) * t) by (nonlinear_arith)
                requires
                    low + 10 * carry == 2 * x + c,
            ;
            assert((2 * x + c) * t == 2 * (x * t) + c * t) by (nonlinear_arith);
        }
        i = i + 1;
    }
    proof {
        assert(d@.take(n as int) =~= d@);
        assert(before.take(n as int) =~= before);
        lemma_low_first_push(d@, carry);
    }
    if carry > 0 {
        d.push(carry);
    }
}

/// Appends the number that digits spell.
fn append_numeral(out: &mut String, d: &Vec<u8>)
    requires
        is_numeral(d@),
    ensures
        final(out)@ == old(out)@ + decimal(low_first(d@)),
{
    let n: usize = d.len();
    let mut i: usize = n;
    proof {
        lemma_spelled(d@);
        assert(d@.skip(n as int) =~= Seq::empty());
        assert(out@ =~= old(out)@ + spelled(d@.skip(n as int)));
    }
    while i > 0
        invariant
            i <= n == d@.len(),
            is_numeral(d@),
            out@ == old(out)@ + spelled(d@.skip(i as int)),
        decreases i,
    {
        i = i - 1;
        append_digits(out, d[i] as u64, 10);
        proof {
            assert(d@.skip(i as int).skip(1) =~= d@.skip(i + 1));
            assert(crate::text::digits(d@[i as int] as nat, 10) =~= seq![
                digit_char(d@[i as int] as nat),
            ]);
            assert(out@ =~= old(out)@ + spelled(d@.skip(i as int)));
        }
    }
    assert(d@.skip(0) =~= d@);
}

/// Appends `m` times two to the power of `e`.
fn append_scaled(out: &mut String, m: u64, e: u64)
    ensures
        final(out)@ == old(out)@ + decimal(m as nat * pow2(e as nat)),
{
    let mut d = numeral_of(m);
    let mut i: u64 = 0;
    proof {
        lemma2_to64();
    }
    while i < e
        invariant
            i <= e,
            is_numeral(d@),
            low_first(d@) == m as nat * pow2(i as nat),
        decreases e - i,
    {
        double_numeral(&mut d);
        proof {
            lemma_pow2_unfold((i + 1) as nat);
            let p = pow2(i as nat);
            assert(2 * (m as nat * p) == m as nat * (2 * p)) by (nonlinear_arith);
        }
        i = i + 1;
    }
    append_numeral(out, &d);
}

/// Appends digits without the zeros at their end.
fn append_trimmed(out: &mut String, digits: &str)
    ensures
        final(out)@ == old(out)@ + trim_zeros(digits@),
{
    let v = crate::text::chars_of(digits);
    let mut n: usize = v.len();
    assert(v@.take(n as int) =~= v@);
    while n > 0 && v[n - 1] == '0'
        invariant
            n <= v@.len(),
            v@ == digits@,
            trim_zeros(digits@) == trim_zeros(v@.take(n as int)),
        decreases n,
    {
        assert(v@.take(n as int).drop_last() =~= v@.take(n - 1));
        n = n - 1;
    }
    let mut i: usize = 0;
    while i < n
        invariant
            i <= n <= v@.len(),
            out@ == old(out)@ + v@.take(i as int),
        decreases n - i,
    {
        out.push(v[i]);
        i = i + 1;
        assert(v@.take(i as int) =~= v@.take(i - 1).push(v@[i - 1]));
    }
}

/// Appends a number of millionths.
fn append_millionths(out: &mut String, v: u128)
    requires
        v <= 0x20_0000_0000_0000 * 1_000_000,
    ensures
        final(out)@ == old(out)@ + millionths_text(v as nat),
{
    let whole: u64 = (v / 1_000_000) as u64;
    let part: u64 = (v % 1_000_000) as u64;
    append_digits(out, whole, 10);
    if part > 0 {
        out.push('.');
        let mut fraction = String::new();
        append_padded(&mut fraction, part, 6);
        assert(fraction@ =~= padded(part as nat, 6));
        append_trimmed(out, fraction.as_str());
    }
    assert(out@ =~= old(out)@ + millionths_text(v as nat));
}

proof fn lemma_power_80()
    ensures
        pow2(80) == 0x1_0000_0000_0000_0000_0000,
{
    lemma2_to64();
    lemma2_to64_rest();
    lemma_pow2_sum(64, 16);
}

/// Rounding a quotient up never passes the dividend.
proof fn lemma_round_div_bound(x: nat, y: nat)
    requires
        y > 0,
    ensures
        round_div(x, y) <= x,
{
    let q = x / y;
    let r = x % y;
    assert(q <= x && r <= x && q * y + r == x) by (nonlinear_arith)
        requires
            q == x / y,
            r == x % y,
            y > 0,
    ;
    if round_div(x, y) == q + 1 {
        assert(q + 1 <= x) by (nonlinear_arith)
            requires
                q * y + r == x,
                2 * r >= y,
                y >= 1,
                r >= 1,
        ;
    }
}

/// The millionths of a double that has them, given its mantissa and exponent field.
fn small_millionths(m: u64, field: u64) -> (v: u128)
    requires
        m < 0x20_0000_0000_0000,
        field < 1075,
    ensures
        v == round_div(
            m as nat * 1_000_000,
            pow2(if field == 0 {
                1074
            } else {
                (1075 - field) as nat
            }),
        ),
        v <= 0x20_0000_0000_0000 * 1_000_000,
{
    let shift: u64 = if field == 0 {
        1074
    } else {
        1075 - field
    };
    proof {
        assert(m * 1_000_000 < 0x20_0000_0000_0000 * 1_000_000);
    }
    let scaled: u128 = m as u128 * 1_000_000;
    let v: u128 = if shift >= 80 {
        proof {
            lemma_pow2_monotone(80, shift as nat);
            lemma_power_80();
            let d = pow2(shift as nat);
            let s = scaled as nat;
            assert(s / d == 0 && s % d == s) by (nonlinear_arith)
                requires
                    0 <= s < d,
            ;
        }
        0
    } else {
        let d: u128 = if shift < 64 {
            power_of_two(shift) as u128
        } else {
            proof {
                lemma_pow2_sum(63, (shift - 63) as nat);
                lemma2_to64_rest();
                lemma2_to64();
                lemma_pow2_monotone((shift - 63) as nat, 17);
            }
            0x8000_0000_0000_0000u128 * power_of_two(shift - 63) as u128
        };
        proof {
            lemma_pow2_pos(shift as nat);
            lemma_pow2_monotone(shift as nat, 80);
            lemma_power_80();
            lemma_round_div_bound(scaled as nat, d as nat);
        }
        rounded(scaled, d)
    };
    v
}

/// A double in decimal, to at most six places and without zeros at the end.
pub fn format_scalar_value(b: u64) -> (r: String)
    ensures
        r@ == scalar_text(b),
{
    let mut out = String::new();
    let negative = b >= SIGN;
    let mag: u64 = if negative {
        b - SIGN
    } else {
        b
    };
    if mag > INFINITY {
        append_text(&mut out, "NaN");
        assert(out@ =~= scalar_text(b));
        return out;
    }
    if negative {
        out.push('-');
    }
    if mag == INFINITY {
        append_text(&mut out, "inf");
        assert(out@ =~= scalar_text(b));
        return out;
    }
    let field: u64 = mag / HIDDEN;
    let m: u64 = if mag < HIDDEN {
        mag
    } else {
        HIDDEN + mag % HIDDEN
    };
    if field >= 1075 {
        let e: u64 = field - 1075;
        append_scaled(&mut out, m, e);
        proof {
            let n = m as nat * pow2(e as nat);
            assert((n * 1_000_000) / 1_000_000 == n);
            assert((n * 1_000_000) % 1_000_000 == 0);
            assert(out@ =~= scalar_text(b));
        }
        return out;
    }
    let v: u128 = small_millionths(m, field);
    append_millionths(&mut out, v);
    assert(out@ =~= scalar_text(b));
    out
}

/// The value of the double nearest to `n`.
pub open spec fn double_value(n: nat) -> nat {
    let e = top_bit(n);
    if n == 0 || e <= 52 {
        n
    } else {
        round_shift(n, (e - 52) as nat) * pow2((e - 52) as nat)
    }
}

/// The double nearest to `a / unit`, as a number of parts of which `quotient_parts`
/// make one.
pub open spec fn quotient(a: nat, unit: nat) -> nat {
    round_div(a * quotient_parts(a, unit), unit)
}

/// Into how many parts the unit is divided by the last bit of that double.
pub open spec fn quotient_parts(a: nat, unit: nat) -> nat {
    pow2((52 - top_bit(a / unit)) as nat)
}

/// `n / unit` as a double, in decimal with one or two places.
pub open spec fn quotient_text(n: nat, unit: nat, places: nat) -> Seq<char> {
    let a = double_value(n);
    let scale: nat = if places == 1 {
        10
    } else {
        100
    };
    let t = round_div(quotient(a, unit) * scale, quotient_parts(a, unit));
    decimal(t / scale).push('.') + padded(t % scale, places)
}

fn nearest_double(n: u64) -> (r: u128)
    ensures
        r == double_value(n as nat),
        n < 0x20_0000_0000_0000 ==> r == n,
        r <= n + 2048,
        n >= 0x20_0000_0000_0000 ==> r >= 0x20_0000_0000_0000,
{
    if n == 0 {
        return 0;
    }
    let (e, p) = highest_bit(n);
    proof {
        lemma2_to64_rest();
        if n < 0x20_0000_0000_0000 && e >= 53 {
            lemma_pow2_monotone(53, e as nat);
        }
    }
    if e <= 52 {
        proof {
            lemma_pow2_monotone(e as nat, 52);
        }
        return n as u128;
    }
    let d: u64 = power_of_two(e - 52);
    proof {
        lemma_pow2_sum(52, (e - 52) as nat);
        lemma_pow2_pos((e - 52) as nat);
        lemma_pow2_monotone((e - 52) as nat, 11);
        lemma2_to64();
        assert(p == HIDDEN * d);
    }
    let q: u64 = n / d;
    let r: u64 = n % d;
    proof {
        assert(HIDDEN <= q < 2 * HIDDEN && r < d && n == q * d + r) by (nonlinear_arith)
            requires
                d > 0,
                q == n / d,
                r == n % d,
                HIDDEN * d <= n < 2 * (HIDDEN * d),
        ;
    }
    let m: u64 = if r > d - r || (r == d - r && q % 2 == 1) {
        q + 1
    } else {
        q
    };
    proof {
        assert(m * d <= 0x20_0000_0000_0000 * 2048 && m * d >= q * d && q * d >= HIDDEN * d)
            by (nonlinear_arith)
            requires
                0 <= m <= 0x20_0000_0000_0000,
                0 < d <= 2048,
                q <= m,
                HIDDEN <= q,
        ;
        lemma_pow2_monotone(1, (e - 52) as nat);
        assert(HIDDEN * d >= 2 * HIDDEN) by (nonlinear_arith)
            requires
                d >= 2,
        ;
        assert((q + 1) * d == q * d + d) by (nonlinear_arith);
    }
    m as u128 * d as u128
}

/// Appends `n / unit` in decimal with one or two places.
fn append_quotient(out: &mut String, n: u64, unit: u64, places: usize)
    requires
        0 < unit <= 0x4000_0000,
        unit <= n,
        n as int / unit as int <= 0x8_0000_0000,
        places == 1 || places == 2,
    ensures
        final(out)@ == old(out)@ + quotient_text(n as nat, unit as nat, places as nat),
{
    let a: u128 = nearest_double(n);
    let scale: u128 = if places == 1 {
        10
    } else {
        100
    };
    proof {
        lemma_quotient_range(n, a as nat, unit);
    }
    let whole: u64 = (a / unit as u128) as u64;
    let (e, p) = highest_bit(whole);
    proof {
        lemma2_to64();
        lemma2_to64_rest();
        if e > 36 {
            lemma_pow2_monotone(37, e as nat);
        }
    }
    let parts: u64 = power_of_two(52 - e);
    proof {
        lemma_pow2_sum(e as nat, (52 - e) as nat);
        lemma_pow2_pos((52 - e) as nat);
        let u = unit as nat;
        let w = whole as nat;
        assert(a < (w + 1) * u) by (nonlinear_arith)
            requires
                w == (a as nat) / u,
                u > 0,
        ;
        assert((w + 1) * u <= 2 * p * u) by (nonlinear_arith)
            requires
                w + 1 <= 2 * p,
                u > 0,
        ;
        assert(a * parts <= (2 * p * u) * parts) by (nonlinear_arith)
            requires
                a <= 2 * p * u,
                parts >= 0,
        ;
        assert((2 * p * u) * parts == 2 * u * (p * parts)) by (nonlinear_arith);
        assert(2 * u * 0x10_0000_0000_0000 <= 2 * 0x4000_0000 * 0x10_0000_0000_0000)
            by (nonlinear_arith)
            requires
                u <= 0x4000_0000,
        ;
    }
    let scaled: u128 = a * parts as u128;
    let m: u128 = rounded(scaled, unit as u128);
    proof {
        let u = unit as nat;
        let k = parts as nat;
        assert(scaled <= 2 * u * 0x10_0000_0000_0000);
        lemma_round_div_quotient(scaled as nat, u, 2 * 0x10_0000_0000_0000);
    }
    let t: u128 = rounded(m * scale, parts as u128);
    proof {
        lemma_round_div_bound((m * scale) as nat, parts as nat);
    }
    append_digits(out, (t / scale) as u64, 10);
    out.push('.');
    append_padded(out, (t % scale) as u64, places);
    assert(out@ =~= old(out)@ + quotient_text(n as nat, unit as nat, places as nat));
}

/// A dividend of at most `k` units has a rounded quotient of at most `k`.
proof fn lemma_round_div_quotient(x: nat, y: nat, k: nat)
    requires
        y > 0,
        x <= y * k,
    ensures
        round_div(x, y) <= k,
{
    let q = x / y;
    let r = x % y;
    assert(q * y + r == x && r < y) by (nonlinear_arith)
        requires
            q == x / y,
            r == x % y,
            y > 0,
    ;
    assert(q <= k && (r > 0 ==> q < k)) by (nonlinear_arith)
        requires
            q * y + r == x,
            x <= y * k,
            y > 0,
            r >= 0,
    ;
}

proof fn lemma_quotient_range(n: u64, a: nat, unit: u64)
    requires
        0 < unit <= 0x4000_0000,
        unit <= n,
        n as int / unit as int <= 0x8_0000_0000,
        n < 0x20_0000_0000_0000 ==> a == n,
        a <= n + 2048,
        n >= 0x20_0000_0000_0000 ==> a >= 0x20_0000_0000_0000,
    ensures
        1 <= a / (unit as nat) <= 0x10_0000_0000,
{
    let u = unit as int;
    let q = n as int / u;
    assert(a as int / u >= 1) by (nonlinear_arith)
        requires
            a >= u,
            u > 0,
    ;
    assert(a as int / u <= q + 2049) by (nonlinear_arith)
        requires
            a <= n + 2048,
            q == n as int / u,
            u > 0,
    ;
}

/// A count with a suffix for thousands, millions or milliards.
pub open spec fn count_text(n: nat) -> Seq<char> {
    if n < 1_000 {
        decimal(n)
    } else if n < 1_000_000 {
        quotient_text(n, 1_000, 1).push('k')
    } else if n < 1_000_000_000 {
        quotient_text(n, 1_000_000, 1).push('M')
    } else {
        quotient_text(n, 1_000_000_000, 1).push('G')
    }
}

/// Renders a count compactly.
pub fn fmt_count(n: u64) -> (r: String)
    ensures
        r@ == count_text(n as nat),
{
    let mut out = String::new();
    if n < 1_000 {
        append_digits(&mut out, n, 10);
    } else if n < 1_000_000 {
        append_quotient(&mut out, n, 1_000, 1);
        out.push('k');
    } else if n < 1_000_000_000 {
        append_quotient(&mut out, n, 1_000_000, 1);
        out.push('M');
    } else {
        append_quotient(&mut out, n, 1_000_000_000, 1);
        out.push('G');
    }
    assert(out@ =~= count_text(n as nat));
    out
}

/// A size in bytes with a binary unit.
pub open spec fn size_text(n: nat) -> Seq<char> {
    if n < 0x400 {
        decimal(n) + " B"@
    } else if n < 0x10_0000 {
        quotient_text(n, 0x400, 1) + " KiB"@
    } else if n < 0x4000_0000 {
        quotient_text(n, 0x10_0000, 1) + " MiB"@
    } else {
        quotient_text(n, 0x4000_0000, 2) + " GiB"@
    }
}

/// Renders a size in bytes.
pub fn fmt_bytes(n: u64) -> (r: String)
    ensures
        r@ == size_text(n as nat),
{
    let mut out = String::new();
    if n < 0x400 {
        append_digits(&mut out, n, 10);
        append_text(&mut out, " B");
    } else if n < 0x10_0000 {
        append_quotient(&mut out, n, 0x400, 1);
        append_text(&mut out, " KiB");
    } else if n < 0x4000_0000 {
        append_quotient(&mut out, n, 0x10_0000, 1);
        append_text(&mut out, " MiB");
    } else {
        append_quotient(&mut out, n, 0x4000_0000, 2);
        append_text(&mut out, " GiB");
    }
    assert(out@ =~= size_text(n as nat));
    out
}

/// The line that describes a capture of a given age in seconds.
pub open spec fn capture_text(s: CaptureStats, age_secs: nat) -> Seq<char> {
    count_text(s.packets as nat) + " packets \u{b7} "@ + size_text(s.bytes as nat)
        + " \u{b7} "@ + padded(age_secs / 60, 2) + ":"@ + padded(age_secs % 60, 2) + (
    if s.packets_dropped > 0 {
        " \u{b7} "@ + count_text(s.packets_dropped as nat) + " dropped (ring full)"@
    } else {
        Seq::empty()
    })
}

/// Describes a capture: its packets, its size, its age and what it dropped.
pub fn fmt_capture_stats(s: &CaptureStats, age_secs: u64) -> (r: String)
    ensures
        r@ == capture_text(*s, age_secs as nat),
{
    let mut out = fmt_count(s.packets);
    append_text(&mut out, " packets \u{b7} ");
    append_text(&mut out, fmt_bytes(s.bytes).as_str());
    append_text(&mut out, " \u{b7} ");
    append_padded(&mut out, age_secs / 60, 2);
    append_text(&mut out, ":");
    append_padded(&mut out, age_secs % 60, 2);
    if s.packets_dropped > 0 {
        append_text(&mut out, " \u{b7} ");
        append_text(&mut out, fmt_count(s.packets_dropped).as_str());
        append_text(&mut out, " dropped (ring full)");
    }
    assert(out@ =~= capture_text(*s, age_secs as nat));
    out
}

/// A double in decimal, to exactly six places.
pub open spec fn fixed_text(b: u64) -> Seq<char> {
    if is_nan(b) {
        "NaN"@
    } else {
        let v = millionths(b);
        let size = if magnitude(b) == INFINITY {
            "inf"@
        } else {
            decimal(v / 1_000_000).push('.') + padded(v % 1_000_000, 6)
        };
        if b >= SIGN {
            seq!['-'] + size
        } else {
            size
        }
    }
}

/// A double in decimal, to exactly six places.
pub fn format_fixed(b: u64) -> (r: String)
    ensures
        r@ == fixed_text(b),
{
    let mut out = String::new();
    let negative = b >= SIGN;
    let mag: u64 = if negative {
        b - SIGN
    } else {
        b
    };
    if mag > INFINITY {
        append_text(&mut out, "NaN");
        assert(out@ =~= fixed_text(b));
        return out;
    }
    if negative {
        out.push('-');
    }
    if mag == INFINITY {
        append_text(&mut out, "inf");
        assert(out@ =~= fixed_text(b));
        return out;
    }
    let field: u64 = mag / HIDDEN;
    let m: u64 = if mag < HIDDEN {
        mag
    } else {
        HIDDEN + mag % HIDDEN
    };
    if field >= 1075 {
        let e: u64 = field - 1075;
        append_scaled(&mut out, m, e);
        out.push('.');
        append_padded(&mut out, 0, 6);
        proof {
            let n = m as nat * pow2(e as nat);
            assert((n * 1_000_000) / 1_000_000 == n);
            assert((n * 1_000_000) % 1_000_000 == 0);
            assert(out@ =~= fixed_text(b));
        }
        return out;
    }
    let v: u128 = small_millionths(m, field);
    append_digits(&mut out, (v / 1_000_000) as u64, 10);
    out.push('.');
    append_padded(&mut out, (v % 1_000_000) as u64, 6);
    assert(out@ =~= fixed_text(b));
    out
}

} // verus!
