//! What texts of numbers, dates and addresses say.

use vstd::arithmetic::power2::{lemma_pow2_pos, pow2};
use vstd::prelude::*;
use vstd::utf8::{encode_utf8, encode_utf8_decode_utf8, encode_utf8_valid_utf8};

verus! {

use crate::capture::CaptureStats;
use crate::clock::{
    days_to_month, days_to_year, is_capture_name, padded, stamp, year_len, zeros, UtcTime,
};
use crate::connection::{
    connection_of, lemma_decimal_digits, port_of, split_scheme, starts_with, ConnectionView,
    Protocol,
};
use crate::grouping::{find_back, occurs_at};
use crate::ingest::ReplayCounts;
use crate::logpanel::counts;
use crate::num::{
    double_of_int, double_of_nat, double_of_single, is_nan, law_small_integers_are_exact,
    lemma_double_of_nat_monotone, lemma_pow2_monotone, lemma_pow2_sum, lemma_top_bit, magnitude,
    top_bit, HIDDEN, INFINITY, SIGN,
};
use crate::num_laws::law_whole_doubles_cut_back;
use crate::numtext::{
    capture_text, count_text, double_value, exponent, fixed_text, mantissa, millionths,
    millionths_text, quotient, quotient_parts, quotient_text, round_div, scalar_text, size_text,
    trim_zeros,
};
use crate::text::{after_blanks, all_blank, before_blanks, decimal, digits, is_blank, trimmed};
use crate::workspace::opened;

/// The value of a digit of a base up to 16.
pub open spec fn digit_value(c: char) -> nat {
    if '0' <= c && c <= '9' {
        (c as int - 48) as nat
    } else {
        (c as int - 55) as nat
    }
}

/// The number that digits spell in a base.
pub open spec fn spelled(s: Seq<char>, base: nat) -> nat
    decreases s.len(),
{
    if s.len() == 0 {
        0
    } else {
        spelled(s.drop_last(), base) * base + digit_value(s.last())
    }
}

/// The digits of a number spell it, in every base from 2 to 16, and do not begin with a
/// zero unless it is zero.
pub proof fn law_digits_spell_the_number(n: nat, base: nat)
    requires
        2 <= base <= 16,
    ensures
        spelled(digits(n, base), base) == n,
        digits(n, base).len() > 0,
        n > 0 ==> digits(n, base)[0] != '0',
        forall|i: int|
            0 <= i < digits(n, base).len() ==> digit_value(
                #[trigger] digits(n, base)[i],
            ) < base && (('0' <= digits(n, base)[i] && digits(n, base)[i]
                <= '9') || ('A' <= digits(n, base)[i] && digits(
                n,
                base,
            )[i] <= 'F')),
    decreases n,
{
    let d = digits(n, base);
    reveal_with_fuel(spelled, 2);
    if n < base {
        assert(d.drop_last() =~= Seq::empty());
    } else {
        vstd::arithmetic::div_mod::lemma_fundamental_div_mod(n as int, base as int);
        assert(n / base < n && n / base >= 1) by (nonlinear_arith)
            requires
                n >= base >= 2,
        ;
        law_digits_spell_the_number(n / base, base);
        assert(d.drop_last() =~= digits(n / base, base));
        assert((n / base) * base == base * (n / base)) by (nonlinear_arith);
    }
}

proof fn lemma_spelled_add(a: Seq<char>, b: Seq<char>)
    ensures
        spelled(a + b, 10) == spelled(a, 10) * tens(b.len()) + spelled(b, 10),
    decreases b.len(),
{
    reveal_with_fuel(tens, 2);
    if b.len() == 0 {
        assert(a + b =~= a);
        assert(tens(b.len()) == 1);
        assert(spelled(a, 10) * 1 == spelled(a, 10));
    } else {
        lemma_spelled_add(a, b.drop_last());
        assert((a + b).last() == b.last());
        assert(tens(b.len()) == 10 * tens((b.len() - 1) as nat));
        assert((a + b).drop_last() =~= a + b.drop_last());
        let (x, y, p) = (spelled(a, 10), spelled(b.drop_last(), 10), tens((b.len() - 1) as nat));
        assert((x * p + y) * 10 == x * (10 * p) + y * 10) by (nonlinear_arith);
    }
}

/// The power of ten.
pub open spec fn tens(n: nat) -> nat
    decreases n,
{
    if n == 0 {
        1
    } else {
        10 * tens((n - 1) as nat)
    }
}

proof fn lemma_zeros_spell(n: nat)
    ensures
        spelled(zeros(n), 10) == 0,
    decreases n,
{
    if n > 0 {
        lemma_zeros_spell((n - 1) as nat);
        assert(zeros(n).drop_last() =~= zeros((n - 1) as nat));
    }
}

/// A number with leading zeros is that number, and has the digits that were asked for or
/// more.
pub proof fn law_padding_keeps_the_number(n: nat, width: nat)
    ensures
        spelled(padded(n, width), 10) == n,
        padded(n, width).len() >= width,
        padded(n, width).len() > width ==> padded(n, width) == decimal(n),
{
    law_digits_spell_the_number(n, 10);
    let d = decimal(n);
    if d.len() < width {
        let z = zeros((width - d.len()) as nat);
        lemma_zeros_spell((width - d.len()) as nat);
        lemma_spelled_add(z, d);
    }
}

/// Fewer digits are needed below a power of ten.
proof fn lemma_digits_fit(n: nat, width: nat)
    requires
        n < tens(width),
        width > 0,
    ensures
        decimal(n).len() <= width,
    decreases width,
{
    reveal_with_fuel(tens, 2);
    if n >= 10 {
        lemma_digits_fit(n / 10, (width - 1) as nat);
    }
}

proof fn lemma_trimmed(s: Seq<char>)
    ensures
        ({
            let t = trim_zeros(s);
            &&& t.len() <= s.len()
            &&& spelled(s, 10) == spelled(t, 10) * tens((s.len() - t.len()) as nat)
            &&& t.len() > 0 ==> t.last() != '0'
        }),
    decreases s.len(),
{
    reveal_with_fuel(tens, 2);
    if s.len() > 0 && s.last() == '0' {
        let r = s.drop_last();
        lemma_trimmed(r);
        let t = trim_zeros(r);
        let (x, p) = (spelled(t, 10), tens((r.len() - t.len()) as nat));
        assert(x * p * 10 == x * (10 * p)) by (nonlinear_arith);
    } else {
        assert(spelled(s, 10) * 1 == spelled(s, 10));
    }
}

/// A number of millionths is written as its whole part and, where there is one, a point
/// and the fraction, of at most six digits and without zeros at its end.
pub proof fn law_millionths_read_back(v: nat) -> (parts: (Seq<char>, Seq<char>))
    ensures
        spelled(parts.0, 10) * 1_000_000 + spelled(parts.1, 10) * tens(
            (6 - parts.1.len()) as nat,
        ) == v,
        parts.1.len() <= 6,
        parts.1.len() == 0 ==> millionths_text(v) == parts.0,
        parts.1.len() > 0 ==> parts.1.last() != '0' && millionths_text(v) == parts.0 + seq!['.']
            + parts.1,
{
    let whole = decimal(v / 1_000_000);
    law_digits_spell_the_number(v / 1_000_000, 10);
    if v % 1_000_000 == 0 {
        reveal_with_fuel(spelled, 1);
        assert(spelled(Seq::empty(), 10) == 0);
        assert(0 * tens(6) == 0);
        (whole, Seq::empty())
    } else {
        let rest = v % 1_000_000;
        let s = padded(rest, 6);
        law_padding_keeps_the_number(rest, 6);
        reveal_with_fuel(tens, 8);
        lemma_digits_fit(rest, 6);
        assert(s.len() == 6);
        lemma_trimmed(s);
        let t = trim_zeros(s);
        assert(t.len() > 0) by {
            if t.len() == 0 {
                assert(spelled(t, 10) == 0);
                assert(0 * tens(6) == 0);
            }
        }
        assert(millionths_text(v) =~= whole + seq!['.'] + t);
        (whole, t)
    }
}

/// A quotient is rounded to a nearest integer.
pub proof fn law_rounding_is_to_the_nearest(x: nat, y: nat)
    requires
        y > 0,
    ensures
        2 * (round_div(x, y) * y - x) <= y,
        2 * (x - round_div(x, y) * y) <= y,
{
    vstd::arithmetic::div_mod::lemma_fundamental_div_mod(x as int, y as int);
    let q = x / y;
    assert((q + 1) * y == q * y + y && y * q == q * y) by (nonlinear_arith);
}

proof fn lemma_whole_millionths(n: nat)
    requires
        0 < n < 0x20_0000_0000_0000,
    ensures
        double_of_nat(n) < INFINITY,
        millionths(double_of_nat(n) as u64) == n * 1_000_000,
{
    law_small_integers_are_exact(n);
    lemma_double_of_nat_monotone(n, n);
    law_whole_doubles_cut_back(n as int);
    let b = double_of_nat(n) as u64;
    let e = b as int / HIDDEN as int - 1023;
    let m = mantissa(b);
    assert(exponent(b) == e - 52);
    if e <= 52 {
        if e == 52 {
            vstd::arithmetic::power2::lemma2_to64();
            assert(m * pow2(0) * 1_000_000 == n * 1_000_000) by (nonlinear_arith)
                requires
                    m == n * pow2(0),
                    pow2(0) == 1,
            ;
        } else {
            let d = pow2((52 - e) as nat);
            lemma_pow2_pos((52 - e) as nat);
            let x = m * 1_000_000;
            assert(x == (n * 1_000_000) * d) by (nonlinear_arith)
                requires
                    x == m * 1_000_000,
                    m == n * d,
            ;
            vstd::arithmetic::div_mod::lemma_div_multiples_vanish((n * 1_000_000) as int, d as int);
            vstd::arithmetic::div_mod::lemma_mod_multiples_basic((n * 1_000_000) as int, d as int);
            assert(round_div(x, d) == n * 1_000_000);
        }
    }
}

/// A whole number, below 2^53, is shown as its digits, with a minus before them where it
/// is negative.
pub proof fn law_whole_numbers_show_as_digits(n: int)
    requires
        -0x20_0000_0000_0000 < n < 0x20_0000_0000_0000,
    ensures
        n >= 0 ==> scalar_text(double_of_int(n) as u64) == decimal(n as nat),
        n < 0 ==> scalar_text(double_of_int(n) as u64) == seq!['-'] + decimal((-n) as nat),
{
    let m = (if n < 0 {
        -n
    } else {
        n
    }) as nat;
    law_whole_doubles_cut_back(n);
    if m > 0 {
        lemma_whole_millionths(m);
        assert((m * 1_000_000) / 1_000_000 == m && (m * 1_000_000) % 1_000_000 == 0);
    } else {
        vstd::arithmetic::power2::lemma_pow2_pos(1074);
        let d = pow2(1074);
        assert(millionths(0) == round_div(0, d));
        assert(0nat / d == 0 && 0nat % d == 0) by (nonlinear_arith)
            requires
                d > 0,
        ;
    }
}

/// A text of six places spells the millionths of its number.
pub proof fn law_fixed_text_has_six_places(b: u64) -> (parts: (Seq<char>, Seq<char>))
    requires
        magnitude(b) < INFINITY,
    ensures
        parts.1.len() == 6,
        spelled(parts.0, 10) * 1_000_000 + spelled(parts.1, 10) == millionths(b),
        fixed_text(b) == (if b >= SIGN {
            seq!['-']
        } else {
            Seq::empty()
        }) + parts.0 + seq!['.'] + parts.1,
{
    let v = millionths(b);
    let whole = decimal(v / 1_000_000);
    let rest = padded(v % 1_000_000, 6);
    law_digits_spell_the_number(v / 1_000_000, 10);
    law_padding_keeps_the_number(v % 1_000_000, 6);
    reveal_with_fuel(tens, 8);
    lemma_digits_fit(v % 1_000_000, 6);
    assert(fixed_text(b) =~= (if b >= SIGN {
        seq!['-']
    } else {
        Seq::empty()
    }) + whole + seq!['.'] + rest);
    (whole, rest)
}

/// The days before a year of the Gregorian calendar: 365 for each year since 1970, and
/// one for each leap year, which is every fourth, but not every hundredth, but every
/// four hundredth.
pub proof fn law_days_before_a_year(y: int)
    requires
        y >= 1970,
    ensures
        days_to_year(y) == 365 * (y - 1970) + (y - 1) / 4 - (y - 1) / 100 + (y - 1) / 400 - 477,
    decreases y,
{
    if y > 1970 {
        law_days_before_a_year(y - 1);
    }
}

/// The days before a month, by the rule that spreads 367 days over the months and takes
/// one or two from February; the twelve months fill the year.
pub proof fn law_days_before_a_month(y: int, m: int)
    requires
        1 <= m <= 13,
    ensures
        m <= 12 ==> days_to_month(y, m) == (367 * m - 362) / 12 - (if m <= 2 {
            0int
        } else if (y % 4 == 0 && y % 100 != 0) || y % 400 == 0 {
            1
        } else {
            2
        }),
        m == 13 ==> days_to_month(y, m) == year_len(y),
{
    reveal_with_fuel(days_to_month, 14);
}

/// A stamp has the year, the month and the day in eight digits, and behind a dash the
/// hour, the minute and the second in six.
pub proof fn law_stamp_spells_the_moment(t: UtcTime)
    requires
        t.valid(),
        t.year < 10_000,
    ensures
        stamp(t).len() == 15,
        stamp(t)[8] == '-',
        spelled(stamp(t).take(4), 10) == t.year,
        spelled(stamp(t).subrange(4, 6), 10) == t.month,
        spelled(stamp(t).subrange(6, 8), 10) == t.day,
        spelled(stamp(t).subrange(9, 11), 10) == t.hour,
        spelled(stamp(t).subrange(11, 13), 10) == t.minute,
        spelled(stamp(t).subrange(13, 15), 10) == t.second,
{
    reveal_with_fuel(tens, 6);
    let (a, b, c) = (padded(t.year as nat, 4), padded(t.month as nat, 2), padded(t.day as nat, 2));
    let (d, e, f) = (
        padded(t.hour as nat, 2),
        padded(t.minute as nat, 2),
        padded(t.second as nat, 2),
    );
    law_padding_keeps_the_number(t.year as nat, 4);
    law_padding_keeps_the_number(t.month as nat, 2);
    law_padding_keeps_the_number(t.day as nat, 2);
    law_padding_keeps_the_number(t.hour as nat, 2);
    law_padding_keeps_the_number(t.minute as nat, 2);
    law_padding_keeps_the_number(t.second as nat, 2);
    lemma_digits_fit(t.year as nat, 4);
    lemma_digits_fit(t.month as nat, 2);
    lemma_digits_fit(t.day as nat, 2);
    lemma_digits_fit(t.hour as nat, 2);
    lemma_digits_fit(t.minute as nat, 2);
    lemma_digits_fit(t.second as nat, 2);
    let s = stamp(t);
    assert(s.take(4) =~= a);
    assert(s.subrange(4, 6) =~= b);
    assert(s.subrange(6, 8) =~= c);
    assert(s.subrange(9, 11) =~= d);
    assert(s.subrange(11, 13) =~= e);
    assert(s.subrange(13, 15) =~= f);
}

proof fn lemma_no_scheme(host: Seq<char>)
    requires
        !host.contains(':'),
    ensures
        split_scheme(host) == (Protocol::Tcp, host),
{
    reveal_strlit("tcp://");
    reveal_strlit("udp://");
    reveal_strlit("serial://");
    if starts_with(host, Protocol::Tcp.scheme()) {
        assert(host.take(6)[3] == ':');
        assert(host[3] == ':');
    }
    if starts_with(host, Protocol::Udp.scheme()) {
        assert(host.take(6)[3] == ':');
        assert(host[3] == ':');
    }
    if starts_with(host, Protocol::Serial.scheme()) {
        assert(host.take(9)[6] == ':');
        assert(host[6] == ':');
    }
}

proof fn lemma_no_colon(s: Seq<char>, n: int)
    requires
        0 <= n <= s.len(),
        !s.contains(':'),
    ensures
        find_back(s, ':', n) < 0,
    decreases n,
{
    if n > 0 {
        assert(s[n - 1] != ':');
        lemma_no_colon(s, n - 1);
    }
}

/// A host by itself is reached by TCP at port 4040; nothing at all is the own machine.
pub proof fn law_bare_host_has_the_usual_port(host: Seq<char>)
    requires
        !host.contains(':'),
    ensures
        host.len() > 0 ==> connection_of(host) == Ok::<ConnectionView, Seq<char>>(
            (ConnectionView { host, port: 4040, protocol: Protocol::Tcp }),
        ),
        host.len() == 0 ==> connection_of(host) == Ok::<ConnectionView, Seq<char>>(
            (ConnectionView { host: "127.0.0.1"@, port: 4040, protocol: Protocol::Tcp }),
        ),
{
    lemma_no_scheme(host);
    lemma_no_colon(host, host.len() as int);
}

/// The text field that holds a text is read as that text: up to its first NUL, or to its
/// end where it has none.
pub proof fn law_text_field_reads_back(
    field: crate::schema::FieldView,
    head: Seq<u8>,
    text: Seq<char>,
    rest: Seq<u8>,
    tail: Seq<u8>,
)
    requires
        field.ty == crate::schema::FieldType::String,
        field.offset == head.len(),
        field.size == encode_utf8(text).len() + rest.len(),
        forall|i: int| 0 <= i < encode_utf8(text).len() ==> #[trigger] encode_utf8(text)[i] != 0,
        rest.len() > 0 ==> rest[0] == 0,
    ensures
        crate::value::text_of(field, head + encode_utf8(text) + rest + tail) == Some(text),
{
    let bytes = encode_utf8(text);
    let payload = head + bytes + rest + tail;
    let raw = payload.subrange(field.offset as int, field.offset + field.size);
    assert(raw =~= bytes + rest);
    lemma_nul_place(raw, 0, bytes.len() as int);
    assert(crate::schema::until_nul(raw) =~= bytes);
    encode_utf8_valid_utf8(text);
    encode_utf8_decode_utf8(text);
}

proof fn lemma_nul_place(s: Seq<u8>, i: int, k: int)
    requires
        0 <= i <= k <= s.len(),
        forall|j: int| i <= j < k ==> #[trigger] s[j] != 0,
        k == s.len() || s[k] == 0,
    ensures
        crate::schema::nul_from(s, i) == k,
    decreases k - i,
{
    if i < k {
        lemma_nul_place(s, i + 1, k);
    }
}

/// Trimming takes away the white space around a text, and nothing of what is between.
pub proof fn law_trimming_takes_the_blanks_around(a: Seq<char>, s: Seq<char>, b: Seq<char>)
    requires
        all_blank(a),
        all_blank(b),
        s.len() > 0 ==> !is_blank(s[0]) && !is_blank(s.last()),
    ensures
        trimmed(a + s + b) == s,
    decreases a.len(),
{
    let t = a + s + b;
    if a.len() > 0 {
        assert(is_blank(a[0]));
        let r = a.skip(1);
        assert forall|i: int| 0 <= i < r.len() implies is_blank(#[trigger] r[i]) by {
            assert(a[i + 1] == r[i]);
        }
        law_trimming_takes_the_blanks_around(r, s, b);
        assert(t.skip(1) =~= r + s + b);
    } else {
        assert(t =~= s + b);
        if s.len() > 0 {
            lemma_blanks_behind(s, b);
        } else {
            assert(t =~= b);
            lemma_all_blank_before(b);
            assert(trimmed(t) =~= s);
        }
    }
}

proof fn lemma_blanks_behind(s: Seq<char>, b: Seq<char>)
    requires
        s.len() > 0,
        all_blank(b),
        !is_blank(s.last()),
    ensures
        before_blanks(s + b) == s,
    decreases b.len(),
{
    let t = s + b;
    if b.len() > 0 {
        let r = b.drop_last();
        assert(is_blank(b[b.len() - 1]));
        assert forall|i: int| 0 <= i < r.len() implies is_blank(#[trigger] r[i]) by {
            assert(b[i] == r[i]);
        }
        lemma_blanks_behind(s, r);
        assert(t.drop_last() =~= s + r);
    } else {
        assert(t =~= s);
    }
}

proof fn lemma_all_blank_before(b: Seq<char>)
    requires
        all_blank(b),
    ensures
        after_blanks(b).len() == 0,
    decreases b.len(),
{
    if b.len() > 0 {
        assert(is_blank(b[0]));
        let r = b.skip(1);
        assert forall|i: int| 0 <= i < r.len() implies is_blank(#[trigger] r[i]) by {
            assert(b[i + 1] == r[i]);
        }
        lemma_all_blank_before(r);
    }
}

proof fn lemma_small_top_bit(n: nat, k: nat)
    requires
        n < pow2(k),
        k > 0,
    ensures
        top_bit(n) < k,
    decreases k,
{
    if n > 1 {
        crate::num::lemma_top_bit(n);
        if top_bit(n) >= k {
            crate::num::lemma_pow2_monotone(k, top_bit(n));
        }
    }
}

/// What a quotient is written as lies within one unit of its last place.
proof fn lemma_quotient_near(n: nat, unit: nat, places: nat) -> (t: nat)
    requires
        n < 0x20_0000_0000_0000,
        unit >= 1000,
        places == 1 || places == 2,
    ensures
        ({
            let scale: nat = if places == 1 {
                10
            } else {
                100
            };
            &&& quotient_text(n, unit, places) == decimal(t / scale) + seq!['.'] + padded(
                t % scale,
                places,
            )
            &&& t * unit <= n * scale + unit
            &&& n * scale <= t * unit + unit
        }),
{
    let scale: nat = if places == 1 {
        10
    } else {
        100
    };
    vstd::arithmetic::power2::lemma2_to64();
    vstd::arithmetic::power2::lemma2_to64_rest();
    lemma_small_top_bit(n, 53);
    assert(double_value(n) == n);
    assert(n / unit <= n / 1000) by (nonlinear_arith)
        requires
            unit >= 1000,
            n >= 0,
    ;
    assert(n / unit < pow2(44));
    lemma_small_top_bit(n / unit, 44);
    let parts = quotient_parts(n, unit);
    let e = (52 - top_bit(n / unit)) as nat;
    crate::num::lemma_pow2_monotone(9, e);
    assert(parts >= 512);
    let q = quotient(n, unit);
    let t = round_div(q * scale, parts);
    law_rounding_is_to_the_nearest(n * parts, unit);
    law_rounding_is_to_the_nearest(q * scale, parts);
    let (tu, ns, qu, np, qs, tp) = (t * unit, n * scale, q * unit, n * parts, q * scale, t * parts);
    assert(2 * (qu - np) <= unit && 2 * (np - qu) <= unit);
    assert(2 * (tp - qs) <= parts && 2 * (qs - tp) <= parts);
    assert((tu - ns) * parts * 2 <= unit * (parts + scale) && (ns - tu) * parts * 2 <= unit * (
    parts + scale)) by {
        lemma_two_roundings(t, unit, n, scale, q, parts);
    }
    assert(tu - ns <= unit) by (nonlinear_arith)
        requires
            (tu - ns) * parts * 2 <= unit * (parts + scale),
            parts >= 512,
            scale <= 100,
            unit > 0,
    ;
    assert(ns - tu <= unit) by (nonlinear_arith)
        requires
            (ns - tu) * parts * 2 <= unit * (parts + scale),
            parts >= 512,
            scale <= 100,
            unit > 0,
    ;
    assert(quotient_text(n, unit, places) =~= decimal(t / scale) + seq!['.'] + padded(
        t % scale,
        places,
    ));
    t
}

proof fn lemma_two_roundings(t: nat, unit: nat, n: nat, scale: nat, q: nat, parts: nat)
    requires
        2 * (q * unit - n * parts) <= unit,
        2 * (n * parts - q * unit) <= unit,
        2 * (t * parts - q * scale) <= parts,
        2 * (q * scale - t * parts) <= parts,
    ensures
        (t * unit - n * scale) * parts * 2 <= unit * (parts + scale),
        (n * scale - t * unit) * parts * 2 <= unit * (parts + scale),
{
    let a = q * unit - n * parts;
    let b = t * parts - q * scale;
    assert((t * unit - n * scale) * parts == b * unit + a * scale) by (nonlinear_arith)
        requires
            a == q * unit - n * parts,
            b == t * parts - q * scale,
    ;
    assert(2 * (b * unit) <= parts * unit && -2 * (b * unit) <= parts * unit) by (nonlinear_arith)
        requires
            2 * b <= parts,
            2 * (-b) <= parts,
            unit >= 0,
    ;
    assert(2 * (a * scale) <= unit * scale && -2 * (a * scale) <= unit * scale) by (nonlinear_arith)
        requires
            2 * a <= unit,
            2 * (-a) <= unit,
            scale >= 0,
    ;
    assert(parts * unit + unit * scale == unit * (parts + scale)) by (nonlinear_arith);
    assert((n * scale - t * unit) * parts == -((t * unit - n * scale) * parts)) by (nonlinear_arith);
}

/// A count below a thousand is written out. A larger one is written in thousands,
/// millions or thousands of millions with one place, and differs from that by no more
/// than one in that place.
pub proof fn law_count_text_is_near(n: nat) -> (t: nat)
    requires
        n < 0x20_0000_0000_0000,
    ensures
        n < 1_000 ==> count_text(n) == decimal(n),
        n >= 1_000 ==> ({
            let (unit, sign) = if n < 1_000_000 {
                (1_000nat, 'k')
            } else if n < 1_000_000_000 {
                (1_000_000nat, 'M')
            } else {
                (1_000_000_000nat, 'G')
            };
            &&& count_text(n) == decimal(t / 10) + seq!['.'] + padded(t % 10, 1) + seq![sign]
            &&& t * unit <= n * 10 + unit
            &&& n * 10 <= t * unit + unit
        }),
{
    if n < 1_000 {
        0
    } else {
        let (unit, sign) = if n < 1_000_000 {
            (1_000nat, 'k')
        } else if n < 1_000_000_000 {
            (1_000_000nat, 'M')
        } else {
            (1_000_000_000nat, 'G')
        };
        let t = lemma_quotient_near(n, unit, 1);
        assert(count_text(n) =~= decimal(t / 10) + seq!['.'] + padded(t % 10, 1) + seq![sign]);
        t
    }
}

/// A size below a kibibyte is written in bytes. A larger one is written in kibibytes or
/// mebibytes with one place, or in gibibytes with two, and differs from that by no more
/// than one in the last place.
pub proof fn law_size_text_is_near(n: nat) -> (t: nat)
    requires
        n < 0x20_0000_0000_0000,
    ensures
        n < 1024 ==> size_text(n) == decimal(n) + " B"@,
        1024 <= n < 1024 * 1024 ==> size_text(n) == decimal(t / 10) + seq!['.'] + padded(t % 10, 1)
            + " KiB"@ && t * 1024 <= n * 10 + 1024 && n * 10 <= t * 1024 + 1024,
        1024 * 1024 <= n < 1024 * 1024 * 1024 ==> size_text(n) == decimal(t / 10) + seq!['.']
            + padded(t % 10, 1) + " MiB"@ && t * 1_048_576 <= n * 10 + 1_048_576 && n * 10 <= t
            * 1_048_576 + 1_048_576,
        n >= 1024 * 1024 * 1024 ==> size_text(n) == decimal(t / 100) + seq!['.'] + padded(t % 100, 2)
            + " GiB"@ && t * 1_073_741_824 <= n * 100 + 1_073_741_824 && n * 100 <= t
            * 1_073_741_824 + 1_073_741_824,
{
    if n < 1024 {
        0
    } else if n < 1024 * 1024 {
        lemma_quotient_near(n, 1024, 1)
    } else if n < 1024 * 1024 * 1024 {
        lemma_quotient_near(n, 1_048_576, 1)
    } else {
        lemma_quotient_near(n, 1_073_741_824, 2)
    }
}

/// A double is shown to the nearest millionth: what stands for it is at most half a
/// millionth away.
pub proof fn law_millionths_are_the_nearest(b: u64)
    ensures
        exponent(b) >= 0 ==> millionths(b) == mantissa(b) * pow2(exponent(b) as nat) * 1_000_000,
        exponent(b) < 0 ==> {
            let parts = pow2((-exponent(b)) as nat);
            &&& 2 * (millionths(b) * parts - mantissa(b) * 1_000_000) <= parts
            &&& 2 * (mantissa(b) * 1_000_000 - millionths(b) * parts) <= parts
        },
{
    if exponent(b) < 0 {
        let parts = pow2((-exponent(b)) as nat);
        lemma_pow2_pos((-exponent(b)) as nat);
        law_rounding_is_to_the_nearest(mantissa(b) * 1_000_000, parts);
    }
}

/// A single on its way to a double keeps its sign and its value: the mantissa, times the
/// power of two that stands beside it, is the same. Infinities stay infinite, and what is
/// not a number stays so.
pub proof fn law_single_keeps_its_value(b: u32)
    ensures
        ({
            let e = (b as int / 0x80_0000) % 256;
            let m = b as int % 0x80_0000;
            let d = double_of_single(b);
            let (sm, se) = if e == 0 {
                (m, -149)
            } else {
                (m + 0x80_0000, e - 150)
            };
            &&& d <= u64::MAX
            &&& d >= SIGN <==> b >= 0x8000_0000
            &&& e < 255 ==> exponent(d as u64) >= -1074 && mantissa(d as u64) * pow2(
                (exponent(d as u64) + 1074) as nat,
            ) == sm * pow2((se + 1074) as nat)
            &&& e == 255 && m == 0 ==> magnitude(d as u64) == INFINITY
            &&& e == 255 && m != 0 ==> is_nan(d as u64)
        }),
{
    let e = (b as int / 0x80_0000) % 256;
    let m = b as int % 0x80_0000;
    let h = HIDDEN as int;
    assert(e <= 255 && m <= 0x7f_ffff);
    let d = double_of_single(b);
    let sign = (if b >= 0x8000_0000 {
        SIGN
    } else {
        0u64
    }) as int;
    if e == 255 {
        assert(magnitude(d as u64) == d - sign);
    } else if e > 0 {
        let mag = (e + 896) * h + m * 0x2000_0000;
        assert(d == sign + mag);
        assert(magnitude(d as u64) == mag);
        assert(mag / h == e + 896 && mag % h == m * 0x2000_0000);
        vstd::arithmetic::power2::lemma2_to64();
        lemma_pow2_sum(29, (e - 179 + 1074) as nat);
        let p = pow2((e - 179 + 1074) as nat);
        assert((h + m * 0x2000_0000) * p == (m + 0x80_0000) * (0x2000_0000 * p))
            by (nonlinear_arith)
            requires
                h == 0x80_0000 * 0x2000_0000,
        ;
    } else if m == 0 {
        assert(magnitude(d as u64) == 0);
        assert(0 * pow2(0) == 0 && 0 * pow2(925) == 0);
    } else {
        lemma_small_single(m as nat, d, sign);
    }
}

proof fn lemma_small_single(m: nat, d: nat, sign: int)
    requires
        0 < m < 0x80_0000,
        sign == 0 || sign == SIGN,
        d == sign + (((top_bit(m) + 874) * HIDDEN + m * pow2((52 - top_bit(m)) as nat)
            - HIDDEN) as nat),
    ensures
        d <= u64::MAX,
        d >= SIGN <==> sign == SIGN,
        exponent(d as u64) >= -1074,
        mantissa(d as u64) * pow2((exponent(d as u64) + 1074) as nat) == m * pow2(925),
{
    let k = top_bit(m);
    let h = HIDDEN as int;
    vstd::arithmetic::power2::lemma2_to64();
    lemma_top_bit(m);
    assert(k <= 22) by {
        if k > 22 {
            lemma_pow2_monotone(23, k);
        }
    }
    let w = pow2((52 - k) as nat);
    lemma_pow2_pos((52 - k) as nat);
    lemma_pow2_sum(k, (52 - k) as nat);
    vstd::arithmetic::power2::lemma2_to64_rest();
    assert(pow2(52) == h);
    let x = m * w;
    assert(h <= x < 2 * h) by (nonlinear_arith)
        requires
            pow2(k) <= m < 2 * pow2(k),
            pow2(k) * w == h,
            x == m * w,
            w > 0,
    ;
    let mag = (k + 874) * h + x - h;
    assert(magnitude(d as u64) == mag);
    assert(mag / h == k + 874 && mag % h == x - h);
    lemma_pow2_sum((52 - k) as nat, (k + 873) as nat);
    let p = pow2((k + 873) as nat);
    assert(x * p == m * (w * p)) by (nonlinear_arith)
        requires
            x == m * w,
    ;
}

/// The blanks of ASCII are the space and the five controls from the tab on, and the
/// blanks beyond it stand among the general punctuation, but for four.
pub proof fn law_blanks(c: char)
    ensures
        (c as int) < 128 ==> (is_blank(c) <==> c == ' ' || c == '\t' || c == '\n' || c == '\u{b}'
            || c == '\u{c}' || c == '\r'),
        is_blank('\u{85}') && is_blank('\u{a0}') && is_blank('\u{1680}') && is_blank('\u{3000}'),
        (c as int) >= 128 && is_blank(c) && !('\u{2000}' <= c && c <= '\u{205f}') ==> c == '\u{85}'
            || c == '\u{a0}' || c == '\u{1680}' || c == '\u{3000}',
{
}

/// A port is the number that its digits spell, with or without a plus before them, as
/// long as it fits sixteen bits; a larger number is no port.
pub proof fn law_port_is_the_number(n: nat)
    ensures
        n <= 0xffff ==> port_of(decimal(n)) == Some(n as u16) && port_of(seq!['+'] + decimal(n))
            == Some(n as u16),
        n > 0xffff ==> port_of(decimal(n)) is None,
        port_of(Seq::empty()) is None,
{
    lemma_decimal_digits(n);
    assert(decimal(n)[0] != '+');
    assert((seq!['+'] + decimal(n)).skip(1) =~= decimal(n));
}

/// A character that is no digit spoils a port, wherever it stands behind the first.
pub proof fn law_port_holds_digits_only(s: Seq<char>, i: int)
    requires
        0 < i < s.len(),
        s[i] < '0' || s[i] > '9',
    ensures
        port_of(s) is None,
{
    if s[0] == '+' {
        assert(s.skip(1)[i - 1] == s[i]);
    }
}

/// The message about an opened file begins with the numbers of packets and entries that
/// were loaded, tells the number of skipped packets where there are any, and ends with
/// the note where there is one.
pub proof fn law_opening_tells_the_counts(c: ReplayCounts, note: Seq<char>)
    ensures
        ({
            let head = "loaded "@ + decimal(c.packets as nat) + " packets / "@ + decimal(
                c.entries as nat,
            ) + " entries"@;
            &&& head.is_prefix_of(opened(c, Some(note)))
            &&& note.is_suffix_of(opened(c, Some(note)))
            &&& c.skipped == 0 ==> opened(c, None) == head
            &&& c.skipped > 0 ==> occurs_at(
                opened(c, None),
                decimal(c.skipped as nat),
                (head + " \u{b7} "@).len() as int,
            )
        }),
{
    let head = "loaded "@ + decimal(c.packets as nat) + " packets / "@ + decimal(c.entries as nat)
        + " entries"@;
    let s = opened(c, Some(note));
    let t = opened(c, None);
    assert(head =~= s.take(head.len() as int));
    assert(note =~= s.skip(s.len() - note.len()));
    if c.skipped == 0 {
        assert(t =~= head);
    } else {
        let at = (head + " \u{b7} "@).len() as int;
        let d = decimal(c.skipped as nat);
        assert(t.subrange(at, at + d.len()) =~= d);
    }
}

/// The text about the shown rows gives their number first, then how many matched and how
/// many there were; that rows were cut is said only where fewer are shown than matched.
pub proof fn law_counts_are_told_in_order(shown: nat, matched: nat, in_window: nat)
    ensures
        ({
            let s = counts(shown, matched, in_window);
            let told = "showing "@ + decimal(shown) + " of "@ + decimal(matched) + " matched ("@
                + decimal(in_window) + " in window)"@;
            &&& told.is_prefix_of(s)
            &&& shown >= matched ==> s == told
            &&& shown < matched ==> s.len() > told.len()
        }),
{
    let s = counts(shown, matched, in_window);
    let told = "showing "@ + decimal(shown) + " of "@ + decimal(matched) + " matched ("@ + decimal(
        in_window,
    ) + " in window)"@;
    reveal_strlit(" \u{2014} truncated");
    assert(told =~= s.take(told.len() as int));
    if shown >= matched {
        assert(s =~= told);
    }
}

/// The line about a capture shows its age in minutes and seconds: the minutes as they are
/// and the seconds below sixty, which together make up the age.
pub proof fn law_age_is_shown_in_minutes(s: CaptureStats, minutes: nat, seconds: nat)
    requires
        seconds < 60,
        s.packets_dropped == 0,
    ensures
        (padded(minutes, 2) + ":"@ + padded(seconds, 2)).is_suffix_of(
            capture_text(s, 60 * minutes + seconds),
        ),
        count_text(s.packets as nat).is_prefix_of(capture_text(s, 60 * minutes + seconds)),
{
    let age = 60 * minutes + seconds;
    assert(age / 60 == minutes && age % 60 == seconds);
    let t = capture_text(s, age);
    let e = padded(minutes, 2) + ":"@ + padded(seconds, 2);
    assert(e =~= t.skip(t.len() - e.len()));
    let h = count_text(s.packets as nat);
    assert(h =~= t.take(h.len() as int));
}

/// A capture's name begins with the prefix and the stamp of its moment, and ends with that
/// stamp, the suffix and the extension; it holds nothing besides.
pub proof fn law_capture_name_holds_its_parts(
    name: Seq<char>,
    prefix: Seq<char>,
    suffix: Seq<char>,
    unix_secs: u64,
) -> (t: UtcTime)
    requires
        is_capture_name(name, prefix, suffix, unix_secs),
    ensures
        t.valid(),
        t.unix() == unix_secs,
        (prefix + seq!['-'] + stamp(t)).is_prefix_of(name),
        (stamp(t) + suffix + ".btlm"@).is_suffix_of(name),
        name.len() == prefix.len() + 1 + stamp(t).len() + suffix.len() + ".btlm"@.len(),
{
    let t = choose|t: UtcTime|
        t.valid() && t.unix() == unix_secs && name == prefix + seq!['-'] + #[trigger] stamp(t)
            + suffix + ".btlm"@;
    let h = prefix + seq!['-'] + stamp(t);
    assert(h =~= name.take(h.len() as int));
    let e = stamp(t) + suffix + ".btlm"@;
    assert(e =~= name.skip(name.len() - e.len()));
    t
}

} // verus!
