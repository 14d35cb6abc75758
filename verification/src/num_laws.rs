//! What numbers keep on their way from the wire to doubles and back.

use vstd::arithmetic::power2::{lemma_pow2_pos, lemma_pow2_unfold, pow2};
use vstd::prelude::*;

verus! {

use crate::bytes::{
    le_bytes, le_limit, le_value, lemma_le_bytes_len, lemma_le_limits, lemma_le_round_trip,
};
use crate::num::{
    below, double_of_int, double_of_nat, double_quotient, int_of_double, is_nan,
    law_small_integers_are_exact, lemma_double_fraction, lemma_double_of_nat_monotone,
    lemma_int_of_double_bracket, lemma_int_of_double_monotone, lemma_pow2_monotone,
    lemma_pow2_sum, lemma_quotient_monotone, lemma_top_bit_unique, moved_significand,
    quotient_exponent, round_quotient, significand, stands_for, HIDDEN, SIGN,
};
use crate::schema::{FieldType, FieldView};
use crate::store::{part_of, part_width};
use crate::value::{number_of, scalar_of};

/// An integer beyond 2^53 becomes the nearest number that has 53 bits before its zeros;
/// of two that are equally near, the one whose 53 bits are even.
pub proof fn law_large_integers_go_to_the_nearest(n: nat, k: nat) -> (r: nat)
    requires
        n <= u64::MAX,
        k >= 1,
        pow2(52) * pow2(k) <= n < pow2(53) * pow2(k),
    ensures
        stands_for(double_of_nat(n) as u64, r),
        r % pow2(k) == 0,
        2 * (r - n) <= pow2(k),
        2 * (n - r) <= pow2(k),
        2 * (r - n) == pow2(k) || 2 * (n - r) == pow2(k) ==> (r / pow2(k)) % 2 == 0,
{
    let d = pow2(k);
    let h = HIDDEN as nat;
    lemma_pow2_pos(k);
    assert(pow2(52) == h && pow2(53) == 2 * h) by {
        vstd::arithmetic::power2::lemma2_to64_rest();
    }
    lemma_pow2_sum(52, k);
    lemma_pow2_unfold(53 + k);
    lemma_pow2_sum(53, k);
    lemma_top_bit_unique(n, 52 + k);
    lemma_double_fraction(n);
    let q = n / d;
    let rest = n % d;
    let m = crate::num::round_shift(n, k);
    let b = double_of_nat(n);
    vstd::arithmetic::div_mod::lemma_fundamental_div_mod(n as int, d as int);
    let r = m * d;
    assert(r % d == 0 && r / d == m) by {
        vstd::arithmetic::div_mod::lemma_div_multiples_vanish(m as int, d as int);
        vstd::arithmetic::div_mod::lemma_mod_multiples_basic(m as int, d as int);
    }
    assert(d * q == q * d && (q + 1) * d == q * d + d) by (nonlinear_arith);
    if m < 2 * h {
        assert(b == (52 + k + 1023) * h + (m - h));
        assert(b as int / h as int == 52 + k + 1023);
        assert(b as int % h as int == m - h);
    } else {
        assert(b == (53 + k + 1023) * h);
        lemma_pow2_unfold(k + 1);
        assert(m * d == h * pow2(k + 1)) by (nonlinear_arith)
            requires
                m == 2 * h,
                pow2(k + 1) == 2 * d,
        ;
    }
    r
}

/// The double of an integer below 2^53 is cut back to that integer, under either sign.
pub proof fn law_whole_doubles_cut_back(n: int)
    requires
        -0x20_0000_0000_0000 < n < 0x20_0000_0000_0000,
    ensures
        double_of_int(n) <= u64::MAX,
        !is_nan(double_of_int(n) as u64),
        int_of_double(double_of_int(n) as u64) == n,
{
    let m = (if n < 0 {
        -n
    } else {
        n
    }) as nat;
    if m > 0 {
        lemma_double_of_nat_monotone(m, m);
        let b = double_of_nat(m) as u64;
        lemma_int_of_double_bracket(b, m, m);
    }
}

/// The doubles of integers below 2^53 are ordered as the integers are.
pub proof fn law_doubles_keep_the_order(a: int, b: int)
    requires
        -0x20_0000_0000_0000 < a < 0x20_0000_0000_0000,
        -0x20_0000_0000_0000 < b < 0x20_0000_0000_0000,
    ensures
        below(double_of_int(a) as u64, double_of_int(b) as u64) <==> a < b,
{
    let x = (if a < 0 {
        -a
    } else {
        a
    }) as nat;
    let y = (if b < 0 {
        -b
    } else {
        b
    }) as nat;
    law_whole_doubles_cut_back(a);
    law_whole_doubles_cut_back(b);
    law_whole_doubles_cut_back(x as int);
    law_whole_doubles_cut_back(y as int);
    lemma_double_of_nat_monotone(0, x);
    lemma_double_of_nat_monotone(0, y);
    if x <= y {
        lemma_double_of_nat_monotone(x, y);
    } else {
        lemma_double_of_nat_monotone(y, x);
    }
}

/// How many bytes a number of the type has.
pub open spec fn width_of(ty: FieldType) -> nat {
    match ty {
        FieldType::U8 | FieldType::I8 | FieldType::Bool | FieldType::Enum => 1,
        FieldType::U16 | FieldType::I16 => 2,
        FieldType::U32 | FieldType::I32 | FieldType::F32 => 4,
        FieldType::U64 | FieldType::I64 | FieldType::F64 => 8,
        FieldType::Bytes | FieldType::Bitfield | FieldType::String => 0,
    }
}

/// Whether the type is one of unsigned integers.
pub open spec fn is_unsigned(ty: FieldType) -> bool {
    ty == FieldType::U8 || ty == FieldType::U16 || ty == FieldType::U32 || ty == FieldType::U64
}

/// Whether the type is one of signed integers.
pub open spec fn is_signed(ty: FieldType) -> bool {
    ty == FieldType::I8 || ty == FieldType::I16 || ty == FieldType::I32 || ty == FieldType::I64
}

/// Whether a value of the type can be `v`.
pub open spec fn can_hold(ty: FieldType, v: int) -> bool {
    let all = le_limit(width_of(ty)) as int;
    ||| is_unsigned(ty) && 0 <= v < all
    ||| is_signed(ty) && -all <= 2 * v < all
}

/// An integer in little-endian bytes, in two's complement where it is negative.
pub open spec fn integer_bytes(ty: FieldType, v: int) -> Seq<u8> {
    le_bytes(
        (if v < 0 {
            v + le_limit(width_of(ty))
        } else {
            v
        }) as nat,
        width_of(ty),
    )
}

/// An integer that stands on the wire as a value of its type reads as its double.
pub proof fn law_integer_reads_back(ty: FieldType, v: int)
    requires
        can_hold(ty, v),
    ensures
        number_of(ty, integer_bytes(ty, v)) == Some(double_of_int(v)),
{
    let w = width_of(ty);
    let u = (if v < 0 {
        v + le_limit(w)
    } else {
        v
    }) as nat;
    lemma_le_limits();
    lemma_le_bytes_len(u, w);
    lemma_le_round_trip(u, w);
    if w == 1 {
        let raw = le_bytes(u, 1);
        reveal_with_fuel(le_value, 3);
        reveal_with_fuel(le_bytes, 2);
        assert(raw[0] as nat == u);
    }
}

/// A double on the wire is itself, a boolean is one for every byte but zero, and an
/// enum is its byte.
pub proof fn law_other_values_read_back(b: u64, c: u8)
    ensures
        number_of(FieldType::F64, le_bytes(b as nat, 8)) == Some(b as nat),
        number_of(FieldType::Bool, seq![c]) == Some(
            double_of_nat(
                if c == 0 {
                    0
                } else {
                    1
                },
            ),
        ),
        number_of(FieldType::Enum, seq![c]) == Some(double_of_nat(c as nat)),
{
    lemma_le_limits();
    lemma_le_bytes_len(b as nat, 8);
    lemma_le_round_trip(b as nat, 8);
}

/// A number that is wider than one byte wants exactly its width; one of a byte wants at
/// least that.
pub proof fn law_numbers_want_their_width(ty: FieldType, raw: Seq<u8>)
    requires
        width_of(ty) > 0,
    ensures
        number_of(ty, raw) is Some <==> raw.len() == width_of(ty) || (width_of(ty) == 1
            && raw.len() > 1),
{
}

/// A scalar field is read at its own offset: what stands elsewhere in the payload does
/// not matter, and a payload that ends before the field has no number.
pub proof fn law_scalar_is_read_at_its_offset(
    field: FieldView,
    head: Seq<u8>,
    raw: Seq<u8>,
    tail: Seq<u8>,
)
    requires
        field.count == 1,
        field.offset == head.len(),
        field.size == raw.len(),
    ensures
        scalar_of(field, head + raw + tail) == number_of(field.ty, raw),
        raw.len() > 0 ==> scalar_of(field, head + raw.drop_last()) is None,
{
    let payload = head + raw + tail;
    assert(payload.subrange(field.offset as int, field.offset + field.size) =~= raw);
}

/// The normal form of an integer: its fraction as it stands in its double.
proof fn lemma_normal(n: nat)
    requires
        0 < n <= 0x20_0000_0000_0000,
    ensures
        ({
            let e = double_of_nat(n) as int / HIDDEN as int - 1023;
            let m = significand(double_of_nat(n) as u64);
            &&& double_of_nat(n) <= u64::MAX
            &&& 0 <= e <= 53
            &&& HIDDEN <= m < 2 * HIDDEN
            &&& m * pow2(e as nat) == n * HIDDEN
        }),
{
    law_small_integers_are_exact(n);
    lemma_double_of_nat_monotone(n, n);
    let b = double_of_nat(n) as u64;
    let e = b as int / HIDDEN as int - 1023;
    let m = significand(b);
    let h = HIDDEN as nat;
    vstd::arithmetic::power2::lemma2_to64_rest();
    if e <= 52 {
        lemma_pow2_sum(e as nat, (52 - e) as nat);
        let (p, q) = (pow2(e as nat), pow2((52 - e) as nat));
        assert(m * p == n * h) by (nonlinear_arith)
            requires
                m == n * q,
                p * q == h,
        ;
    } else {
        lemma_pow2_sum(52, (e - 52) as nat);
        let (p, q) = (pow2(e as nat), pow2((e - 52) as nat));
        lemma_pow2_pos((e - 52) as nat);
        assert(m * p == n * h) by (nonlinear_arith)
            requires
                n == m * q,
                h * q == p,
        ;
        if e > 53 {
            lemma_pow2_monotone(2, (e - 52) as nat);
            assert(pow2(2) == 4) by {
                vstd::arithmetic::power2::lemma2_to64();
            }
            assert(n >= 4 * h) by (nonlinear_arith)
                requires
                    n == m * q,
                    m >= h,
                    q >= 4,
            ;
        }
    }
}

/// Where one integer goes into another, up to 2^53, the quotient of their doubles is the
/// double of the quotient.
pub proof fn law_whole_quotients_are_exact(x: nat, y: nat)
    requires
        x > 0,
        y > 0,
        x * y <= 0x20_0000_0000_0000,
    ensures
        double_quotient(double_of_nat(x * y) as u64, double_of_nat(y) as u64) == double_of_nat(x),
{
    let n = x * y;
    let h = HIDDEN as nat;
    assert(n > 0 && n >= x && n >= y) by (nonlinear_arith)
        requires
            n == x * y,
            x > 0,
            y > 0,
    ;
    lemma_normal(n);
    lemma_normal(x);
    lemma_normal(y);
    let (a, b, c) = (
        double_of_nat(n) as u64,
        double_of_nat(y) as u64,
        double_of_nat(x) as u64,
    );
    let ea = (a as int / h as int - 1023) as nat;
    let eb = (b as int / h as int - 1023) as nat;
    let ec = (c as int / h as int - 1023) as nat;
    let (ma, mb, mc) = (significand(a), significand(b), significand(c));
    let (pa, pb, pc) = (pow2(ea), pow2(eb), pow2(ec));
    let p = pow2(eb + ec);
    lemma_pow2_sum(eb, ec);
    lemma_pow2_pos(ea);
    lemma_pow2_pos(eb);
    lemma_pow2_pos(ec);
    lemma_pow2_pos(eb + ec);
    assert((mb * pb) * (mc * pc) == (mb * mc) * (pb * pc)) by (nonlinear_arith);
    assert((y * h) * (x * h) == ((x * y) * h) * h) by (nonlinear_arith);
    assert((ma * pa) * h == (ma * h) * pa) by (nonlinear_arith);
    assert((mb * mc) * p == (ma * h) * pa);
    let prod = mb * mc;
    assert(h * h <= prod < 4 * (h * h)) by (nonlinear_arith)
        requires
            prod == mb * mc,
            h <= mb < 2 * h,
            h <= mc < 2 * h,
    ;
    assert(h * h <= ma * h < 2 * (h * h)) by (nonlinear_arith)
        requires
            h <= ma < 2 * h,
            h == 0x10_0000_0000_0000,
    ;
    let hh = h * h;
    let mah = ma * h;
    assert(p < 2 * pa) by (nonlinear_arith)
        requires
            prod * p == mah * pa,
            prod >= hh,
            mah < 2 * hh,
            p > 0,
            pa > 0,
            hh > 0,
    ;
    assert(pa < 4 * p) by (nonlinear_arith)
        requires
            prod * p == mah * pa,
            prod < 4 * hh,
            mah >= hh,
            p > 0,
            pa > 0,
            hh > 0,
    ;
    assert(ea == eb + ec || ea == eb + ec + 1) by {
        if ea < eb + ec {
            lemma_pow2_monotone(ea + 1, eb + ec);
            lemma_pow2_unfold(ea + 1);
        }
        if ea > eb + ec + 1 {
            lemma_pow2_monotone(eb + ec + 2, ea);
            lemma_pow2_unfold(eb + ec + 2);
            lemma_pow2_unfold(eb + ec + 1);
        }
    }
    if ea == eb + ec {
        assert(prod == mah) by (nonlinear_arith)
            requires
                prod * p == mah * pa,
                p == pa,
                p > 0,
        ;
        assert(ma >= mb) by (nonlinear_arith)
            requires
                mb * mc == ma * h,
                mc >= h,
                h > 0,
        ;
        assert(moved_significand(a, b) == mb * mc);
    } else {
        lemma_pow2_unfold(ea);
        assert(prod == 2 * mah) by (nonlinear_arith)
            requires
                prod * p == mah * pa,
                pa == 2 * p,
                p > 0,
        ;
        assert(ma < mb) by (nonlinear_arith)
            requires
                mb * mc == 2 * (ma * h),
                mc < 2 * h,
                mb > 0,
                h > 0,
        ;
        assert(ma * (2 * h) == mb * mc) by (nonlinear_arith)
            requires
                mb * mc == 2 * (ma * h),
        ;
        assert(moved_significand(a, b) == mb * mc);
    }
    assert((mb * mc) / mb == mc && (mb * mc) % mb == 0) by {
        assert(mb * mc == mc * mb) by (nonlinear_arith);
        vstd::arithmetic::div_mod::lemma_div_multiples_vanish(mc as int, mb as int);
        vstd::arithmetic::div_mod::lemma_mod_multiples_basic(mc as int, mb as int);
    }
    assert(round_quotient(mb * mc, mb) == mc);
    assert(quotient_exponent(a, b) == ec);
    assert(c == (ec + 1023) * h + (mc - h));
}

/// A window that `n` equal parts of a whole number of nanoseconds make up, below 2^53, is
/// cut into those parts: a time that is `j` parts and some rest after the start falls into
/// part `j`, or, where its quotient is rounded up, into the next.
pub proof fn law_parts_are_equal(t: u64, t0: u64, t1: u64, n: usize, w: nat, j: nat, rest: nat)
    requires
        n > 0,
        w > 0,
        t1 - t0 == n * w,
        n * w < 0x10_0000_0000_0000,
        t - t0 == j * w + rest,
        rest < w,
        j < n,
    ensures
        j <= part_of(t, t0, t1, n) <= j + 1,
        rest == 0 ==> part_of(t, t0, t1, n) == j,
{
    let x = (t - t0) as nat;
    assert(w * n == n * w) by (nonlinear_arith);
    law_whole_quotients_are_exact(w, n as nat);
    let width = part_width(t0, t1, n);
    assert(width == double_of_nat(w));
    assert(j * w + w == (j + 1) * w && (j + 1) * w <= n * w) by (nonlinear_arith)
        requires
            j < n,
            w > 0,
    ;
    assert(n * w >= n && n * w >= w) by (nonlinear_arith)
        requires
            n > 0,
            w > 0,
    ;
    lemma_double_of_nat_monotone(0, w);
    lemma_double_of_nat_monotone(0, x);
    lemma_double_of_nat_monotone(x, (j + 1) * w);
    lemma_double_of_nat_monotone(j * w, x);
    lemma_double_of_nat_monotone(0, j * w);
    lemma_double_of_nat_monotone(0, (j + 1) * w);
    let low = double_of_nat(j * w) as u64;
    let mid = double_of_nat(x) as u64;
    let high = double_of_nat((j + 1) * w) as u64;
    lemma_quotient_monotone(low, mid, width);
    lemma_quotient_monotone(mid, high, width);
    law_whole_quotients_are_exact(j + 1, w);
    if j > 0 {
        law_whole_quotients_are_exact(j, w);
    } else {
        assert(j * w == 0) by (nonlinear_arith)
            requires
                j == 0,
        ;
    }
    law_whole_doubles_cut_back(j as int);
    law_whole_doubles_cut_back((j + 1) as int);
    lemma_double_of_nat_monotone(0, j);
    lemma_double_of_nat_monotone(0, j + 1);
    lemma_int_of_double_monotone(double_quotient(low, width), double_quotient(mid, width));
    lemma_int_of_double_monotone(double_quotient(mid, width), double_quotient(high, width));
}

/// The lesser of two numbers is one of them and not above the other, and the greater is
/// one of them and not below the other; what is not a number gives way.
pub proof fn law_lesser_and_greater(a: u64, b: u64)
    ensures
        !is_nan(a) && !is_nan(b) ==> {
            &&& crate::num::lesser(a, b) == a || crate::num::lesser(a, b) == b
            &&& crate::num::greater(a, b) == a || crate::num::greater(a, b) == b
            &&& !below(a, crate::num::lesser(a, b)) && !below(b, crate::num::lesser(a, b))
            &&& !below(crate::num::greater(a, b), a) && !below(crate::num::greater(a, b), b)
        },
        is_nan(a) ==> crate::num::lesser(a, b) == b && crate::num::greater(a, b) == b,
        is_nan(b) && !is_nan(a) ==> crate::num::lesser(a, b) == a && crate::num::greater(a, b) == a,
{
}

/// A double is cut toward zero: what is left is not above it, and the next number is.
pub proof fn law_cut_is_toward_zero(b: u64)
    requires
        b < double_of_nat(0x1f_ffff_ffff_ffff),
    ensures
        ({
            let n = int_of_double(b);
            &&& 0 <= n < 0x1f_ffff_ffff_ffff
            &&& double_of_nat(n as nat) <= b < double_of_nat((n + 1) as nat)
            &&& int_of_double((b + SIGN) as u64) == -n
        }),
{
    let top = 0x1f_ffff_ffff_ffff;
    lemma_double_of_nat_monotone(top, top);
    law_whole_doubles_cut_back(top as int);
    lemma_int_of_double_monotone(b, double_of_nat(top) as u64);
    let n = int_of_double(b) as nat;
    assert(n == crate::num::whole_part(b));
    lemma_double_of_nat_monotone(0, n);
    if n > 0 {
        let h = HIDDEN as nat;
        let e = (b as int / h as int - 1023) as nat;
        assert(b as int / h as int >= 1023);
        crate::num::lemma_whole_part_size(b);
        lemma_pow2_unfold(e + 1);
        lemma_top_bit_unique(n, e);
        lemma_double_fraction(n);
        let m = significand(b);
        assert(e <= 52) by {
            if e > 52 {
                lemma_pow2_monotone(53, e);
                vstd::arithmetic::power2::lemma2_to64_rest();
            }
        }
        let d = pow2((52 - e) as nat);
        lemma_pow2_pos((52 - e) as nat);
        vstd::arithmetic::div_mod::lemma_fundamental_div_mod(m as int, d as int);
        assert(n * d <= m) by (nonlinear_arith)
            requires
                m == d * n + (m as int % d as int),
                m as int % d as int >= 0,
        ;
        assert(b == (e + 1023) * h + (m - h));
        assert(double_of_nat(n) <= b);
    }
    assert(n < top) by {
        if n >= top {
            assert(n == top);
        }
    }
    law_whole_doubles_cut_back((n + 1) as int);
    lemma_double_of_nat_monotone(0, n + 1);
    if double_of_nat(n + 1) <= b {
        lemma_int_of_double_monotone(double_of_nat(n + 1) as u64, b);
    }
}

/// A field of several elements, or of none, is not one number.
pub proof fn law_arrays_are_no_scalars(field: FieldView, payload: Seq<u8>)
    ensures
        field.count != 1 ==> scalar_of(field, payload) is None,
{
}

} // verus!
