//! Field-value extraction.
//!
//! Numeric scalar fields collapse to doubles. Arrays, byte blobs and bitfields
//! expand into several channels and are read by the channel mapper instead.

use crate::bytes::{le_value, read_le};
use crate::num::{
    double_of_int, double_of_nat, double_of_single, f64_of_f32, f64_of_i64, f64_of_u64,
};
use crate::schema::{nul_position, until_nul, FieldDef, FieldType, FieldView};
use crate::text::{forgiving_text, utf8_text_lossy};
use vstd::prelude::*;
use vstd::slice::slice_subrange;

verus! {

/// `v` as a two's complement number of `w` bytes.
pub open spec fn signed(v: nat, w: nat) -> int {
    if 2 * v >= crate::bytes::le_limit(w) {
        v - crate::bytes::le_limit(w)
    } else {
        v as int
    }
}

/// The bytes of the field in the payload, where the payload reaches that far.
pub open spec fn raw_field(field: FieldView, payload: Seq<u8>) -> Option<Seq<u8>> {
    if field.offset + field.size > payload.len() {
        None
    } else {
        Some(payload.subrange(field.offset as int, field.offset + field.size))
    }
}

/// The double that a value of type `ty` with the bytes `raw` collapses to.
///
/// A one-byte type reads the first byte; every wider type wants exactly its own
/// width. Types that are not numbers collapse to nothing.
pub open spec fn number_of(ty: FieldType, raw: Seq<u8>) -> Option<nat> {
    let n = raw.len();
    let v = le_value(raw);
    match ty {
        FieldType::U8 | FieldType::Enum => if n >= 1 {
            Some(double_of_nat(raw[0] as nat))
        } else {
            None
        },
        FieldType::Bool => if n >= 1 {
            Some(double_of_nat(if raw[0] != 0 {
                1
            } else {
                0
            }))
        } else {
            None
        },
        FieldType::I8 => if n >= 1 {
            Some(double_of_int(signed(raw[0] as nat, 1)))
        } else {
            None
        },
        FieldType::U16 => if n == 2 {
            Some(double_of_nat(v))
        } else {
            None
        },
        FieldType::U32 => if n == 4 {
            Some(double_of_nat(v))
        } else {
            None
        },
        FieldType::U64 => if n == 8 {
            Some(double_of_nat(v))
        } else {
            None
        },
        FieldType::I16 => if n == 2 {
            Some(double_of_int(signed(v, 2)))
        } else {
            None
        },
        FieldType::I32 => if n == 4 {
            Some(double_of_int(signed(v, 4)))
        } else {
            None
        },
        FieldType::I64 => if n == 8 {
            Some(double_of_int(signed(v, 8)))
        } else {
            None
        },
        FieldType::F32 => if n == 4 {
            Some(double_of_single(v as u32))
        } else {
            None
        },
        FieldType::F64 => if n == 8 {
            Some(v)
        } else {
            None
        },
        FieldType::Bytes | FieldType::Bitfield | FieldType::String => None,
    }
}

/// The number that a scalar field holds.
pub open spec fn scalar_of(field: FieldView, payload: Seq<u8>) -> Option<nat> {
    if field.count != 1 {
        None
    } else {
        match raw_field(field, payload) {
            None => None,
            Some(raw) => number_of(field.ty, raw),
        }
    }
}

/// `v` as a two's complement number of `w` bytes.
fn to_signed(v: u64, w: usize) -> (r: i64)
    requires
        w == 1 || w == 2 || w == 4 || w == 8,
        v < crate::bytes::le_limit(w as nat),
    ensures
        r == signed(v as nat, w as nat),
{
    proof {
        crate::bytes::lemma_le_limits();
    }
    if w == 1 {
        if v >= 0x80 {
            v as i64 - 0x100
        } else {
            v as i64
        }
    } else if w == 2 {
        if v >= 0x8000 {
            v as i64 - 0x1_0000
        } else {
            v as i64
        }
    } else if w == 4 {
        if v >= 0x8000_0000 {
            v as i64 - 0x1_0000_0000
        } else {
            v as i64
        }
    } else if v >= 0x8000_0000_0000_0000 {
        -((0xffff_ffff_ffff_ffff - v) as i64) - 1
    } else {
        v as i64
    }
}

/// The number of `w` bytes that `raw` spells, where it has exactly that width.
fn exact(raw: &[u8], w: usize) -> (r: Option<u64>)
    requires
        w <= 8,
    ensures
        r is Some <==> raw@.len() == w,
        r matches Some(v) ==> v == le_value(raw@) && v < crate::bytes::le_limit(w as nat),
{
    if raw.len() == w {
        assert(raw@.subrange(0, w as int) =~= raw@);
        Some(read_le(raw, 0, w))
    } else {
        None
    }
}

fn unsigned_number(raw: &[u8], w: usize) -> (r: Option<u64>)
    requires
        w <= 8,
    ensures
        r is Some <==> raw@.len() == w,
        r matches Some(v) ==> v == double_of_nat(le_value(raw@)),
{
    match exact(raw, w) {
        None => None,
        Some(v) => Some(f64_of_u64(v)),
    }
}

fn signed_number(raw: &[u8], w: usize) -> (r: Option<u64>)
    requires
        w == 2 || w == 4 || w == 8,
    ensures
        r is Some <==> raw@.len() == w,
        r matches Some(v) ==> v == double_of_int(signed(le_value(raw@), w as nat)),
{
    match exact(raw, w) {
        None => None,
        Some(v) => Some(f64_of_i64(to_signed(v, w))),
    }
}

/// The double that a value of type `ty` with the bytes `raw` collapses to.
pub fn collapse(ty: FieldType, raw: &[u8]) -> (r: Option<u64>)
    ensures
        r is Some <==> number_of(ty, raw@) is Some,
        r matches Some(v) ==> number_of(ty, raw@) == Some(v as nat),
{
    proof {
        crate::bytes::lemma_le_limits();
    }
    match ty {
        FieldType::U8 | FieldType::Enum => if raw.len() >= 1 {
            Some(f64_of_u64(raw[0] as u64))
        } else {
            None
        },
        FieldType::Bool => if raw.len() >= 1 {
            Some(f64_of_u64(if raw[0] != 0 {
                1
            } else {
                0
            }))
        } else {
            None
        },
        FieldType::I8 => if raw.len() >= 1 {
            Some(f64_of_i64(to_signed(raw[0] as u64, 1)))
        } else {
            None
        },
        FieldType::U16 => unsigned_number(raw, 2),
        FieldType::U32 => unsigned_number(raw, 4),
        FieldType::U64 => unsigned_number(raw, 8),
        FieldType::I16 => signed_number(raw, 2),
        FieldType::I32 => signed_number(raw, 4),
        FieldType::I64 => signed_number(raw, 8),
        FieldType::F32 => match exact(raw, 4) {
            None => None,
            Some(v) => Some(f64_of_f32(v as u32)),
        },
        FieldType::F64 => exact(raw, 8),
        FieldType::Bytes | FieldType::Bitfield | FieldType::String => None,
    }
}

/// Reads a scalar field as a double. Nothing if the payload is too short, the
/// field is an array, or its type is not a number.
pub fn field_as_f64(field: &FieldDef, payload: &[u8]) -> (r: Option<u64>)
    ensures
        r is Some <==> scalar_of(field@, payload@) is Some,
        r matches Some(v) ==> scalar_of(field@, payload@) == Some(v as nat),
{
    if field.count != 1 {
        return None;
    }
    let off: usize = field.offset as usize;
    let size: usize = field.size as usize;
    if off + size > payload.len() {
        return None;
    }
    collapse(field.ty, slice_subrange(payload, off, off + size))
}

/// The text that a text field holds.
pub open spec fn text_of(field: FieldView, payload: Seq<u8>) -> Option<Seq<char>> {
    if field.ty != FieldType::String {
        None
    } else {
        match raw_field(field, payload) {
            None => None,
            Some(raw) => Some(forgiving_text(until_nul(raw))),
        }
    }
}

/// Reads a text field. Nothing if the payload is too short or the field is not
/// text. The bytes end at the first NUL; UTF-8 is decoded, with malformed parts
/// replaced.
pub fn field_as_string(field: &FieldDef, payload: &[u8]) -> (r: Option<String>)
    ensures
        r is Some <==> text_of(field@, payload@) is Some,
        r matches Some(s) ==> text_of(field@, payload@) == Some(s@),
{
    if field.ty != FieldType::String {
        return None;
    }
    let off: usize = field.offset as usize;
    let size: usize = field.size as usize;
    if off + size > payload.len() {
        return None;
    }
    let raw = slice_subrange(payload, off, off + size);
    let end = nul_position(raw);
    let text = slice_subrange(raw, 0, end);
    assert(text@ =~= until_nul(raw@));
    Some(utf8_text_lossy(text))
}

} // verus!
