//! The schema half of the wire format.
//!
//! ```text
//! u8  endianness            # 0 = little
//! u16 entry_count
//! SchemaWire[entry_count]   # 1318 bytes each
//! u16 enum_count            # optional, as is what follows
//! EnumWire[enum_count]      # 2053 bytes each
//! u16 bitfield_count        # optional, as is what follows
//! BitfieldWire[bf_count]    # 1093 bytes each
//! ```

use crate::bytes::{le_at, read_le};
use crate::text::utf8_text;
use crate::wire::{
    need, read_u16, read_u8, WireError, BITFIELD_MAX_BITS, BITFIELD_WIRE_SIZE, BIT_NAME_MAX,
    DESC_MAX, ENUM_LABEL_MAX, ENUM_MAX_VALUES, ENUM_WIRE_SIZE, FIELD_WIRE_SIZE, MAX_FIELDS,
    MAX_SCHEMA_ENTRIES, NAME_MAX, SCHEMA_HEADER_SIZE, SCHEMA_WIRE_HEADER_SIZE, SCHEMA_WIRE_SIZE,
};
use vstd::prelude::*;
use vstd::slice::slice_subrange;
use vstd::utf8::{decode_utf8, valid_utf8};

verus! {

use crate::wire::{collect, lemma_collect_err, short};

/// Field primitive type.
#[derive(Clone, Copy, Debug, PartialEq, Eq, Structural)]
pub enum FieldType {
    U8,
    U16,
    U32,
    U64,
    I8,
    I16,
    I32,
    I64,
    F32,
    F64,
    Bool,
    Bytes,
    Enum,
    Bitfield,
    /// Fixed-width text. No wire code stands for it.
    String,
}

/// The type that a wire code stands for.
pub open spec fn type_of_code(b: u8) -> Option<FieldType> {
    if b == 0 {
        Some(FieldType::U8)
    } else if b == 1 {
        Some(FieldType::U16)
    } else if b == 2 {
        Some(FieldType::U32)
    } else if b == 3 {
        Some(FieldType::U64)
    } else if b == 4 {
        Some(FieldType::I8)
    } else if b == 5 {
        Some(FieldType::I16)
    } else if b == 6 {
        Some(FieldType::I32)
    } else if b == 7 {
        Some(FieldType::I64)
    } else if b == 8 {
        Some(FieldType::F32)
    } else if b == 9 {
        Some(FieldType::F64)
    } else if b == 10 {
        Some(FieldType::Bool)
    } else if b == 11 {
        Some(FieldType::Bytes)
    } else if b == 12 {
        Some(FieldType::Enum)
    } else if b == 13 {
        Some(FieldType::Bitfield)
    } else {
        None
    }
}

impl FieldType {
    pub fn from_u8(b: u8) -> (r: Result<Self, WireError>)
        ensures
            r == (match type_of_code(b) {
                Some(t) => Ok::<FieldType, WireError>(t),
                None => Err(WireError::UnknownType(b)),
            }),
    {
        Ok(
            match b {
                0 => FieldType::U8,
                1 => FieldType::U16,
                2 => FieldType::U32,
                3 => FieldType::U64,
                4 => FieldType::I8,
                5 => FieldType::I16,
                6 => FieldType::I32,
                7 => FieldType::I64,
                8 => FieldType::F32,
                9 => FieldType::F64,
                10 => FieldType::Bool,
                11 => FieldType::Bytes,
                12 => FieldType::Enum,
                13 => FieldType::Bitfield,
                _ => {
                    return Err(WireError::UnknownType(b));
                },
            },
        )
    }
}

#[derive(Clone, Debug, PartialEq)]
pub struct FieldDef {
    pub name: String,
    pub offset: u16,
    pub size: u16,
    pub ty: FieldType,
    pub count: u8,
}

#[derive(Clone, Debug, PartialEq)]
pub struct SchemaEntry {
    pub id: u16,
    pub name: String,
    pub description: String,
    pub payload_size: u16,
    pub fields: Vec<FieldDef>,
}

#[derive(Clone, Debug, PartialEq)]
pub struct EnumDef {
    pub schema_id: u16,
    pub field_index: u16,
    pub labels: Vec<String>,
}

#[derive(Clone, Debug, PartialEq)]
pub struct BitDef {
    pub name: String,
    pub start: u8,
    pub width: u8,
}

#[derive(Clone, Debug, PartialEq)]
pub struct BitfieldDef {
    pub schema_id: u16,
    pub field_index: u16,
    pub bits: Vec<BitDef>,
}

/// Fully-decoded schema descriptor.
#[derive(Clone, Debug, Default, PartialEq)]
pub struct Schema {
    pub entries: Vec<SchemaEntry>,
    pub enums: Vec<EnumDef>,
    pub bitfields: Vec<BitfieldDef>,
}

/// What a [`FieldDef`] says.
#[verifier::ext_equal]
pub struct FieldView {
    pub name: Seq<char>,
    pub offset: u16,
    pub size: u16,
    pub ty: FieldType,
    pub count: u8,
}

/// What a [`SchemaEntry`] says.
#[verifier::ext_equal]
pub struct SchemaEntryView {
    pub id: u16,
    pub name: Seq<char>,
    pub description: Seq<char>,
    pub payload_size: u16,
    pub fields: Seq<FieldView>,
}

/// What an [`EnumDef`] says.
#[verifier::ext_equal]
pub struct EnumView {
    pub schema_id: u16,
    pub field_index: u16,
    pub labels: Seq<Seq<char>>,
}

/// What a [`BitDef`] says.
#[verifier::ext_equal]
pub struct BitView {
    pub name: Seq<char>,
    pub start: u8,
    pub width: u8,
}

/// What a [`BitfieldDef`] says.
#[verifier::ext_equal]
pub struct BitfieldView {
    pub schema_id: u16,
    pub field_index: u16,
    pub bits: Seq<BitView>,
}

/// What a [`Schema`] says.
#[verifier::ext_equal]
pub struct SchemaView {
    pub entries: Seq<SchemaEntryView>,
    pub enums: Seq<EnumView>,
    pub bitfields: Seq<BitfieldView>,
}

impl View for FieldDef {
    type V = FieldView;

    open spec fn view(&self) -> FieldView {
        FieldView {
            name: self.name@,
            offset: self.offset,
            size: self.size,
            ty: self.ty,
            count: self.count,
        }
    }
}

impl View for SchemaEntry {
    type V = SchemaEntryView;

    open spec fn view(&self) -> SchemaEntryView {
        SchemaEntryView {
            id: self.id,
            name: self.name@,
            description: self.description@,
            payload_size: self.payload_size,
            fields: self.fields@.map_values(|f: FieldDef| f@),
        }
    }
}

impl View for EnumDef {
    type V = EnumView;

    open spec fn view(&self) -> EnumView {
        EnumView {
            schema_id: self.schema_id,
            field_index: self.field_index,
            labels: self.labels@.map_values(|l: String| l@),
        }
    }
}

impl View for BitDef {
    type V = BitView;

    open spec fn view(&self) -> BitView {
        BitView { name: self.name@, start: self.start, width: self.width }
    }
}

impl View for BitfieldDef {
    type V = BitfieldView;

    open spec fn view(&self) -> BitfieldView {
        BitfieldView {
            schema_id: self.schema_id,
            field_index: self.field_index,
            bits: self.bits@.map_values(|b: BitDef| b@),
        }
    }
}

impl View for Schema {
    type V = SchemaView;

    open spec fn view(&self) -> SchemaView {
        SchemaView {
            entries: self.entries@.map_values(|e: SchemaEntry| e@),
            enums: self.enums@.map_values(|e: EnumDef| e@),
            bitfields: self.bitfields@.map_values(|b: BitfieldDef| b@),
        }
    }
}

/// A result holds what the model says, or fails as the model says.
pub open spec fn agrees<T: View>(r: Result<T, WireError>, m: Result<T::V, WireError>) -> bool {
    match (r, m) {
        (Ok(x), Ok(y)) => x@ == y,
        (Err(a), Err(b)) => a == b,
        _ => false,
    }
}

/// The first index at or after `i` that holds a NUL, or the end of `s`.
pub open spec fn nul_from(s: Seq<u8>, i: int) -> int
    decreases s.len() - i,
{
    if i >= s.len() || s[i] == 0 {
        i
    } else {
        nul_from(s, i + 1)
    }
}

/// The bytes of `s` before its first NUL.
pub open spec fn until_nul(s: Seq<u8>) -> Seq<u8> {
    s.take(nul_from(s, 0))
}

/// The text of the NUL-padded field of `max` bytes at `off`.
pub open spec fn cstr_at(buf: Seq<u8>, off: int, max: int) -> Result<Seq<char>, WireError> {
    if buf.len() < off + max {
        Err(short(buf, off + max))
    } else {
        let s = until_nul(buf.subrange(off, off + max));
        if valid_utf8(s) {
            Ok(decode_utf8(s))
        } else {
            Err(WireError::BadName)
        }
    }
}

/// The length of `s` up to its first NUL.
pub fn nul_position(s: &[u8]) -> (n: usize)
    ensures
        n <= s@.len(),
        n == nul_from(s@, 0),
{
    let mut i: usize = 0;
    while i < s.len() && s[i] != 0
        invariant
            i <= s@.len(),
            nul_from(s@, 0) == nul_from(s@, i as int),
        decreases s@.len() - i,
    {
        i = i + 1;
    }
    i
}

pub fn read_cstr(buf: &[u8], off: usize, max: usize) -> (r: Result<String, WireError>)
    requires
        off + max <= usize::MAX,
    ensures
        agrees(r, cstr_at(buf@, off as int, max as int)),
{
    match need(buf, off + max) {
        Err(e) => {
            return Err(e);
        },
        Ok(()) => {},
    }
    let field = slice_subrange(buf, off, off + max);
    let end = nul_position(field);
    let text = slice_subrange(field, 0, end);
    assert(text@ =~= until_nul(field@));
    match utf8_text(text) {
        Some(s) => Ok(s),
        None => Err(WireError::BadName),
    }
}

/// The field record at `off`.
pub open spec fn field_def_at(buf: Seq<u8>, off: int) -> Result<FieldView, WireError> {
    match cstr_at(buf, off, NAME_MAX as int) {
        Err(e) => Err(e),
        Ok(name) => if buf.len() < off + 66 {
            Err(short(buf, off + 66))
        } else if buf.len() < off + 68 {
            Err(short(buf, off + 68))
        } else if buf.len() < off + 69 {
            Err(short(buf, off + 69))
        } else {
            match type_of_code(buf[off + 68]) {
                None => Err(WireError::UnknownType(buf[off + 68])),
                Some(ty) => if buf.len() < off + 70 {
                    Err(short(buf, off + 70))
                } else {
                    Ok(
                        FieldView {
                            name,
                            offset: le_at(buf, off + 64, 2) as u16,
                            size: le_at(buf, off + 66, 2) as u16,
                            ty,
                            count: buf[off + 69],
                        },
                    )
                },
            }
        },
    }
}

/// The schema entry record at `pos`.
pub open spec fn entry_def_at(buf: Seq<u8>, pos: int) -> Result<SchemaEntryView, WireError> {
    if buf.len() < pos + 2 {
        Err(short(buf, pos + 2))
    } else if buf.len() < pos + 4 {
        Err(short(buf, pos + 4))
    } else if buf.len() < pos + 6 {
        Err(short(buf, pos + 6))
    } else {
        let count = le_at(buf, pos + 4, 2);
        if count > MAX_FIELDS {
            Err(WireError::TooManyFields(count as u16))
        } else {
            match cstr_at(buf, pos + 6, NAME_MAX as int) {
                Err(e) => Err(e),
                Ok(name) => match cstr_at(buf, pos + 6 + NAME_MAX, DESC_MAX as int) {
                    Err(e) => Err(e),
                    Ok(description) => match collect(
                        |i: int|
                            field_def_at(
                                buf,
                                pos + SCHEMA_WIRE_HEADER_SIZE + i * FIELD_WIRE_SIZE,
                            ),
                        count,
                    ) {
                        Err(e) => Err(e),
                        Ok(fields) => Ok(
                            SchemaEntryView {
                                id: le_at(buf, pos, 2) as u16,
                                name,
                                description,
                                payload_size: le_at(buf, pos + 2, 2) as u16,
                                fields,
                            },
                        ),
                    },
                },
            }
        }
    }
}

/// How many of `n` announced items a record with room for `max` holds.
pub open spec fn at_most(n: nat, max: nat) -> nat {
    if n < max {
        n
    } else {
        max
    }
}

/// The enum record at `pos`.
pub open spec fn enum_def_at(buf: Seq<u8>, pos: int) -> Result<EnumView, WireError> {
    if buf.len() < pos + 2 {
        Err(short(buf, pos + 2))
    } else if buf.len() < pos + 4 {
        Err(short(buf, pos + 4))
    } else if buf.len() < pos + 5 {
        Err(short(buf, pos + 5))
    } else if buf.len() < pos + ENUM_WIRE_SIZE {
        Err(short(buf, pos + ENUM_WIRE_SIZE))
    } else {
        match collect(
            |i: int| cstr_at(buf, pos + 5 + i * ENUM_LABEL_MAX, ENUM_LABEL_MAX as int),
            at_most(buf[pos + 4] as nat, ENUM_MAX_VALUES as nat),
        ) {
            Err(e) => Err(e),
            Ok(labels) => Ok(
                EnumView {
                    schema_id: le_at(buf, pos, 2) as u16,
                    field_index: le_at(buf, pos + 2, 2) as u16,
                    labels,
                },
            ),
        }
    }
}

/// The `i`th bit of the bitfield record at `pos`.
pub open spec fn bit_def_at(buf: Seq<u8>, pos: int, i: int) -> Result<BitView, WireError> {
    match cstr_at(buf, pos + 5 + i * BIT_NAME_MAX, BIT_NAME_MAX as int) {
        Err(e) => Err(e),
        Ok(name) => Ok(
            BitView {
                name,
                start: buf[pos + 5 + BITFIELD_MAX_BITS * BIT_NAME_MAX + i],
                width: buf[pos + 5 + BITFIELD_MAX_BITS * BIT_NAME_MAX + BITFIELD_MAX_BITS + i],
            },
        ),
    }
}

/// The bitfield record at `pos`.
pub open spec fn bitfield_def_at(buf: Seq<u8>, pos: int) -> Result<BitfieldView, WireError> {
    if buf.len() < pos + 2 {
        Err(short(buf, pos + 2))
    } else if buf.len() < pos + 4 {
        Err(short(buf, pos + 4))
    } else if buf.len() < pos + 5 {
        Err(short(buf, pos + 5))
    } else if buf.len() < pos + BITFIELD_WIRE_SIZE {
        Err(short(buf, pos + BITFIELD_WIRE_SIZE))
    } else {
        match collect(
            |i: int| bit_def_at(buf, pos, i),
            at_most(buf[pos + 4] as nat, BITFIELD_MAX_BITS as nat),
        ) {
            Err(e) => Err(e),
            Ok(bits) => Ok(
                BitfieldView {
                    schema_id: le_at(buf, pos, 2) as u16,
                    field_index: le_at(buf, pos + 2, 2) as u16,
                    bits,
                },
            ),
        }
    }
}

/// The counted records of an optional section at `pos`.
pub open spec fn section<T>(
    buf: Seq<u8>,
    pos: int,
    size: int,
    at: spec_fn(int) -> Result<T, WireError>,
) -> Result<Seq<T>, WireError> {
    if pos + 2 <= buf.len() {
        collect(|i: int| at(pos + 2 + i * size), le_at(buf, pos, 2))
    } else {
        Ok(Seq::empty())
    }
}

/// Where the section at `pos` ends.
pub open spec fn section_end(buf: Seq<u8>, pos: int, size: int) -> int {
    if pos + 2 <= buf.len() {
        pos + 2 + le_at(buf, pos, 2) * size
    } else {
        pos
    }
}

/// What the bytes of a schema blob decode to.
pub open spec fn schema_of(buf: Seq<u8>) -> Result<SchemaView, WireError> {
    if buf.len() < 1 {
        Err(short(buf, 1))
    } else if buf[0] != 0 {
        Err(WireError::BadEndian(buf[0]))
    } else if buf.len() < SCHEMA_HEADER_SIZE {
        Err(short(buf, SCHEMA_HEADER_SIZE as int))
    } else {
        let n = le_at(buf, 1, 2);
        let enums_at = SCHEMA_HEADER_SIZE + n * SCHEMA_WIRE_SIZE;
        let bits_at = section_end(buf, enums_at, ENUM_WIRE_SIZE as int);
        if n > MAX_SCHEMA_ENTRIES {
            Err(WireError::TooManyEntries(n as u16))
        } else {
            match collect(
                |i: int| entry_def_at(buf, SCHEMA_HEADER_SIZE + i * SCHEMA_WIRE_SIZE),
                n,
            ) {
                Err(e) => Err(e),
                Ok(entries) => match section(
                    buf,
                    enums_at,
                    ENUM_WIRE_SIZE as int,
                    |p: int| enum_def_at(buf, p),
                ) {
                    Err(e) => Err(e),
                    Ok(enums) => match section(
                        buf,
                        bits_at,
                        BITFIELD_WIRE_SIZE as int,
                        |p: int| bitfield_def_at(buf, p),
                    ) {
                        Err(e) => Err(e),
                        Ok(bitfields) => Ok(SchemaView { entries, enums, bitfields }),
                    },
                },
            }
        }
    }
}

fn decode_field(buf: &[u8], off: usize) -> (r: Result<FieldDef, WireError>)
    requires
        off + FIELD_WIRE_SIZE <= usize::MAX,
    ensures
        agrees(r, field_def_at(buf@, off as int)),
{
    let name = match read_cstr(buf, off, NAME_MAX) {
        Err(e) => {
            return Err(e);
        },
        Ok(v) => v,
    };
    let offset: u16 = match read_u16(buf, off + NAME_MAX) {
        Err(e) => {
            return Err(e);
        },
        Ok(v) => v,
    };
    let size: u16 = match read_u16(buf, off + NAME_MAX + 2) {
        Err(e) => {
            return Err(e);
        },
        Ok(v) => v,
    };
    let code: u8 = match read_u8(buf, off + NAME_MAX + 4) {
        Err(e) => {
            return Err(e);
        },
        Ok(v) => v,
    };
    let ty = match FieldType::from_u8(code) {
        Err(e) => {
            return Err(e);
        },
        Ok(v) => v,
    };
    let count: u8 = match read_u8(buf, off + NAME_MAX + 5) {
        Err(e) => {
            return Err(e);
        },
        Ok(v) => v,
    };
    Ok(FieldDef { name, offset, size, ty, count })
}

pub fn decode_schema_entry(buf: &[u8], pos: usize) -> (r: Result<SchemaEntry, WireError>)
    requires
        pos + SCHEMA_WIRE_SIZE <= usize::MAX,
    ensures
        agrees(r, entry_def_at(buf@, pos as int)),
{
    let id: u16 = match read_u16(buf, pos) {
        Err(e) => {
            return Err(e);
        },
        Ok(v) => v,
    };
    let payload_size: u16 = match read_u16(buf, pos + 2) {
        Err(e) => {
            return Err(e);
        },
        Ok(v) => v,
    };
    let count: u16 = match read_u16(buf, pos + 4) {
        Err(e) => {
            return Err(e);
        },
        Ok(v) => v,
    };
    let n: usize = count as usize;
    if n > MAX_FIELDS {
        return Err(WireError::TooManyFields(count));
    }
    let name = match read_cstr(buf, pos + 6, NAME_MAX) {
        Err(e) => {
            return Err(e);
        },
        Ok(v) => v,
    };
    let description = match read_cstr(buf, pos + 6 + NAME_MAX, DESC_MAX) {
        Err(e) => {
            return Err(e);
        },
        Ok(v) => v,
    };
    let base: usize = pos + SCHEMA_WIRE_HEADER_SIZE;
    let ghost f = |i: int|
        field_def_at(buf@, pos + SCHEMA_WIRE_HEADER_SIZE + i * FIELD_WIRE_SIZE);
    let mut fields: Vec<FieldDef> = Vec::new();
    let mut i: usize = 0;
    assert(fields@.map_values(|x: FieldDef| x@) =~= Seq::<FieldView>::empty());
    while i < n
        invariant
            i <= n <= MAX_FIELDS,
            base == pos + SCHEMA_WIRE_HEADER_SIZE,
            pos + SCHEMA_WIRE_SIZE <= usize::MAX,
            f == (|i: int|
                field_def_at(buf@, pos + SCHEMA_WIRE_HEADER_SIZE + i * FIELD_WIRE_SIZE)),
            collect(f, i as nat) == Ok::<Seq<FieldView>, WireError>(
                fields@.map_values(|x: FieldDef| x@),
            ),
            collect(f, n as nat) matches Err(e) ==> entry_def_at(buf@, pos as int) == Err::<
                SchemaEntryView,
                WireError,
            >(e),
        decreases n - i,
    {
        match decode_field(buf, base + i * FIELD_WIRE_SIZE) {
            Err(e) => {
                proof {
                    assert(f(i as int) == Err::<FieldView, WireError>(e));
                    lemma_collect_err(f, (i + 1) as nat, n as nat, e);
                }
                return Err(e);
            },
            Ok(x) => {
                proof {
                    assert(f(i as int) == Ok::<FieldView, WireError>(x@));
                    assert(fields@.push(x).map_values(|x: FieldDef| x@) =~= fields@.map_values(
                        |x: FieldDef| x@,
                    ).push(x@));
                }
                fields.push(x);
            },
        }
        i = i + 1;
    }
    Ok(SchemaEntry { id, name, description, payload_size, fields })
}

pub fn decode_enum(buf: &[u8], pos: usize) -> (r: Result<EnumDef, WireError>)
    requires
        pos + ENUM_WIRE_SIZE <= usize::MAX,
    ensures
        agrees(r, enum_def_at(buf@, pos as int)),
{
    let schema_id: u16 = match read_u16(buf, pos) {
        Err(e) => {
            return Err(e);
        },
        Ok(v) => v,
    };
    let field_index: u16 = match read_u16(buf, pos + 2) {
        Err(e) => {
            return Err(e);
        },
        Ok(v) => v,
    };
    let announced: u8 = match read_u8(buf, pos + 4) {
        Err(e) => {
            return Err(e);
        },
        Ok(v) => v,
    };
    match need(buf, pos + ENUM_WIRE_SIZE) {
        Err(e) => {
            return Err(e);
        },
        Ok(()) => {},
    }
    let n: usize = if (announced as usize) < ENUM_MAX_VALUES {
        announced as usize
    } else {
        ENUM_MAX_VALUES
    };
    let ghost f = |i: int|
        cstr_at(buf@, pos + 5 + i * ENUM_LABEL_MAX, ENUM_LABEL_MAX as int);
    let mut labels: Vec<String> = Vec::new();
    let mut i: usize = 0;
    assert(labels@.map_values(|x: String| x@) =~= Seq::<Seq<char>>::empty());
    while i < n
        invariant
            i <= n <= ENUM_MAX_VALUES,
            pos + ENUM_WIRE_SIZE <= buf@.len(),
            pos + ENUM_WIRE_SIZE <= usize::MAX,
            f == (|i: int| cstr_at(buf@, pos + 5 + i * ENUM_LABEL_MAX, ENUM_LABEL_MAX as int)),
            collect(f, i as nat) == Ok::<Seq<Seq<char>>, WireError>(
                labels@.map_values(|x: String| x@),
            ),
            collect(f, n as nat) matches Err(e) ==> enum_def_at(buf@, pos as int) == Err::<
                EnumView,
                WireError,
            >(e),
        decreases n - i,
    {
        match read_cstr(buf, pos + 5 + i * ENUM_LABEL_MAX, ENUM_LABEL_MAX) {
            Err(e) => {
                proof {
                    assert(f(i as int) == Err::<Seq<char>, WireError>(e));
                    lemma_collect_err(f, (i + 1) as nat, n as nat, e);
                }
                return Err(e);
            },
            Ok(x) => {
                proof {
                    assert(f(i as int) == Ok::<Seq<char>, WireError>(x@));
                    assert(labels@.push(x).map_values(|x: String| x@) =~= labels@.map_values(
                        |x: String| x@,
                    ).push(x@));
                }
                labels.push(x);
            },
        }
        i = i + 1;
    }
    Ok(EnumDef { schema_id, field_index, labels })
}

pub fn decode_bitfield(buf: &[u8], pos: usize) -> (r: Result<BitfieldDef, WireError>)
    requires
        pos + BITFIELD_WIRE_SIZE <= usize::MAX,
    ensures
        agrees(r, bitfield_def_at(buf@, pos as int)),
{
    let schema_id: u16 = match read_u16(buf, pos) {
        Err(e) => {
            return Err(e);
        },
        Ok(v) => v,
    };
    let field_index: u16 = match read_u16(buf, pos + 2) {
        Err(e) => {
            return Err(e);
        },
        Ok(v) => v,
    };
    let announced: u8 = match read_u8(buf, pos + 4) {
        Err(e) => {
            return Err(e);
        },
        Ok(v) => v,
    };
    match need(buf, pos + BITFIELD_WIRE_SIZE) {
        Err(e) => {
            return Err(e);
        },
        Ok(()) => {},
    }
    let n: usize = if (announced as usize) < BITFIELD_MAX_BITS {
        announced as usize
    } else {
        BITFIELD_MAX_BITS
    };
    let starts: usize = pos + 5 + BITFIELD_MAX_BITS * BIT_NAME_MAX;
    let widths: usize = starts + BITFIELD_MAX_BITS;
    let ghost f = |i: int| bit_def_at(buf@, pos as int, i);
    let mut bits: Vec<BitDef> = Vec::new();
    let mut i: usize = 0;
    assert(bits@.map_values(|x: BitDef| x@) =~= Seq::<BitView>::empty());
    while i < n
        invariant
            i <= n <= BITFIELD_MAX_BITS,
            pos + BITFIELD_WIRE_SIZE <= buf@.len(),
            pos + BITFIELD_WIRE_SIZE <= usize::MAX,
            starts == pos + 5 + BITFIELD_MAX_BITS * BIT_NAME_MAX,
            widths == starts + BITFIELD_MAX_BITS,
            f == (|i: int| bit_def_at(buf@, pos as int, i)),
            collect(f, i as nat) == Ok::<Seq<BitView>, WireError>(
                bits@.map_values(|x: BitDef| x@),
            ),
            collect(f, n as nat) matches Err(e) ==> bitfield_def_at(buf@, pos as int) == Err::<
                BitfieldView,
                WireError,
            >(e),
        decreases n - i,
    {
        match read_cstr(buf, pos + 5 + i * BIT_NAME_MAX, BIT_NAME_MAX) {
            Err(e) => {
                proof {
                    assert(f(i as int) == Err::<BitView, WireError>(e));
                    lemma_collect_err(f, (i + 1) as nat, n as nat, e);
                }
                return Err(e);
            },
            Ok(name) => {
                let x = BitDef { name, start: buf[starts + i], width: buf[widths + i] };
                proof {
                    assert(f(i as int) == Ok::<BitView, WireError>(x@));
                    assert(bits@.push(x).map_values(|x: BitDef| x@) =~= bits@.map_values(
                        |x: BitDef| x@,
                    ).push(x@));
                }
                bits.push(x);
            },
        }
        i = i + 1;
    }
    Ok(BitfieldDef { schema_id, field_index, bits })
}

impl Schema {
    /// Decodes a serialised schema blob: the bytes that follow the length prefix
    /// on the wire.
    pub fn decode(buf: &[u8]) -> (r: Result<Self, WireError>)
        ensures
            agrees(r, schema_of(buf@)),
    {
        let endian: u8 = match read_u8(buf, 0) {
            Err(e) => {
                return Err(e);
            },
            Ok(v) => v,
        };
        if endian != 0 {
            return Err(WireError::BadEndian(endian));
        }
        let entry_count: u16 = match read_u16(buf, 1) {
            Err(e) => {
                return Err(e);
            },
            Ok(v) => v,
        };
        let n: usize = entry_count as usize;
        if n > MAX_SCHEMA_ENTRIES {
            return Err(WireError::TooManyEntries(entry_count));
        }
        let entries = match decode_entries(buf, SCHEMA_HEADER_SIZE, n) {
            Err(e) => {
                return Err(e);
            },
            Ok(v) => v,
        };
        let enums_at: usize = SCHEMA_HEADER_SIZE + n * SCHEMA_WIRE_SIZE;
        let enums = match enum_section(buf, enums_at) {
            Err(e) => {
                return Err(e);
            },
            Ok(v) => v,
        };
        let bits_at = skip_section(buf, enums_at, ENUM_WIRE_SIZE);
        let bitfields = match bitfield_section(buf, bits_at) {
            Err(e) => {
                return Err(e);
            },
            Ok(v) => v,
        };
        Ok(Schema { entries, enums, bitfields })
    }

    /// Finds an entry by id.
    pub fn entry(&self, id: u16) -> (r: Option<&SchemaEntry>)
        ensures
            match r {
                Some(e) => exists|i: int|
                    0 <= i < self.entries@.len() && #[trigger] self.entries@[i] == *e && e.id == id
                        && (forall|j: int| 0 <= j < i ==> (#[trigger] self.entries@[j]).id != id),
                None => forall|i: int|
                    0 <= i < self.entries@.len() ==> (#[trigger] self.entries@[i]).id != id,
            },
    {
        let mut i: usize = 0;
        while i < self.entries.len()
            invariant
                i <= self.entries@.len(),
                forall|j: int| 0 <= j < i ==> (#[trigger] self.entries@[j]).id != id,
            decreases self.entries@.len() - i,
        {
            if self.entries[i].id == id {
                return Some(&self.entries[i]);
            }
            i = i + 1;
        }
        None
    }

    /// Looks up the enum labels of a field.
    pub fn enum_labels(&self, schema_id: u16, field_index: u16) -> (r: Option<&[String]>)
        ensures
            match r {
                Some(l) => exists|i: int|
                    0 <= i < self.enums@.len() && (#[trigger] self.enums@[i]).labels@ == l@
                        && self.enums@[i].is_for(schema_id, field_index) && (forall|j: int|
                        0 <= j < i ==> !(#[trigger] self.enums@[j]).is_for(
                            schema_id,
                            field_index,
                        )),
                None => forall|i: int|
                    0 <= i < self.enums@.len() ==> !(#[trigger] self.enums@[i]).is_for(
                        schema_id,
                        field_index,
                    ),
            },
    {
        let mut i: usize = 0;
        while i < self.enums.len()
            invariant
                i <= self.enums@.len(),
                forall|j: int|
                    0 <= j < i ==> !(#[trigger] self.enums@[j]).is_for(schema_id, field_index),
            decreases self.enums@.len() - i,
        {
            if self.enums[i].schema_id == schema_id && self.enums[i].field_index == field_index {
                return Some(self.enums[i].labels.as_slice());
            }
            i = i + 1;
        }
        None
    }

    /// Looks up the bitfield definition of a field.
    pub fn bitfield(&self, schema_id: u16, field_index: u16) -> (r: Option<&BitfieldDef>)
        ensures
            match r {
                Some(b) => exists|i: int|
                    0 <= i < self.bitfields@.len() && #[trigger] self.bitfields@[i] == *b
                        && b.is_for(schema_id, field_index) && (forall|j: int|
                        0 <= j < i ==> !(#[trigger] self.bitfields@[j]).is_for(
                            schema_id,
                            field_index,
                        )),
                None => forall|i: int|
                    0 <= i < self.bitfields@.len() ==> !(#[trigger] self.bitfields@[i]).is_for(
                        schema_id,
                        field_index,
                    ),
            },
    {
        let mut i: usize = 0;
        while i < self.bitfields.len()
            invariant
                i <= self.bitfields@.len(),
                forall|j: int|
                    0 <= j < i ==> !(#[trigger] self.bitfields@[j]).is_for(
                        schema_id,
                        field_index,
                    ),
            decreases self.bitfields@.len() - i,
        {
            if self.bitfields[i].schema_id == schema_id && self.bitfields[i].field_index
                == field_index {
                return Some(&self.bitfields[i]);
            }
            i = i + 1;
        }
        None
    }
}

impl EnumDef {
    /// Whether the labels are those of the given field.
    pub open spec fn is_for(self, schema_id: u16, field_index: u16) -> bool {
        self.schema_id == schema_id && self.field_index == field_index
    }
}

impl BitfieldDef {
    /// Whether the bits are those of the given field.
    pub open spec fn is_for(self, schema_id: u16, field_index: u16) -> bool {
        self.schema_id == schema_id && self.field_index == field_index
    }
}

/// Where the section at `pos` ends.
fn skip_section(buf: &[u8], pos: usize, size: usize) -> (end: usize)
    requires
        pos <= 0x100_0000,
        size <= ENUM_WIRE_SIZE,
    ensures
        end == section_end(buf@, pos as int, size as int),
        end <= 0x1000_0000,
{
    proof {
        crate::bytes::lemma_le_limits();
    }
    if pos + 2 <= buf.len() {
        let n: usize = read_le(buf, pos, 2) as usize;
        assert(n * size <= 0xffff * 2053) by (nonlinear_arith)
            requires
                n <= 0xffff,
                size <= 2053,
        ;
        pos + 2 + n * size
    } else {
        pos
    }
}

/// The records of the optional enum section at `pos`.
fn enum_section(buf: &[u8], pos: usize) -> (r: Result<Vec<EnumDef>, WireError>)
    requires
        pos <= 0x1000_0000,
    ensures
        match (r, section(buf@, pos as int, ENUM_WIRE_SIZE as int, |p: int| enum_def_at(buf@, p))) {
            (Ok(v), Ok(m)) => v@.map_values(|x: EnumDef| x@) == m,
            (Err(a), Err(b)) => a == b,
            _ => false,
        },
{
    if pos + 2 <= buf.len() {
        proof {
            crate::bytes::lemma_le_limits();
            let at = |p: int| enum_def_at(buf@, p);
            assert((|i: int| at(pos + 2 + i * ENUM_WIRE_SIZE)) =~= (|i: int|
                enum_def_at(buf@, pos + 2 + i * ENUM_WIRE_SIZE)));
        }
        let n: usize = read_le(buf, pos, 2) as usize;
        decode_enums(buf, pos + 2, n)
    } else {
        let none: Vec<EnumDef> = Vec::new();
        assert(none@.map_values(|x: EnumDef| x@) =~= Seq::<EnumView>::empty());
        Ok(none)
    }
}

/// The records of the optional bitfield section at `pos`.
fn bitfield_section(buf: &[u8], pos: usize) -> (r: Result<Vec<BitfieldDef>, WireError>)
    requires
        pos <= 0x1000_0000,
    ensures
        match (r, section(buf@, pos as int, BITFIELD_WIRE_SIZE as int, |p: int| bitfield_def_at(buf@, p))) {
            (Ok(v), Ok(m)) => v@.map_values(|x: BitfieldDef| x@) == m,
            (Err(a), Err(b)) => a == b,
            _ => false,
        },
{
    if pos + 2 <= buf.len() {
        proof {
            crate::bytes::lemma_le_limits();
            let at = |p: int| bitfield_def_at(buf@, p);
            assert((|i: int| at(pos + 2 + i * BITFIELD_WIRE_SIZE)) =~= (|i: int|
                bitfield_def_at(buf@, pos + 2 + i * BITFIELD_WIRE_SIZE)));
        }
        let n: usize = read_le(buf, pos, 2) as usize;
        decode_bitfields(buf, pos + 2, n)
    } else {
        let none: Vec<BitfieldDef> = Vec::new();
        assert(none@.map_values(|x: BitfieldDef| x@) =~= Seq::<BitfieldView>::empty());
        Ok(none)
    }
}

/// `n` schema entry records from `pos` on.
fn decode_entries(buf: &[u8], pos: usize, n: usize) -> (r: Result<Vec<SchemaEntry>, WireError>)
    requires
        pos <= 0x1000_0002,
        n <= 0xffff,
    ensures
        match (r, collect(|i: int| entry_def_at(buf@, pos + i * SCHEMA_WIRE_SIZE), n as nat)) {
            (Ok(v), Ok(m)) => v@.map_values(|x: SchemaEntry| x@) == m,
            (Err(a), Err(b)) => a == b,
            _ => false,
        },
{
    let ghost f = |i: int| entry_def_at(buf@, pos + i * SCHEMA_WIRE_SIZE);
    let mut out: Vec<SchemaEntry> = Vec::new();
    let mut i: usize = 0;
    assert(out@.map_values(|x: SchemaEntry| x@) =~= Seq::<SchemaEntryView>::empty());
    while i < n
        invariant
            i <= n <= 0xffff,
            pos <= 0x1000_0002,
            f == (|i: int| entry_def_at(buf@, pos + i * SCHEMA_WIRE_SIZE)),
            collect(f, i as nat) == Ok::<Seq<SchemaEntryView>, WireError>(
                out@.map_values(|x: SchemaEntry| x@),
            ),
        decreases n - i,
    {
        match decode_schema_entry(buf, pos + i * SCHEMA_WIRE_SIZE) {
            Err(e) => {
                proof {
                    assert(f(i as int) == Err::<SchemaEntryView, WireError>(e));
                    lemma_collect_err(f, (i + 1) as nat, n as nat, e);
                }
                return Err(e);
            },
            Ok(x) => {
                proof {
                    assert(f(i as int) == Ok::<SchemaEntryView, WireError>(x@));
                    assert(out@.push(x).map_values(|x: SchemaEntry| x@) =~= out@.map_values(
                        |x: SchemaEntry| x@,
                    ).push(x@));
                }
                out.push(x);
            },
        }
        i = i + 1;
    }
    Ok(out)
}

/// `n` enum records from `pos` on.
fn decode_enums(buf: &[u8], pos: usize, n: usize) -> (r: Result<Vec<EnumDef>, WireError>)
    requires
        pos <= 0x1000_0002,
        n <= 0xffff,
    ensures
        match (r, collect(|i: int| enum_def_at(buf@, pos + i * ENUM_WIRE_SIZE), n as nat)) {
            (Ok(v), Ok(m)) => v@.map_values(|x: EnumDef| x@) == m,
            (Err(a), Err(b)) => a == b,
            _ => false,
        },
{
    let ghost f = |i: int| enum_def_at(buf@, pos + i * ENUM_WIRE_SIZE);
    let mut out: Vec<EnumDef> = Vec::new();
    let mut i: usize = 0;
    assert(out@.map_values(|x: EnumDef| x@) =~= Seq::<EnumView>::empty());
    while i < n
        invariant
            i <= n <= 0xffff,
            pos <= 0x1000_0002,
            f == (|i: int| enum_def_at(buf@, pos + i * ENUM_WIRE_SIZE)),
            collect(f, i as nat) == Ok::<Seq<EnumView>, WireError>(
                out@.map_values(|x: EnumDef| x@),
            ),
        decreases n - i,
    {
        match decode_enum(buf, pos + i * ENUM_WIRE_SIZE) {
            Err(e) => {
                proof {
                    assert(f(i as int) == Err::<EnumView, WireError>(e));
                    lemma_collect_err(f, (i + 1) as nat, n as nat, e);
                }
                return Err(e);
            },
            Ok(x) => {
                proof {
                    assert(f(i as int) == Ok::<EnumView, WireError>(x@));
                    assert(out@.push(x).map_values(|x: EnumDef| x@) =~= out@.map_values(
                        |x: EnumDef| x@,
                    ).push(x@));
                }
                out.push(x);
            },
        }
        i = i + 1;
    }
    Ok(out)
}

/// `n` bitfield records from `pos` on.
fn decode_bitfields(buf: &[u8], pos: usize, n: usize) -> (r: Result<Vec<BitfieldDef>, WireError>)
    requires
        pos <= 0x1000_0002,
        n <= 0xffff,
    ensures
        match (r, collect(|i: int| bitfield_def_at(buf@, pos + i * BITFIELD_WIRE_SIZE), n as nat)) {
            (Ok(v), Ok(m)) => v@.map_values(|x: BitfieldDef| x@) == m,
            (Err(a), Err(b)) => a == b,
            _ => false,
        },
{
    let ghost f = |i: int| bitfield_def_at(buf@, pos + i * BITFIELD_WIRE_SIZE);
    let mut out: Vec<BitfieldDef> = Vec::new();
    let mut i: usize = 0;
    assert(out@.map_values(|x: BitfieldDef| x@) =~= Seq::<BitfieldView>::empty());
    while i < n
        invariant
            i <= n <= 0xffff,
            pos <= 0x1000_0002,
            f == (|i: int| bitfield_def_at(buf@, pos + i * BITFIELD_WIRE_SIZE)),
            collect(f, i as nat) == Ok::<Seq<BitfieldView>, WireError>(
                out@.map_values(|x: BitfieldDef| x@),
            ),
        decreases n - i,
    {
        match decode_bitfield(buf, pos + i * BITFIELD_WIRE_SIZE) {
            Err(e) => {
                proof {
                    assert(f(i as int) == Err::<BitfieldView, WireError>(e));
                    lemma_collect_err(f, (i + 1) as nat, n as nat, e);
                }
                return Err(e);
            },
            Ok(x) => {
                proof {
                    assert(f(i as int) == Ok::<BitfieldView, WireError>(x@));
                    assert(out@.push(x).map_values(|x: BitfieldDef| x@) =~= out@.map_values(
                        |x: BitfieldDef| x@,
                    ).push(x@));
                }
                out.push(x);
            },
        }
        i = i + 1;
    }
    Ok(out)
}

} // verus!
