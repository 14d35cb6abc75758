//! How schemas and packets are laid out in bytes, and that decoding undoes it.

use vstd::prelude::*;
use vstd::utf8::{encode_utf8, encode_utf8_decode_utf8, encode_utf8_valid_utf8};

verus! {

use crate::bytes::{le_at, le_bytes, lemma_le_bytes_len, lemma_le_limits, lemma_le_round_trip};
use crate::schema::{
    bit_def_at, bitfield_def_at, cstr_at, entry_def_at, enum_def_at, field_def_at, nul_from,
    schema_of, section, section_end, until_nul, BitView, BitfieldView, EnumView, FieldType,
    FieldView, SchemaEntryView, SchemaView,
};
use crate::wire::{
    collect, entry_of, header_of, lemma_collect_ok, packet_of, payload_base, EntryView,
    PacketHeader, PacketView, WireError,
};

/// `n` zero bytes.
pub open spec fn zeros(n: nat) -> Seq<u8> {
    Seq::new(n, |i: int| 0u8)
}

/// Whether a text can stand in a field of `max` bytes: it is not too long and holds no
/// NUL.
pub open spec fn fits_text(s: Seq<char>, max: nat) -> bool {
    &&& encode_utf8(s).len() <= max
    &&& forall|i: int| 0 <= i < encode_utf8(s).len() ==> #[trigger] encode_utf8(s)[i] != 0
}

/// A text in a field of `max` bytes, filled up with NULs.
pub open spec fn text_bytes(s: Seq<char>, max: nat) -> Seq<u8> {
    encode_utf8(s) + zeros((max - encode_utf8(s).len()) as nat)
}

/// `n` records one behind another.
pub open spec fn laid(n: nat, f: spec_fn(int) -> Seq<u8>) -> Seq<u8>
    decreases n,
{
    if n == 0 {
        Seq::empty()
    } else {
        laid((n - 1) as nat, f) + f(n - 1)
    }
}

/// The wire code of a type.
pub open spec fn code_of(ty: FieldType) -> u8 {
    match ty {
        FieldType::U8 => 0,
        FieldType::U16 => 1,
        FieldType::U32 => 2,
        FieldType::U64 => 3,
        FieldType::I8 => 4,
        FieldType::I16 => 5,
        FieldType::I32 => 6,
        FieldType::I64 => 7,
        FieldType::F32 => 8,
        FieldType::F64 => 9,
        FieldType::Bool => 10,
        FieldType::Bytes => 11,
        FieldType::Enum => 12,
        FieldType::Bitfield => 13,
        FieldType::String => 14,
    }
}

/// A field record: name, offset, size, type and count.
pub open spec fn field_bytes(f: FieldView) -> Seq<u8> {
    text_bytes(f.name, 64) + le_bytes(f.offset as nat, 2) + le_bytes(f.size as nat, 2) + seq![
        code_of(f.ty),
    ] + seq![f.count]
}

/// Whether a field can be laid out.
pub open spec fn fits_field(f: FieldView) -> bool {
    fits_text(f.name, 64) && f.ty != FieldType::String
}

/// An entry record: id, payload size, field count, name, description, and room for
/// sixteen fields.
pub open spec fn entry_bytes(e: SchemaEntryView) -> Seq<u8> {
    le_bytes(e.id as nat, 2) + le_bytes(e.payload_size as nat, 2) + le_bytes(e.fields.len(), 2)
        + text_bytes(e.name, 64) + text_bytes(e.description, 128) + laid(
        e.fields.len(),
        |i: int| field_bytes(e.fields[i]),
    ) + zeros(((16 - e.fields.len()) * 70) as nat)
}

/// Whether an entry can be laid out.
pub open spec fn fits_entry(e: SchemaEntryView) -> bool {
    &&& e.fields.len() <= 16
    &&& fits_text(e.name, 64)
    &&& fits_text(e.description, 128)
    &&& forall|i: int| 0 <= i < e.fields.len() ==> fits_field(#[trigger] e.fields[i])
}

/// An enum record: schema id, field index, label count, and room for 64 labels.
pub open spec fn enum_bytes(e: EnumView) -> Seq<u8> {
    le_bytes(e.schema_id as nat, 2) + le_bytes(e.field_index as nat, 2) + seq![
        e.labels.len() as u8,
    ] + laid(e.labels.len(), |i: int| text_bytes(e.labels[i], 32)) + zeros(
        ((64 - e.labels.len()) * 32) as nat,
    )
}

/// Whether labels can be laid out.
pub open spec fn fits_enum(e: EnumView) -> bool {
    &&& e.labels.len() <= 64
    &&& forall|i: int| 0 <= i < e.labels.len() ==> fits_text(#[trigger] e.labels[i], 32)
}

/// A bitfield record: schema id, field index, bit count, and room for 32 names, 32 start
/// bits and 32 widths.
pub open spec fn bitfield_bytes(b: BitfieldView) -> Seq<u8> {
    let rest = (32 - b.bits.len()) as nat;
    le_bytes(b.schema_id as nat, 2) + le_bytes(b.field_index as nat, 2) + seq![
        b.bits.len() as u8,
    ] + laid(b.bits.len(), |i: int| text_bytes(b.bits[i].name, 32)) + zeros(rest * 32)
        + b.bits.map_values(|x: BitView| x.start) + zeros(rest) + b.bits.map_values(
        |x: BitView| x.width,
    ) + zeros(rest)
}

/// Whether bits can be laid out.
pub open spec fn fits_bitfield(b: BitfieldView) -> bool {
    &&& b.bits.len() <= 32
    &&& forall|i: int| 0 <= i < b.bits.len() ==> fits_text((#[trigger] b.bits[i]).name, 32)
}

/// A schema without its labels and bits, as it begins: endianness, entry count, entries.
pub open spec fn schema_head_bytes(entries: Seq<SchemaEntryView>) -> Seq<u8> {
    seq![0u8] + le_bytes(entries.len(), 2) + laid(
        entries.len(),
        |i: int| entry_bytes(entries[i]),
    )
}

/// The section of the labels: their count and the records.
pub open spec fn enums_bytes(enums: Seq<EnumView>) -> Seq<u8> {
    le_bytes(enums.len(), 2) + laid(enums.len(), |i: int| enum_bytes(enums[i]))
}

/// The section of the bits: their count and the records.
pub open spec fn bitfields_bytes(b: Seq<BitfieldView>) -> Seq<u8> {
    le_bytes(b.len(), 2) + laid(b.len(), |i: int| bitfield_bytes(b[i]))
}

/// A schema blob.
pub open spec fn schema_bytes(s: SchemaView) -> Seq<u8> {
    schema_head_bytes(s.entries) + enums_bytes(s.enums) + bitfields_bytes(s.bitfields)
}

/// Whether a schema can be laid out.
pub open spec fn fits_schema(s: SchemaView) -> bool {
    &&& s.entries.len() <= 256
    &&& s.enums.len() <= 0xffff
    &&& s.bitfields.len() <= 0xffff
    &&& forall|i: int| 0 <= i < s.entries.len() ==> fits_entry(#[trigger] s.entries[i])
    &&& forall|i: int| 0 <= i < s.enums.len() ==> fits_enum(#[trigger] s.enums[i])
    &&& forall|i: int| 0 <= i < s.bitfields.len() ==> fits_bitfield(#[trigger] s.bitfields[i])
}

pub proof fn lemma_laid(n: nat, f: spec_fn(int) -> Seq<u8>, size: nat)
    requires
        forall|i: int| 0 <= i < n ==> (#[trigger] f(i)).len() == size,
    ensures
        laid(n, f).len() == n * size,
    decreases n,
{
    if n > 0 {
        lemma_laid((n - 1) as nat, f, size);
        assert(n * size == (n - 1) * size + size) by (nonlinear_arith)
            requires
                n > 0,
        ;
    } else {
        assert(n * size == 0) by (nonlinear_arith)
            requires
                n == 0,
        ;
    }
}

pub proof fn lemma_laid_part(n: nat, f: spec_fn(int) -> Seq<u8>, size: nat, i: int)
    requires
        forall|i: int| 0 <= i < n ==> (#[trigger] f(i)).len() == size,
        0 <= i < n,
    ensures
        0 <= i * size,
        i * size + size <= n * size == laid(n, f).len(),
        laid(n, f).subrange(i * size, i * size + size) == f(i),
    decreases n,
{
    lemma_laid(n, f, size);
    lemma_laid((n - 1) as nat, f, size);
    assert(n * size == (n - 1) * size + size) by (nonlinear_arith)
        requires
            n > 0,
    ;
    assert(0 <= i * size) by (nonlinear_arith)
        requires
            0 <= i,
            0 <= size,
    ;
    let head = laid((n - 1) as nat, f);
    if i == n - 1 {
        assert(laid(n, f).subrange(i * size, i * size + size) =~= f(i));
    } else {
        lemma_laid_part((n - 1) as nat, f, size, i);
        assert(laid(n, f).subrange(i * size, i * size + size) =~= head.subrange(
            i * size,
            i * size + size,
        ));
    }
}

/// Records that read as the members of `s` are collected as `s`.
proof fn lemma_collected<T>(g: spec_fn(int) -> Result<T, WireError>, s: Seq<T>)
    requires
        forall|i: int| 0 <= i < s.len() ==> #[trigger] g(i) == Ok::<T, WireError>(s[i]),
    ensures
        collect(g, s.len()) == Ok::<Seq<T>, WireError>(s),
{
    lemma_collect_ok(g, s.len());
    let r = collect(g, s.len())->Ok_0;
    assert forall|i: int| 0 <= i < s.len() implies r[i] == s[i] by {
        assert(g(i) == Ok::<T, WireError>(r[i]));
    }
    assert(r =~= s);
}

/// The `i`th of the records that a buffer holds from `pos` on.
proof fn lemma_laid_read(
    buf: Seq<u8>,
    pos: int,
    n: nat,
    f: spec_fn(int) -> Seq<u8>,
    size: nat,
    i: int,
)
    requires
        forall|i: int| 0 <= i < n ==> (#[trigger] f(i)).len() == size,
        0 <= i < n,
        0 <= pos,
        pos + laid(n, f).len() <= buf.len(),
        buf.subrange(pos, pos + laid(n, f).len()) == laid(n, f),
    ensures
        0 <= i * size,
        pos + i * size + size <= buf.len(),
        buf.subrange(pos + i * size, pos + i * size + size) == f(i),
{
    lemma_laid_part(n, f, size, i);
    lemma_part(buf, pos, laid(n, f), i * size, i * size + size);
}

proof fn lemma_nul_at(s: Seq<u8>, i: int, k: int)
    requires
        0 <= i <= k <= s.len(),
        forall|j: int| i <= j < k ==> #[trigger] s[j] != 0,
        k == s.len() || s[k] == 0,
    ensures
        nul_from(s, i) == k,
    decreases k - i,
{
    if i < k {
        lemma_nul_at(s, i + 1, k);
    }
}

/// A text that stands in a field is read from it.
proof fn lemma_text_read(buf: Seq<u8>, off: int, s: Seq<char>, max: nat)
    requires
        fits_text(s, max),
        0 <= off,
        off + max <= buf.len(),
        buf.subrange(off, off + max) == text_bytes(s, max),
    ensures
        cstr_at(buf, off, max as int) == Ok::<Seq<char>, WireError>(s),
{
    let field = text_bytes(s, max);
    let text = encode_utf8(s);
    lemma_nul_at(field, 0, text.len() as int);
    assert(until_nul(field) =~= text);
    encode_utf8_valid_utf8(s);
    encode_utf8_decode_utf8(s);
}

/// A part of a record that stands in a buffer.
pub proof fn lemma_part(buf: Seq<u8>, pos: int, rec: Seq<u8>, a: int, b: int)
    requires
        0 <= pos,
        0 <= a <= b <= rec.len(),
        pos + rec.len() <= buf.len(),
        buf.subrange(pos, pos + rec.len()) == rec,
    ensures
        buf.subrange(pos + a, pos + b) == rec.subrange(a, b),
{
    assert(buf.subrange(pos + a, pos + b) =~= buf.subrange(pos, pos + rec.len()).subrange(a, b));
}

/// A number that stands in a record of a buffer is read from it.
pub proof fn lemma_number_read(buf: Seq<u8>, pos: int, rec: Seq<u8>, a: int, v: nat, w: nat)
    requires
        0 <= pos,
        0 <= a,
        a + w <= rec.len(),
        pos + rec.len() <= buf.len(),
        buf.subrange(pos, pos + rec.len()) == rec,
        rec.subrange(a, a + w) == le_bytes(v, w),
        v < crate::bytes::le_limit(w),
    ensures
        le_at(buf, pos + a, w as int) == v,
{
    lemma_part(buf, pos, rec, a, a + w);
    lemma_le_round_trip(v, w);
}

proof fn lemma_field_read(buf: Seq<u8>, off: int, f: FieldView)
    requires
        fits_field(f),
        0 <= off,
        off + 70 <= buf.len(),
        buf.subrange(off, off + 70) == field_bytes(f),
    ensures
        field_def_at(buf, off) == Ok::<FieldView, WireError>(f),
{
    let rec = field_bytes(f);
    lemma_le_limits();
    lemma_le_bytes_len(f.offset as nat, 2);
    lemma_le_bytes_len(f.size as nat, 2);
    assert(rec.len() == 70);
    assert(rec.subrange(0, 64) =~= text_bytes(f.name, 64));
    assert(rec.subrange(64, 66) =~= le_bytes(f.offset as nat, 2));
    assert(rec.subrange(66, 68) =~= le_bytes(f.size as nat, 2));
    lemma_part(buf, off, rec, 0, 64);
    lemma_text_read(buf, off, f.name, 64);
    lemma_number_read(buf, off, rec, 64, f.offset as nat, 2);
    lemma_number_read(buf, off, rec, 66, f.size as nat, 2);
    assert(buf[off + 68] == buf.subrange(off, off + 70)[68]);
    assert(buf[off + 69] == buf.subrange(off, off + 70)[69]);
    assert(rec[68] == code_of(f.ty));
    assert(rec[69] == f.count);
}

proof fn lemma_field_len(f: FieldView)
    requires
        fits_field(f),
    ensures
        field_bytes(f).len() == 70,
{
    lemma_le_bytes_len(f.offset as nat, 2);
    lemma_le_bytes_len(f.size as nat, 2);
}

proof fn lemma_entry_len(e: SchemaEntryView)
    requires
        fits_entry(e),
    ensures
        entry_bytes(e).len() == 1318,
        laid(e.fields.len(), |i: int| field_bytes(e.fields[i])).len() == e.fields.len() * 70,
{
    let f = |i: int| field_bytes(e.fields[i]);
    assert forall|i: int| 0 <= i < e.fields.len() implies (#[trigger] f(i)).len() == 70 by {
        lemma_field_len(e.fields[i]);
    }
    lemma_laid(e.fields.len(), f, 70);
    lemma_le_bytes_len(e.id as nat, 2);
    lemma_le_bytes_len(e.payload_size as nat, 2);
    lemma_le_bytes_len(e.fields.len(), 2);
}

/// An entry record reads as the entry that it was laid out for, wherever it stands.
pub proof fn law_entry_decodes_to_itself(buf: Seq<u8>, pos: int, e: SchemaEntryView)
    requires
        fits_entry(e),
        0 <= pos,
        pos + 1318 <= buf.len(),
        buf.subrange(pos, pos + 1318) == entry_bytes(e),
    ensures
        entry_def_at(buf, pos) == Ok::<SchemaEntryView, WireError>(e),
{
    let rec = entry_bytes(e);
    let n = e.fields.len();
    let f = |i: int| field_bytes(e.fields[i]);
    lemma_entry_len(e);
    lemma_le_limits();
    lemma_le_bytes_len(e.id as nat, 2);
    lemma_le_bytes_len(e.payload_size as nat, 2);
    lemma_le_bytes_len(n, 2);
    assert(rec.subrange(0, 2) =~= le_bytes(e.id as nat, 2));
    assert(rec.subrange(2, 4) =~= le_bytes(e.payload_size as nat, 2));
    assert(rec.subrange(4, 6) =~= le_bytes(n, 2));
    assert(rec.subrange(6, 70) =~= text_bytes(e.name, 64));
    assert(rec.subrange(70, 198) =~= text_bytes(e.description, 128));
    assert(rec.subrange(198, 198 + n as int * 70) =~= laid(n, f));
    lemma_number_read(buf, pos, rec, 0, e.id as nat, 2);
    lemma_number_read(buf, pos, rec, 2, e.payload_size as nat, 2);
    lemma_number_read(buf, pos, rec, 4, n, 2);
    lemma_part(buf, pos, rec, 6, 70);
    lemma_text_read(buf, pos + 6, e.name, 64);
    lemma_part(buf, pos, rec, 70, 198);
    lemma_text_read(buf, pos + 70, e.description, 128);
    let g = |i: int| field_def_at(buf, pos + 198 + i * 70);
    assert forall|i: int| 0 <= i < n implies #[trigger] g(i) == Ok::<FieldView, WireError>(
        e.fields[i],
    ) by {
        assert forall|i: int| 0 <= i < n implies (#[trigger] f(i)).len() == 70 by {
            lemma_field_len(e.fields[i]);
        }
        lemma_part(buf, pos, rec, 198, 198 + n as int * 70);
        lemma_laid_read(buf, pos + 198, n, f, 70, i);
        lemma_field_read(buf, pos + 198 + i * 70, e.fields[i]);
    }
    lemma_collected(g, e.fields);
}

proof fn lemma_enum_len(e: EnumView)
    requires
        fits_enum(e),
    ensures
        enum_bytes(e).len() == 2053,
        laid(e.labels.len(), |i: int| text_bytes(e.labels[i], 32)).len() == e.labels.len() * 32,
{
    let f = |i: int| text_bytes(e.labels[i], 32);
    assert forall|i: int| 0 <= i < e.labels.len() implies (#[trigger] f(i)).len() == 32 by {
        assert(fits_text(e.labels[i], 32));
    }
    lemma_laid(e.labels.len(), f, 32);
    lemma_le_bytes_len(e.schema_id as nat, 2);
    lemma_le_bytes_len(e.field_index as nat, 2);
}

/// An enum record reads as the labels that it was laid out for, wherever it stands.
pub proof fn law_enum_decodes_to_itself(buf: Seq<u8>, pos: int, e: EnumView)
    requires
        fits_enum(e),
        0 <= pos,
        pos + 2053 <= buf.len(),
        buf.subrange(pos, pos + 2053) == enum_bytes(e),
    ensures
        enum_def_at(buf, pos) == Ok::<EnumView, WireError>(e),
{
    let rec = enum_bytes(e);
    let n = e.labels.len();
    let f = |i: int| text_bytes(e.labels[i], 32);
    lemma_enum_len(e);
    lemma_le_limits();
    lemma_le_bytes_len(e.schema_id as nat, 2);
    lemma_le_bytes_len(e.field_index as nat, 2);
    assert(rec.subrange(0, 2) =~= le_bytes(e.schema_id as nat, 2));
    assert(rec.subrange(2, 4) =~= le_bytes(e.field_index as nat, 2));
    assert(rec.subrange(5, 5 + n as int * 32) =~= laid(n, f));
    lemma_number_read(buf, pos, rec, 0, e.schema_id as nat, 2);
    lemma_number_read(buf, pos, rec, 2, e.field_index as nat, 2);
    assert(buf[pos + 4] == buf.subrange(pos, pos + 2053)[4]);
    assert(rec[4] == n as u8);
    let g = |i: int| cstr_at(buf, pos + 5 + i * 32, 32);
    assert forall|i: int| 0 <= i < n implies #[trigger] g(i) == Ok::<Seq<char>, WireError>(
        e.labels[i],
    ) by {
        assert forall|i: int| 0 <= i < n implies (#[trigger] f(i)).len() == 32 by {
            assert(fits_text(e.labels[i], 32));
        }
        lemma_part(buf, pos, rec, 5, 5 + n as int * 32);
        lemma_laid_read(buf, pos + 5, n, f, 32, i);
        lemma_text_read(buf, pos + 5 + i * 32, e.labels[i], 32);
    }
    lemma_collected(g, e.labels);
}

proof fn lemma_bitfield_len(b: BitfieldView)
    requires
        fits_bitfield(b),
    ensures
        bitfield_bytes(b).len() == 1093,
        laid(b.bits.len(), |i: int| text_bytes(b.bits[i].name, 32)).len() == b.bits.len() * 32,
{
    let f = |i: int| text_bytes(b.bits[i].name, 32);
    assert forall|i: int| 0 <= i < b.bits.len() implies (#[trigger] f(i)).len() == 32 by {
        assert(fits_text(b.bits[i].name, 32));
    }
    lemma_laid(b.bits.len(), f, 32);
    lemma_le_bytes_len(b.schema_id as nat, 2);
    lemma_le_bytes_len(b.field_index as nat, 2);
}

/// A bitfield record reads as the bits that it was laid out for, wherever it stands:
/// each bit comes back under its name, with its start and its width.
pub proof fn law_bitfield_decodes_to_itself(buf: Seq<u8>, pos: int, b: BitfieldView)
    requires
        fits_bitfield(b),
        0 <= pos,
        pos + 1093 <= buf.len(),
        buf.subrange(pos, pos + 1093) == bitfield_bytes(b),
    ensures
        bitfield_def_at(buf, pos) == Ok::<BitfieldView, WireError>(b),
{
    let rec = bitfield_bytes(b);
    let n = b.bits.len();
    let f = |i: int| text_bytes(b.bits[i].name, 32);
    lemma_bitfield_len(b);
    lemma_le_limits();
    lemma_le_bytes_len(b.schema_id as nat, 2);
    lemma_le_bytes_len(b.field_index as nat, 2);
    assert(rec.subrange(0, 2) =~= le_bytes(b.schema_id as nat, 2));
    assert(rec.subrange(2, 4) =~= le_bytes(b.field_index as nat, 2));
    assert(rec.subrange(5, 5 + n as int * 32) =~= laid(n, f));
    lemma_number_read(buf, pos, rec, 0, b.schema_id as nat, 2);
    lemma_number_read(buf, pos, rec, 2, b.field_index as nat, 2);
    assert(buf[pos + 4] == buf.subrange(pos, pos + 1093)[4]);
    assert(rec[4] == n as u8);
    let g = |i: int| bit_def_at(buf, pos, i);
    assert forall|i: int| 0 <= i < n implies #[trigger] g(i) == Ok::<BitView, WireError>(
        b.bits[i],
    ) by {
        assert forall|i: int| 0 <= i < n implies (#[trigger] f(i)).len() == 32 by {
            assert(fits_text(b.bits[i].name, 32));
        }
        lemma_part(buf, pos, rec, 5, 5 + n as int * 32);
        lemma_laid_read(buf, pos + 5, n, f, 32, i);
        lemma_text_read(buf, pos + 5 + i * 32, b.bits[i].name, 32);
        assert(buf[pos + 1029 + i] == buf.subrange(pos, pos + 1093)[1029 + i]);
        assert(rec[1029 + i] == b.bits[i].start);
        assert(buf[pos + 1061 + i] == buf.subrange(pos, pos + 1093)[1061 + i]);
        assert(rec[1061 + i] == b.bits[i].width);
    }
    lemma_collected(g, b.bits);
}

/// Whatever else a bitfield record holds, the start and the width of its bit `i` are the
/// bytes 5 + 32 * 32 + `i` and 5 + 32 * 32 + 32 + `i` of it.
pub proof fn law_bits_are_read_from_their_bytes(buf: Seq<u8>, pos: int, i: int)
    requires
        0 <= pos,
        pos + 1093 <= buf.len(),
        bitfield_def_at(buf, pos) is Ok,
        0 <= i < bitfield_def_at(buf, pos)->Ok_0.bits.len(),
    ensures
        bitfield_def_at(buf, pos)->Ok_0.bits[i].start == buf[pos + 5 + 32 * 32 + i],
        bitfield_def_at(buf, pos)->Ok_0.bits[i].width == buf[pos + 5 + 32 * 32 + 32 + i],
{
    let n = crate::schema::at_most(buf[pos + 4] as nat, 32);
    let g = |i: int| bit_def_at(buf, pos, i);
    lemma_collect_ok(g, n);
    assert(g(i) == Ok::<BitView, WireError>(bitfield_def_at(buf, pos)->Ok_0.bits[i]));
}

/// Changing the width byte of one bit changes the width of that bit and nothing else.
pub proof fn law_a_width_byte_is_one_width(buf: Seq<u8>, pos: int, i: int, w: u8)
    requires
        0 <= pos,
        pos + 1093 <= buf.len(),
        bitfield_def_at(buf, pos) is Ok,
        0 <= i < bitfield_def_at(buf, pos)->Ok_0.bits.len(),
    ensures
        ({
            let b = bitfield_def_at(buf, pos)->Ok_0;
            bitfield_def_at(buf.update(pos + 5 + 32 * 32 + 32 + i, w), pos) == Ok::<
                BitfieldView,
                WireError,
            >(
                (BitfieldView {
                    bits: b.bits.update(i, (BitView { width: w, ..b.bits[i] })),
                    ..b
                }),
            )
        }),
{
    let b = bitfield_def_at(buf, pos)->Ok_0;
    let buf2 = buf.update(pos + 5 + 32 * 32 + 32 + i, w);
    let n = crate::schema::at_most(buf[pos + 4] as nat, 32);
    let g = |i: int| bit_def_at(buf, pos, i);
    let g2 = |i: int| bit_def_at(buf2, pos, i);
    let bits2 = b.bits.update(i, (BitView { width: w, ..b.bits[i] }));
    lemma_collect_ok(g, n);
    assert(buf2.subrange(pos, pos + 2) =~= buf.subrange(pos, pos + 2));
    assert(buf2.subrange(pos + 2, pos + 4) =~= buf.subrange(pos + 2, pos + 4));
    assert forall|k: int| 0 <= k < n implies #[trigger] g2(k) == Ok::<BitView, WireError>(
        bits2[k],
    ) by {
        assert(g(k) == Ok::<BitView, WireError>(b.bits[k]));
        let at = pos + 5 + k * 32;
        assert(buf2.subrange(at, at + 32) =~= buf.subrange(at, at + 32));
    }
    lemma_collected(g2, bits2);
}

/// The records of a section are read behind its count, and the section ends behind them.
proof fn lemma_section_read<T>(
    buf: Seq<u8>,
    pos: int,
    f: spec_fn(int) -> Seq<u8>,
    size: nat,
    at: spec_fn(int) -> Result<T, WireError>,
    s: Seq<T>,
)
    requires
        s.len() <= 0xffff,
        forall|i: int| 0 <= i < s.len() ==> (#[trigger] f(i)).len() == size,
        0 <= pos,
        pos + 2 + s.len() * size <= buf.len(),
        buf.subrange(pos, pos + 2 + s.len() * size) == le_bytes(s.len(), 2) + laid(s.len(), f),
        forall|i: int, p: int|
            0 <= i < s.len() && 0 <= p && p + size <= buf.len() && #[trigger] buf.subrange(
                p,
                p + size,
            ) == #[trigger] f(i) ==> at(p) == Ok::<T, WireError>(s[i]),
    ensures
        section(buf, pos, size as int, at) == Ok::<Seq<T>, WireError>(s),
        section_end(buf, pos, size as int) == pos + 2 + s.len() * size,
{
    let n = s.len();
    let rec = le_bytes(n, 2) + laid(n, f);
    lemma_le_limits();
    lemma_le_bytes_len(n, 2);
    lemma_laid(n, f, size);
    assert(0 <= n * size) by (nonlinear_arith);
    assert(rec.subrange(0, 2) =~= le_bytes(n, 2));
    assert(rec.subrange(2, 2 + (n * size) as int) =~= laid(n, f));
    lemma_number_read(buf, pos, rec, 0, n, 2);
    lemma_part(buf, pos, rec, 2, 2 + (n * size) as int);
    let g = |i: int| at(pos + 2 + i * size);
    assert forall|i: int| 0 <= i < n implies #[trigger] g(i) == Ok::<T, WireError>(s[i]) by {
        lemma_laid_read(buf, pos + 2, n, f, size, i);
        let p = pos + 2 + i * size;
        assert(buf.subrange(p, p + size) == f(i));
    }
    lemma_collected(g, s);
}

proof fn lemma_head_len(entries: Seq<SchemaEntryView>)
    requires
        entries.len() <= 256,
        forall|i: int| 0 <= i < entries.len() ==> fits_entry(#[trigger] entries[i]),
    ensures
        schema_head_bytes(entries).len() == 3 + entries.len() * 1318,
{
    let f = |i: int| entry_bytes(entries[i]);
    assert forall|i: int| 0 <= i < entries.len() implies (#[trigger] f(i)).len() == 1318 by {
        lemma_entry_len(entries[i]);
    }
    lemma_laid(entries.len(), f, 1318);
    lemma_le_bytes_len(entries.len(), 2);
}

/// The entries of a blob that begins with them are read.
proof fn lemma_head_read(buf: Seq<u8>, entries: Seq<SchemaEntryView>)
    requires
        entries.len() <= 256,
        forall|i: int| 0 <= i < entries.len() ==> fits_entry(#[trigger] entries[i]),
        3 + entries.len() * 1318 <= buf.len(),
        buf.subrange(0, 3 + entries.len() as int * 1318) == schema_head_bytes(entries),
    ensures
        buf[0] == 0,
        le_at(buf, 1, 2) == entries.len(),
        collect(|i: int| entry_def_at(buf, 3 + i * 1318), entries.len()) == Ok::<
            Seq<SchemaEntryView>,
            WireError,
        >(entries),
{
    let rec = schema_head_bytes(entries);
    let n = entries.len();
    let f = |i: int| entry_bytes(entries[i]);
    lemma_head_len(entries);
    lemma_le_limits();
    lemma_le_bytes_len(n, 2);
    assert forall|i: int| 0 <= i < n implies (#[trigger] f(i)).len() == 1318 by {
        lemma_entry_len(entries[i]);
    }
    lemma_laid(n, f, 1318);
    assert(buf[0] == buf.subrange(0, 3 + n as int * 1318)[0]);
    assert(rec[0] == 0);
    assert(rec.subrange(1, 3) =~= le_bytes(n, 2));
    assert(rec.subrange(3, 3 + n as int * 1318) =~= laid(n, f));
    lemma_number_read(buf, 0, rec, 1, n, 2);
    lemma_part(buf, 0, rec, 3, 3 + n as int * 1318);
    let g = |i: int| entry_def_at(buf, 3 + i * 1318);
    assert forall|i: int| 0 <= i < n implies #[trigger] g(i) == Ok::<SchemaEntryView, WireError>(
        entries[i],
    ) by {
        lemma_laid_read(buf, 3, n, f, 1318, i);
        law_entry_decodes_to_itself(buf, 3 + i * 1318, entries[i]);
    }
    lemma_collected(g, entries);
}

proof fn lemma_enums_read(buf: Seq<u8>, pos: int, enums: Seq<EnumView>)
    requires
        enums.len() <= 0xffff,
        forall|i: int| 0 <= i < enums.len() ==> fits_enum(#[trigger] enums[i]),
        0 <= pos,
        pos + enums_bytes(enums).len() <= buf.len(),
        buf.subrange(pos, pos + enums_bytes(enums).len()) == enums_bytes(enums),
    ensures
        section(buf, pos, 2053, |p: int| enum_def_at(buf, p)) == Ok::<Seq<EnumView>, WireError>(
            enums,
        ),
        section_end(buf, pos, 2053) == pos + enums_bytes(enums).len(),
{
    let f = |i: int| enum_bytes(enums[i]);
    let at = |p: int| enum_def_at(buf, p);
    assert forall|i: int| 0 <= i < enums.len() implies (#[trigger] f(i)).len() == 2053 by {
        lemma_enum_len(enums[i]);
    }
    lemma_laid(enums.len(), f, 2053);
    lemma_le_bytes_len(enums.len(), 2);
    assert forall|i: int, p: int|
        0 <= i < enums.len() && 0 <= p && p + 2053 <= buf.len() && #[trigger] buf.subrange(
            p,
            p + 2053,
        ) == #[trigger] f(i) implies at(p) == Ok::<EnumView, WireError>(enums[i]) by {
        law_enum_decodes_to_itself(buf, p, enums[i]);
    }
    lemma_section_read(buf, pos, f, 2053, at, enums);
}

proof fn lemma_bitfields_read(buf: Seq<u8>, pos: int, b: Seq<BitfieldView>)
    requires
        b.len() <= 0xffff,
        forall|i: int| 0 <= i < b.len() ==> fits_bitfield(#[trigger] b[i]),
        0 <= pos,
        pos + bitfields_bytes(b).len() <= buf.len(),
        buf.subrange(pos, pos + bitfields_bytes(b).len()) == bitfields_bytes(b),
    ensures
        section(buf, pos, 1093, |p: int| bitfield_def_at(buf, p)) == Ok::<
            Seq<BitfieldView>,
            WireError,
        >(b),
{
    let f = |i: int| bitfield_bytes(b[i]);
    let at = |p: int| bitfield_def_at(buf, p);
    assert forall|i: int| 0 <= i < b.len() implies (#[trigger] f(i)).len() == 1093 by {
        lemma_bitfield_len(b[i]);
    }
    lemma_laid(b.len(), f, 1093);
    lemma_le_bytes_len(b.len(), 2);
    assert forall|i: int, p: int|
        0 <= i < b.len() && 0 <= p && p + 1093 <= buf.len() && #[trigger] buf.subrange(
            p,
            p + 1093,
        ) == #[trigger] f(i) implies at(p) == Ok::<BitfieldView, WireError>(b[i]) by {
        law_bitfield_decodes_to_itself(buf, p, b[i]);
    }
    lemma_section_read(buf, pos, f, 1093, at, b);
}

/// A schema that was laid out decodes to itself: every entry, field, label and bit comes
/// back with its numbers and texts, whatever follows the blob.
pub proof fn law_schema_decodes_to_itself(s: SchemaView, tail: Seq<u8>)
    requires
        fits_schema(s),
    ensures
        schema_of(schema_bytes(s) + tail) == Ok::<SchemaView, WireError>(s),
{
    let buf = schema_bytes(s) + tail;
    let head = schema_head_bytes(s.entries);
    let enums = enums_bytes(s.enums);
    let bits = bitfields_bytes(s.bitfields);
    let at = head.len() as int;
    lemma_head_len(s.entries);
    assert(buf.subrange(0, at) =~= head);
    assert(buf.subrange(at, at + enums.len()) =~= enums);
    assert(buf.subrange(at + enums.len(), at + enums.len() + bits.len()) =~= bits);
    lemma_head_read(buf, s.entries);
    lemma_enums_read(buf, at, s.enums);
    lemma_bitfields_read(buf, at + enums.len(), s.bitfields);
}

/// A blob may stop behind its entries, or behind its labels: what it leaves out is empty.
pub proof fn law_sections_may_be_missing(s: SchemaView)
    requires
        fits_schema(s),
    ensures
        schema_of(schema_head_bytes(s.entries)) == Ok::<SchemaView, WireError>(
            (SchemaView { entries: s.entries, enums: Seq::empty(), bitfields: Seq::empty() }),
        ),
        schema_of(schema_head_bytes(s.entries) + enums_bytes(s.enums)) == Ok::<
            SchemaView,
            WireError,
        >((SchemaView { entries: s.entries, enums: s.enums, bitfields: Seq::empty() })),
{
    let head = schema_head_bytes(s.entries);
    let enums = enums_bytes(s.enums);
    let buf = head + enums;
    let at = head.len() as int;
    lemma_head_len(s.entries);
    assert(head.subrange(0, at) =~= head);
    lemma_head_read(head, s.entries);
    assert(buf.subrange(0, at) =~= head);
    assert(buf.subrange(at, at + enums.len()) =~= enums);
    lemma_head_read(buf, s.entries);
    lemma_enums_read(buf, at, s.enums);
}

/// The payloads of the first `n` entries, one behind another.
pub open spec fn payloads(entries: Seq<EntryView>, n: nat) -> Seq<u8>
    decreases n,
{
    if n == 0 {
        Seq::empty()
    } else {
        payloads(entries, (n - 1) as nat) + entries[n - 1].payload
    }
}

/// The record of entry `i` in the table: id, payload size, where its payload begins
/// among the payloads, and timestamp.
pub open spec fn table_bytes(entries: Seq<EntryView>, i: int) -> Seq<u8> {
    le_bytes(entries[i].id as nat, 2) + le_bytes(entries[i].payload.len(), 2) + le_bytes(
        payloads(entries, i as nat).len(),
        4,
    ) + le_bytes(entries[i].timestamp as nat, 8)
}

/// A packet: header, table and payloads.
pub open spec fn packet_bytes(flags: u16, dropped: u32, entries: Seq<EntryView>) -> Seq<u8> {
    le_bytes(entries.len(), 2) + le_bytes(flags as nat, 2) + le_bytes(
        payloads(entries, entries.len()).len(),
        4,
    ) + le_bytes(dropped as nat, 4) + zeros(4) + laid(
        entries.len(),
        |i: int| table_bytes(entries, i),
    ) + payloads(entries, entries.len())
}

proof fn lemma_payload_place(entries: Seq<EntryView>, i: nat, n: nat)
    requires
        i < n <= entries.len(),
    ensures
        payloads(entries, i).len() + entries[i as int].payload.len() <= payloads(entries, n).len(),
        payloads(entries, n).subrange(
            payloads(entries, i).len() as int,
            (payloads(entries, i).len() + entries[i as int].payload.len()) as int,
        ) == entries[i as int].payload,
    decreases n,
{
    let a = payloads(entries, i).len() as int;
    let b = a + entries[i as int].payload.len();
    if i + 1 == n {
        assert(payloads(entries, n).subrange(a, b) =~= entries[i as int].payload);
    } else {
        lemma_payload_place(entries, i, (n - 1) as nat);
        assert(payloads(entries, n).subrange(a, b) =~= payloads(
            entries,
            (n - 1) as nat,
        ).subrange(a, b));
    }
}

proof fn lemma_table_len(entries: Seq<EntryView>, i: int)
    requires
        0 <= i < entries.len(),
    ensures
        table_bytes(entries, i).len() == 16,
{
    lemma_le_bytes_len(entries[i].id as nat, 2);
    lemma_le_bytes_len(entries[i].payload.len(), 2);
    lemma_le_bytes_len(payloads(entries, i as nat).len(), 4);
    lemma_le_bytes_len(entries[i].timestamp as nat, 8);
}

proof fn lemma_packet_entry(buf: Seq<u8>, entries: Seq<EntryView>, i: int)
    requires
        0 <= i < entries.len() <= 0xffff,
        entries[i].payload.len() <= 0xffff,
        payloads(entries, entries.len()).len() <= 0xffff_ffff,
        16 + entries.len() * 16 + payloads(entries, entries.len()).len() <= buf.len(),
        header_of(buf).entry_count == entries.len(),
        header_of(buf).payload_size == payloads(entries, entries.len()).len(),
        buf.subrange(16, 16 + entries.len() as int * 16) == laid(
            entries.len(),
            |i: int| table_bytes(entries, i),
        ),
        buf.subrange(
            16 + entries.len() as int * 16,
            16 + entries.len() as int * 16 + payloads(entries, entries.len()).len(),
        ) == payloads(entries, entries.len()),
    ensures
        entry_of(buf, i) == Ok::<EntryView, WireError>(entries[i]),
{
    let n = entries.len();
    let all = payloads(entries, n);
    let e = entries[i];
    let line = table_bytes(entries, i);
    let off = payload_base(i);
    let from = payloads(entries, i as nat).len();
    let f = |i: int| table_bytes(entries, i);
    assert forall|i: int| 0 <= i < n implies (#[trigger] f(i)).len() == 16 by {
        lemma_table_len(entries, i);
    }
    lemma_laid(n, f, 16);
    lemma_laid_read(buf, 16, n, f, 16, i);
    lemma_payload_place(entries, i as nat, n);
    lemma_le_limits();
    lemma_le_bytes_len(e.id as nat, 2);
    lemma_le_bytes_len(e.payload.len(), 2);
    lemma_le_bytes_len(from, 4);
    lemma_le_bytes_len(e.timestamp as nat, 8);
    assert(line.subrange(0, 2) =~= le_bytes(e.id as nat, 2));
    assert(line.subrange(2, 4) =~= le_bytes(e.payload.len(), 2));
    assert(line.subrange(4, 8) =~= le_bytes(from, 4));
    assert(line.subrange(8, 16) =~= le_bytes(e.timestamp as nat, 8));
    lemma_number_read(buf, off, line, 0, e.id as nat, 2);
    lemma_number_read(buf, off, line, 2, e.payload.len(), 2);
    lemma_number_read(buf, off, line, 4, from, 4);
    lemma_number_read(buf, off, line, 8, e.timestamp as nat, 8);
    lemma_part(buf, 16 + n as int * 16, all, from as int, (from + e.payload.len()) as int);
}

/// A packet that was laid out decodes to itself: its flags, its count of dropped entries
/// and each entry with its id, its timestamp and its own payload, in order, whatever
/// follows the packet.
pub proof fn law_packet_decodes_to_itself(
    flags: u16,
    dropped: u32,
    entries: Seq<EntryView>,
    tail: Seq<u8>,
)
    requires
        entries.len() <= 0xffff,
        forall|i: int| 0 <= i < entries.len() ==> (#[trigger] entries[i]).payload.len() <= 0xffff,
        payloads(entries, entries.len()).len() <= 0xffff_ffff,
    ensures
        packet_of(packet_bytes(flags, dropped, entries) + tail) == Ok::<PacketView, WireError>(
            (PacketView {
                header: PacketHeader {
                    entry_count: entries.len() as u16,
                    flags,
                    payload_size: payloads(entries, entries.len()).len() as u32,
                    dropped,
                },
                entries,
            }),
        ),
{
    let rec = packet_bytes(flags, dropped, entries);
    let buf = rec + tail;
    let n = entries.len();
    let all = payloads(entries, n);
    let f = |i: int| table_bytes(entries, i);
    lemma_le_limits();
    lemma_le_bytes_len(n, 2);
    lemma_le_bytes_len(flags as nat, 2);
    lemma_le_bytes_len(all.len(), 4);
    lemma_le_bytes_len(dropped as nat, 4);
    assert forall|i: int| 0 <= i < n implies (#[trigger] f(i)).len() == 16 by {
        lemma_table_len(entries, i);
    }
    lemma_laid(n, f, 16);
    assert(rec.len() == 16 + n * 16 + all.len());
    assert(buf.subrange(0, rec.len() as int) =~= rec);
    assert(rec.subrange(0, 2) =~= le_bytes(n, 2));
    assert(rec.subrange(2, 4) =~= le_bytes(flags as nat, 2));
    assert(rec.subrange(4, 8) =~= le_bytes(all.len(), 4));
    assert(rec.subrange(8, 12) =~= le_bytes(dropped as nat, 4));
    assert(rec.subrange(16, 16 + n as int * 16) =~= laid(n, f));
    assert(rec.subrange(16 + n as int * 16, rec.len() as int) =~= all);
    lemma_number_read(buf, 0, rec, 0, n, 2);
    lemma_number_read(buf, 0, rec, 2, flags as nat, 2);
    lemma_number_read(buf, 0, rec, 4, all.len(), 4);
    lemma_number_read(buf, 0, rec, 8, dropped as nat, 4);
    lemma_part(buf, 0, rec, 16, 16 + n as int * 16);
    lemma_part(buf, 0, rec, 16 + n as int * 16, rec.len() as int);
    let g = |i: int| entry_of(buf, i);
    assert forall|i: int| 0 <= i < n implies #[trigger] g(i) == Ok::<EntryView, WireError>(
        entries[i],
    ) by {
        lemma_packet_entry(buf, entries, i);
    }
    lemma_collected(g, entries);
}

proof fn lemma_two_bytes(buf: Seq<u8>, p: int)
    requires
        0 <= p,
        p + 2 <= buf.len(),
    ensures
        le_at(buf, p, 2) == buf[p] + 0x100 * buf[p + 1],
        le_at(buf, p, 2) <= u16::MAX,
{
    let s = buf.subrange(p, p + 2);
    reveal_with_fuel(crate::bytes::le_value, 3);
    assert(s.len() == 2);
    assert(s[0] == buf[p] && s[1] == buf[p + 1]);
    assert(s.drop_first()[0] == s[1]);
    assert(s.drop_first().drop_first() =~= Seq::empty());
}

/// Whatever its name is, a field is read from the bytes behind it: offset and size low
/// byte first, then the wire code of its type, then its count. A byte that is the code of
/// no type is named in the error.
pub proof fn law_field_is_read_from_its_bytes(buf: Seq<u8>, off: int)
    requires
        0 <= off,
        off + 70 <= buf.len(),
    ensures
        field_def_at(buf, off) matches Ok(f) ==> {
            &&& cstr_at(buf, off, 64) == Ok::<Seq<char>, WireError>(f.name)
            &&& f.offset == buf[off + 64] + 0x100 * buf[off + 65]
            &&& f.size == buf[off + 66] + 0x100 * buf[off + 67]
            &&& code_of(f.ty) == buf[off + 68]
            &&& f.count == buf[off + 69]
        },
        cstr_at(buf, off, 64) is Ok ==> (field_def_at(buf, off) is Ok <==> buf[off + 68] <= 13),
        cstr_at(buf, off, 64) is Ok && buf[off + 68] > 13 ==> field_def_at(buf, off) == Err::<
            FieldView,
            WireError,
        >(WireError::UnknownType(buf[off + 68])),
{
    lemma_two_bytes(buf, off + 64);
    lemma_two_bytes(buf, off + 66);
}

/// An entry is read from the bytes of its record: id, payload size and number of fields
/// come first, each low byte first, and the fields stand one behind another after name
/// and description. More than sixteen fields are refused.
pub proof fn law_entry_is_read_from_its_bytes(buf: Seq<u8>, pos: int)
    requires
        0 <= pos,
        pos + 6 <= buf.len(),
    ensures
        ({
            let count = buf[pos + 4] + 0x100 * buf[pos + 5];
            &&& count > 16 ==> entry_def_at(buf, pos) == Err::<SchemaEntryView, WireError>(
                WireError::TooManyFields(count as u16),
            )
            &&& entry_def_at(buf, pos) matches Ok(e) ==> {
                &&& e.id == buf[pos] + 0x100 * buf[pos + 1]
                &&& e.payload_size == buf[pos + 2] + 0x100 * buf[pos + 3]
                &&& e.fields.len() == count <= 16
                &&& cstr_at(buf, pos + 6, 64) == Ok::<Seq<char>, WireError>(e.name)
                &&& cstr_at(buf, pos + 70, 128) == Ok::<Seq<char>, WireError>(e.description)
                &&& forall|i: int|
                    0 <= i < count ==> field_def_at(buf, pos + 198 + 70 * i) == Ok::<
                        FieldView,
                        WireError,
                    >(#[trigger] e.fields[i])
            }
        }),
{
    lemma_two_bytes(buf, pos);
    lemma_two_bytes(buf, pos + 2);
    lemma_two_bytes(buf, pos + 4);
    let f = |i: int|
        field_def_at(
            buf,
            pos + crate::wire::SCHEMA_WIRE_HEADER_SIZE + i * crate::wire::FIELD_WIRE_SIZE,
        );
    lemma_collect_ok(f, le_at(buf, pos + 4, 2));
    if let Ok(e) = entry_def_at(buf, pos) {
        assert forall|i: int| 0 <= i < e.fields.len() implies field_def_at(buf, pos + 198 + 70 * i)
            == Ok::<FieldView, WireError>(#[trigger] e.fields[i]) by {
            assert(f(i) == Ok::<FieldView, WireError>(e.fields[i]));
        }
    }
}

/// An enum holds as many labels as its record announces, but no more than the record has
/// room for, each read from its own place; and likewise a bitfield its bits.
pub proof fn law_announced_items_are_read(buf: Seq<u8>, pos: int)
    requires
        0 <= pos,
        pos + 5 <= buf.len(),
    ensures
        enum_def_at(buf, pos) matches Ok(e) ==> {
            &&& e.schema_id == buf[pos] + 0x100 * buf[pos + 1]
            &&& e.field_index == buf[pos + 2] + 0x100 * buf[pos + 3]
            &&& e.labels.len() == (if buf[pos + 4] <= 64 {
                buf[pos + 4] as int
            } else {
                64
            })
            &&& forall|i: int|
                0 <= i < e.labels.len() ==> cstr_at(buf, pos + 5 + 32 * i, 32) == Ok::<
                    Seq<char>,
                    WireError,
                >(#[trigger] e.labels[i])
        },
        bitfield_def_at(buf, pos) matches Ok(b) ==> {
            &&& b.schema_id == buf[pos] + 0x100 * buf[pos + 1]
            &&& b.field_index == buf[pos + 2] + 0x100 * buf[pos + 3]
            &&& b.bits.len() == (if buf[pos + 4] <= 32 {
                buf[pos + 4] as int
            } else {
                32
            })
            &&& forall|i: int|
                0 <= i < b.bits.len() ==> cstr_at(buf, pos + 5 + 32 * i, 32) == Ok::<
                    Seq<char>,
                    WireError,
                >((#[trigger] b.bits[i]).name)
        },
{
    lemma_two_bytes(buf, pos);
    lemma_two_bytes(buf, pos + 2);
    let f = |i: int|
        cstr_at(
            buf,
            pos + 5 + i * crate::wire::ENUM_LABEL_MAX,
            crate::wire::ENUM_LABEL_MAX as int,
        );
    lemma_collect_ok(f, crate::schema::at_most(buf[pos + 4] as nat, 64));
    let g = |i: int| bit_def_at(buf, pos, i);
    lemma_collect_ok(g, crate::schema::at_most(buf[pos + 4] as nat, 32));
    if let Ok(e) = enum_def_at(buf, pos) {
        assert forall|i: int| 0 <= i < e.labels.len() implies cstr_at(buf, pos + 5 + 32 * i, 32)
            == Ok::<Seq<char>, WireError>(#[trigger] e.labels[i]) by {
            assert(f(i) == Ok::<Seq<char>, WireError>(e.labels[i]));
        }
    }
    if let Ok(b) = bitfield_def_at(buf, pos) {
        assert forall|i: int| 0 <= i < b.bits.len() implies cstr_at(buf, pos + 5 + 32 * i, 32)
            == Ok::<Seq<char>, WireError>((#[trigger] b.bits[i]).name) by {
            assert(g(i) == Ok::<BitView, WireError>(b.bits[i]));
        }
    }
}

/// A schema is read only where its first byte says that numbers stand low byte first. It
/// then holds as many entries as the next two bytes say, at most 256, each read from its
/// own record.
pub proof fn law_schema_is_read_from_its_bytes(buf: Seq<u8>)
    requires
        buf.len() >= 3,
    ensures
        ({
            let count = buf[1] + 0x100 * buf[2];
            &&& buf[0] != 0 ==> schema_of(buf) == Err::<SchemaView, WireError>(
                WireError::BadEndian(buf[0]),
            )
            &&& buf[0] == 0 && count > 256 ==> schema_of(buf) == Err::<SchemaView, WireError>(
                WireError::TooManyEntries(count as u16),
            )
            &&& schema_of(buf) matches Ok(s) ==> {
                &&& buf[0] == 0
                &&& s.entries.len() == count <= 256
                &&& forall|i: int|
                    0 <= i < count ==> entry_def_at(buf, 3 + 1318 * i) == Ok::<
                        SchemaEntryView,
                        WireError,
                    >(#[trigger] s.entries[i])
            }
        }),
{
    lemma_two_bytes(buf, 1);
    let f = |i: int|
        entry_def_at(
            buf,
            crate::wire::SCHEMA_HEADER_SIZE + i * crate::wire::SCHEMA_WIRE_SIZE,
        );
    lemma_collect_ok(f, le_at(buf, 1, 2));
    if let Ok(s) = schema_of(buf) {
        assert forall|i: int| 0 <= i < s.entries.len() implies entry_def_at(buf, 3 + 1318 * i)
            == Ok::<SchemaEntryView, WireError>(#[trigger] s.entries[i]) by {
            assert(f(i) == Ok::<SchemaEntryView, WireError>(s.entries[i]));
        }
    }
}

/// Of a packet that ends too early it is told how much it holds and how much it would
/// need: the head first, then the table, then the payload.
pub proof fn law_short_packet_tells_its_need(buf: Seq<u8>)
    requires
        buf.len() <= usize::MAX,
    ensures
        buf.len() < 16 ==> packet_of(buf) == Err::<PacketView, WireError>(
            WireError::Short { need: 16, got: buf.len() as usize },
        ),
        buf.len() >= 16 ==> {
            let n = buf[0] + 0x100 * buf[1];
            16 + 16 * n > buf.len() ==> packet_of(buf) == Err::<PacketView, WireError>(
                WireError::Short { need: (16 + 16 * n) as usize, got: buf.len() as usize },
            )
        },
{
    if buf.len() >= 2 {
        lemma_two_bytes(buf, 0);
    }
}

} // verus!
