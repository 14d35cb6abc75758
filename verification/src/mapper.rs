//! From schema to channels: which channels a schema registers, and which samples
//! a packet entry pushes into them.

use crate::bytes::read_le;
use crate::num::{f64_of_u64, power_of_two};
use crate::schema::{BitfieldDef, FieldDef, FieldType, Schema, SchemaEntry};
use crate::store::{copy_texts, ChannelId, ChannelKind, MockStore};
use crate::text::{append_digits, append_text};
use crate::value::collapse;
use std::collections::HashMap;
use vstd::prelude::*;
use vstd::slice::slice_subrange;

verus! {

use crate::num::double_of_nat;
use crate::schema::{BitView, BitfieldView, EnumView, FieldView, SchemaEntryView, SchemaView};
use crate::store::{KindView, StoreView};
use crate::text::decimal;
use crate::value::number_of;
use vstd::arithmetic::power2::pow2;

broadcast use vstd::std_specs::hash::group_hash_axioms;

/// Why a schema cannot be mapped.
#[derive(Clone, Copy, Debug, PartialEq, Eq, Structural)]
pub enum MapError {
    /// Two entries have this id.
    DuplicateSchema(u16),
}

/// One bit range of a bitfield word and its channel.
#[derive(Clone, Copy, Debug, PartialEq, Eq, Structural)]
pub struct BitLane {
    pub start: u8,
    pub width: u8,
    pub ch: ChannelId,
}

/// How one field of an entry becomes samples.
pub enum FieldKind {
    Scalar { ch: ChannelId, ty: FieldType, offset: u16, size: u16 },
    ScalarArray { ty: FieldType, base_offset: u16, elem_size: u16, channels: Vec<ChannelId> },
    State { ch: ChannelId, offset: u16 },
    Bitfield {
        offset: u16,
        storage_bytes: u16,
        /// Channel of the whole word, where its width has one.
        word: Option<ChannelId>,
        bits: Vec<BitLane>,
    },
    Ignored,
}

/// What a [`FieldKind`] says.
#[verifier::ext_equal]
pub enum FieldPlan {
    Scalar { ch: ChannelId, ty: FieldType, offset: u16, size: u16 },
    ScalarArray { ty: FieldType, base_offset: u16, elem_size: u16, channels: Seq<ChannelId> },
    State { ch: ChannelId, offset: u16 },
    Bitfield { offset: u16, storage_bytes: u16, word: Option<ChannelId>, bits: Seq<BitLane> },
    Ignored,
}

impl View for FieldKind {
    type V = FieldPlan;

    open spec fn view(&self) -> FieldPlan {
        match *self {
            FieldKind::Scalar { ch, ty, offset, size } => FieldPlan::Scalar {
                ch,
                ty,
                offset,
                size,
            },
            FieldKind::ScalarArray { ty, base_offset, elem_size, channels } => {
                FieldPlan::ScalarArray { ty, base_offset, elem_size, channels: channels@ }
            },
            FieldKind::State { ch, offset } => FieldPlan::State { ch, offset },
            FieldKind::Bitfield { offset, storage_bytes, word, bits } => FieldPlan::Bitfield {
                offset,
                storage_bytes,
                word,
                bits: bits@,
            },
            FieldKind::Ignored => FieldPlan::Ignored,
        }
    }
}

/// The plans of the fields of one entry.
pub open spec fn plans_view(v: Seq<FieldKind>) -> Seq<FieldPlan> {
    v.map_values(|k: FieldKind| k@)
}

/// The channels of every entry of a schema.
pub struct ChannelMap {
    entries: HashMap<u16, Vec<FieldKind>>,
}

impl View for ChannelMap {
    type V = Map<u16, Seq<FieldPlan>>;

    closed spec fn view(&self) -> Map<u16, Seq<FieldPlan>> {
        self.entries@.map_values(|v: Vec<FieldKind>| plans_view(v@))
    }
}

/// Whether values of the type are numbers.
pub open spec fn is_numeric(ty: FieldType) -> bool {
    is_integer(ty) || ty == FieldType::F32 || ty == FieldType::F64
}

/// Whether values of the type are whole numbers.
pub open spec fn is_integer(ty: FieldType) -> bool {
    ||| ty == FieldType::U8
    ||| ty == FieldType::U16
    ||| ty == FieldType::U32
    ||| ty == FieldType::U64
    ||| ty == FieldType::I8
    ||| ty == FieldType::I16
    ||| ty == FieldType::I32
    ||| ty == FieldType::I64
}

/// The path of a field's channel.
pub open spec fn channel_path(entry: Seq<char>, field: Seq<char>, suffix: Seq<char>) -> Seq<char> {
    entry.push('.') + field + suffix
}

/// The suffix of the `i`th element of an array.
pub open spec fn element_suffix(i: nat) -> Seq<char> {
    seq!['['] + decimal(i) + seq![']']
}

/// The store with the channels of the first `n` elements of an array.
pub open spec fn with_elements(
    s: StoreView,
    entry: Seq<char>,
    field: Seq<char>,
    integer: bool,
    n: nat,
) -> StoreView
    decreases n,
{
    if n == 0 {
        s
    } else {
        with_elements(s, entry, field, integer, (n - 1) as nat).with_channel(
            channel_path(entry, field, element_suffix((n - 1) as nat)),
            KindView::Scalar,
            integer,
        )
    }
}

/// The numbers of `n` channels that are registered one after another, the first
/// of them in a store of `from` channels.
pub open spec fn channel_run(from: nat, n: nat) -> Seq<ChannelId> {
    Seq::new(n, |i: int| (from + i) as u32)
}

/// The store with the channels of the first `n` bits of a bitfield.
pub open spec fn with_bits(
    s: StoreView,
    entry: Seq<char>,
    field: Seq<char>,
    bits: Seq<BitView>,
    n: nat,
) -> StoreView
    decreases n,
{
    if n == 0 {
        s
    } else {
        with_bits(s, entry, field, bits, (n - 1) as nat).with_channel(
            channel_path(entry, field, seq!['.'] + bits[n - 1].name),
            KindView::Scalar,
            true,
        )
    }
}

/// The lanes of the bits of a bitfield whose first channel is registered in a
/// store of `from` channels.
pub open spec fn bit_lanes(bits: Seq<BitView>, from: nat) -> Seq<BitLane> {
    Seq::new(
        bits.len(),
        |i: int| BitLane { start: bits[i].start, width: bits[i].width, ch: (from + i) as u32 },
    )
}

/// The first index at or after `i` of the labels for a field, or the end.
pub open spec fn enum_index(enums: Seq<EnumView>, id: u16, field: u16, i: int) -> int
    decreases enums.len() - i,
{
    if i >= enums.len() || (enums[i].schema_id == id && enums[i].field_index == field) {
        i
    } else {
        enum_index(enums, id, field, i + 1)
    }
}

/// The labels for a field; none where the schema has none.
pub open spec fn labels_for(enums: Seq<EnumView>, id: u16, field: u16) -> Seq<Seq<char>> {
    let i = enum_index(enums, id, field, 0);
    if i < enums.len() {
        enums[i].labels
    } else {
        Seq::empty()
    }
}

/// The first index at or after `i` of the bits of a field, or the end.
pub open spec fn bitfield_index(bf: Seq<BitfieldView>, id: u16, field: u16, i: int) -> int
    decreases bf.len() - i,
{
    if i >= bf.len() || (bf[i].schema_id == id && bf[i].field_index == field) {
        i
    } else {
        bitfield_index(bf, id, field, i + 1)
    }
}

/// Whether a bitfield word of this width has a channel of its own.
pub open spec fn is_word_width(bytes: u16) -> bool {
    bytes == 1 || bytes == 2 || bytes == 4 || bytes == 8
}

/// The width of one element of a field.
pub open spec fn element_size(f: FieldView) -> u16 {
    if f.count > 0 {
        (f.size / f.count as u16) as u16
    } else {
        f.size
    }
}

/// The channels that a bitfield field registers, and its plan.
pub open spec fn bitfield_plan(
    entry: Seq<char>,
    f: FieldView,
    bits: Seq<BitView>,
    s: StoreView,
) -> (FieldPlan, StoreView) {
    if is_word_width(f.size) {
        let word = s.channels.len() as u32;
        let with_word = s.with_channel(
            channel_path(entry, f.name, Seq::empty()),
            KindView::Scalar,
            true,
        );
        let from = with_word.channels.len();
        (
            FieldPlan::Bitfield {
                offset: f.offset,
                storage_bytes: f.size,
                word: Some(word),
                bits: bit_lanes(bits, from),
            },
            with_bits(with_word, entry, f.name, bits, bits.len()).with_word(
                word,
                channel_run(from, bits.len()),
            ),
        )
    } else {
        (
            FieldPlan::Bitfield {
                offset: f.offset,
                storage_bytes: f.size,
                word: None,
                bits: bit_lanes(bits, s.channels.len()),
            },
            with_bits(s, entry, f.name, bits, bits.len()),
        )
    }
}

/// The channels that one field registers, and its plan.
pub open spec fn field_plan(
    schema: SchemaView,
    id: u16,
    entry: Seq<char>,
    index: u16,
    f: FieldView,
    s: StoreView,
) -> (FieldPlan, StoreView) {
    let ch = s.channels.len() as u32;
    let path = channel_path(entry, f.name, Seq::empty());
    let integer = is_integer(f.ty);
    if is_numeric(f.ty) {
        if f.count == 1 {
            (
                FieldPlan::Scalar { ch, ty: f.ty, offset: f.offset, size: f.size },
                s.with_channel(path, KindView::Scalar, integer),
            )
        } else {
            (
                FieldPlan::ScalarArray {
                    ty: f.ty,
                    base_offset: f.offset,
                    elem_size: element_size(f),
                    channels: channel_run(s.channels.len(), f.count as nat),
                },
                with_elements(s, entry, f.name, integer, f.count as nat),
            )
        }
    } else if f.count != 1 {
        (FieldPlan::Ignored, s)
    } else if f.ty == FieldType::Bool {
        (
            FieldPlan::State { ch, offset: f.offset },
            s.with_channel(path, KindView::State { labels: seq!["false"@, "true"@] }, true),
        )
    } else if f.ty == FieldType::Enum {
        (
            FieldPlan::State { ch, offset: f.offset },
            s.with_channel(
                path,
                KindView::State { labels: labels_for(schema.enums, id, index) },
                true,
            ),
        )
    } else if f.ty == FieldType::Bitfield {
        let i = bitfield_index(schema.bitfields, id, index, 0);
        if i < schema.bitfields.len() {
            bitfield_plan(entry, f, schema.bitfields[i].bits, s)
        } else {
            (FieldPlan::Ignored, s)
        }
    } else {
        (FieldPlan::Ignored, s)
    }
}

/// The channels that the first `n` fields of an entry register, and their plans.
pub open spec fn fields_plan(
    schema: SchemaView,
    e: SchemaEntryView,
    n: nat,
    s: StoreView,
) -> (Seq<FieldPlan>, StoreView)
    decreases n,
{
    if n == 0 {
        (Seq::empty(), s)
    } else {
        let (plans, before) = fields_plan(schema, e, (n - 1) as nat, s);
        let (plan, after) = field_plan(
            schema,
            e.id,
            e.name,
            (n - 1) as u16,
            e.fields[n - 1],
            before,
        );
        (plans.push(plan), after)
    }
}

/// The channels that the first `n` entries of a schema register, and the plans
/// of each.
pub open spec fn entries_plan(schema: SchemaView, n: nat, s: StoreView) -> (
    Map<u16, Seq<FieldPlan>>,
    StoreView,
)
    decreases n,
{
    if n == 0 {
        (Map::empty(), s)
    } else {
        let (map, before) = entries_plan(schema, (n - 1) as nat, s);
        let e = schema.entries[n - 1];
        let (plans, after) = fields_plan(schema, e, e.fields.len(), before);
        (map.insert(e.id, plans), after)
    }
}

/// Whether the first `n` entries have different ids.
pub open spec fn distinct_ids(entries: Seq<SchemaEntryView>, n: int) -> bool {
    forall|i: int, j: int|
        0 <= i < j < n ==> (#[trigger] entries[i]).id != (#[trigger] entries[j]).id
}

/// Whether an entry before the `n`th has its id.
pub open spec fn repeats_id(entries: Seq<SchemaEntryView>, n: int) -> bool {
    exists|i: int| 0 <= i < n && (#[trigger] entries[i]).id == entries[n].id
}

/// The number in `n` little-endian bytes of the payload, of which the first eight
/// count.
pub open spec fn word_at(payload: Seq<u8>, off: int, n: int) -> nat {
    crate::bytes::le_at(
        payload,
        off,
        if n < 8 {
            n
        } else {
            8
        },
    )
}

/// `width` bits of `raw` from bit `start` on.
pub open spec fn bits_of(raw: nat, start: nat, width: nat) -> nat {
    (raw / pow2(start)) % pow2(width)
}

/// The number of a numeric type at `off` in the payload, where it reaches that far.
pub open spec fn scalar_at(ty: FieldType, payload: Seq<u8>, off: int, size: int) -> Option<nat> {
    if off + size > payload.len() || !is_numeric(ty) {
        None
    } else {
        number_of(ty, payload.subrange(off, off + size))
    }
}

/// The store with a sample, where there is one.
pub open spec fn with_number(s: StoreView, ch: ChannelId, t: u64, v: Option<nat>) -> StoreView {
    match v {
        Some(x) => s.with_scalar(ch, t, x as u64),
        None => s,
    }
}

/// The store with the samples of the first `n` elements of an array.
pub open spec fn with_array_samples(
    s: StoreView,
    ty: FieldType,
    base: int,
    size: int,
    channels: Seq<ChannelId>,
    t: u64,
    payload: Seq<u8>,
    n: nat,
) -> StoreView
    decreases n,
{
    if n == 0 {
        s
    } else {
        with_number(
            with_array_samples(s, ty, base, size, channels, t, payload, (n - 1) as nat),
            channels[n - 1],
            t,
            scalar_at(ty, payload, base + (n - 1) * size, size),
        )
    }
}

/// The store with the samples of the first `n` bits of a bitfield word.
pub open spec fn with_bit_samples(
    s: StoreView,
    raw: nat,
    bits: Seq<BitLane>,
    t: u64,
    n: nat,
) -> StoreView
    decreases n,
{
    if n == 0 {
        s
    } else {
        let b = bits[n - 1];
        with_bit_samples(s, raw, bits, t, (n - 1) as nat).with_scalar(
            b.ch,
            t,
            double_of_nat(bits_of(raw, b.start as nat, b.width as nat)) as u64,
        )
    }
}

/// The store with the samples of one field of an entry.
pub open spec fn with_field(s: StoreView, plan: FieldPlan, t: u64, payload: Seq<u8>) -> StoreView {
    match plan {
        FieldPlan::Scalar { ch, ty, offset, size } => with_number(
            s,
            ch,
            t,
            scalar_at(ty, payload, offset as int, size as int),
        ),
        FieldPlan::ScalarArray { ty, base_offset, elem_size, channels } => with_array_samples(
            s,
            ty,
            base_offset as int,
            elem_size as int,
            channels,
            t,
            payload,
            channels.len(),
        ),
        FieldPlan::State { ch, offset } => if offset < payload.len() {
            s.with_state(ch, t, payload[offset as int] as u32)
        } else {
            s
        },
        FieldPlan::Bitfield { offset, storage_bytes, word, bits } => if offset + storage_bytes
            <= payload.len() {
            let raw = word_at(payload, offset as int, storage_bytes as int);
            let with_word = match word {
                Some(ch) => s.with_scalar(ch, t, double_of_nat(raw) as u64),
                None => s,
            };
            with_bit_samples(with_word, raw, bits, t, bits.len())
        } else {
            s
        },
        FieldPlan::Ignored => s,
    }
}

/// The store with the samples of the first `n` fields of an entry.
pub open spec fn with_fields(
    s: StoreView,
    plans: Seq<FieldPlan>,
    t: u64,
    payload: Seq<u8>,
    n: nat,
) -> StoreView
    decreases n,
{
    if n == 0 {
        s
    } else {
        with_field(with_fields(s, plans, t, payload, (n - 1) as nat), plans[n - 1], t, payload)
    }
}

/// The store with the samples of one packet entry.
pub open spec fn with_entry(
    s: StoreView,
    map: Map<u16, Seq<FieldPlan>>,
    id: u16,
    t: u64,
    payload: Seq<u8>,
) -> StoreView {
    if map.contains_key(id) {
        with_fields(s, map[id], t, payload, map[id].len())
    } else {
        s
    }
}

fn numeric(ty: FieldType) -> (r: bool)
    ensures
        r == is_numeric(ty),
{
    integer(ty) || ty == FieldType::F32 || ty == FieldType::F64
}

fn integer(ty: FieldType) -> (r: bool)
    ensures
        r == is_integer(ty),
{
    match ty {
        FieldType::U8
        | FieldType::U16
        | FieldType::U32
        | FieldType::U64
        | FieldType::I8
        | FieldType::I16
        | FieldType::I32
        | FieldType::I64 => true,
        _ => false,
    }
}

/// The path of a field's channel, without suffix.
fn path_of(entry: &str, field: &str) -> (r: String)
    ensures
        r@ == channel_path(entry@, field@, Seq::empty()),
{
    let mut p = String::new();
    append_text(&mut p, entry);
    p.push('.');
    append_text(&mut p, field);
    assert(p@ =~= channel_path(entry@, field@, Seq::empty()));
    p
}

/// Reads the number of a numeric type at `off` in the payload.
pub fn read_scalar(ty: FieldType, payload: &[u8], off: usize, size: u16) -> (r: Option<u64>)
    ensures
        r is Some <==> scalar_at(ty, payload@, off as int, size as int) is Some,
        r matches Some(v) ==> scalar_at(ty, payload@, off as int, size as int) == Some(v as nat),
{
    let n: usize = size as usize;
    if off > payload.len() || payload.len() - off < n || !numeric(ty) {
        return None;
    }
    collapse(ty, slice_subrange(payload, off, off + n))
}

/// `width` bits of `raw` from bit `start` on.
pub fn extract_bits(raw: u64, start: u8, width: u8) -> (v: u64)
    ensures
        v == bits_of(raw as nat, start as nat, width as nat),
{
    let high: u64 = if start >= 64 {
        proof {
            crate::num::lemma_pow2_exceeds_u64(start as nat);
            assert(raw as nat / pow2(start as nat) == 0) by (nonlinear_arith)
                requires
                    raw < pow2(start as nat),
            ;
        }
        0
    } else {
        proof {
            vstd::arithmetic::power2::lemma_pow2_pos(start as nat);
        }
        raw / power_of_two(start as u64)
    };
    if width >= 64 {
        proof {
            crate::num::lemma_pow2_exceeds_u64(width as nat);
            assert(high as nat % pow2(width as nat) == high) by (nonlinear_arith)
                requires
                    high < pow2(width as nat),
            ;
        }
        high
    } else {
        proof {
            vstd::arithmetic::power2::lemma_pow2_pos(width as nat);
        }
        high % power_of_two(width as u64)
    }
}

/// Pushes the samples of one field of an entry.
fn dispatch_field(kind: &FieldKind, t: u64, payload: &[u8], store: &mut MockStore)
    requires
        old(store)@.wf(),
    ensures
        final(store)@.wf(),
        final(store)@ == with_field(old(store)@, kind@, t, payload@),
{
    match kind {
        FieldKind::Scalar { ch, ty, offset, size } => {
            if let Some(v) = read_scalar(*ty, payload, *offset as usize, *size) {
                store.push_scalar(*ch, t, v);
            }
        },
        FieldKind::ScalarArray { ty, base_offset, elem_size, channels } => {
            let mut i: usize = 0;
            while i < channels.len()
                invariant
                    i <= channels@.len(),
                    store@.wf(),
                    store@ == with_array_samples(
                        old(store)@,
                        *ty,
                        *base_offset as int,
                        *elem_size as int,
                        channels@,
                        t,
                        payload@,
                        i as nat,
                    ),
                decreases channels@.len() - i,
            {
                proof {
                    let e = *elem_size as int;
                    assert(0 <= i * e <= 0xffff_ffff_ffff_ffff * 0xffff) by (nonlinear_arith)
                        requires
                            0 <= i <= 0xffff_ffff_ffff_ffff,
                            0 <= e <= 0xffff,
                    ;
                }
                let off: u128 = *base_offset as u128 + i as u128 * *elem_size as u128;
                if off <= payload.len() as u128 {
                    if let Some(v) = read_scalar(*ty, payload, off as usize, *elem_size) {
                        store.push_scalar(channels[i], t, v);
                    }
                }
                i = i + 1;
            }
        },
        FieldKind::State { ch, offset } => {
            let off: usize = *offset as usize;
            if off < payload.len() {
                store.push_state(*ch, t, payload[off] as u32);
            }
        },
        FieldKind::Bitfield { offset, storage_bytes, word, bits } => {
            let off: usize = *offset as usize;
            let n: usize = *storage_bytes as usize;
            if off + n <= payload.len() {
                let raw: u64 = read_le(
                    payload,
                    off,
                    if n < 8 {
                        n
                    } else {
                        8
                    },
                );
                if let Some(ch) = word {
                    store.push_scalar(*ch, t, f64_of_u64(raw));
                }
                let ghost before = store@;
                let mut i: usize = 0;
                while i < bits.len()
                    invariant
                        i <= bits@.len(),
                        store@.wf(),
                        store@ == with_bit_samples(before, raw as nat, bits@, t, i as nat),
                    decreases bits@.len() - i,
                {
                    let b = bits[i];
                    store.push_scalar(b.ch, t, f64_of_u64(extract_bits(raw, b.start, b.width)));
                    i = i + 1;
                }
            }
        },
        FieldKind::Ignored => {},
    }
}

impl ChannelMap {
    /// Registers the channels of a schema in the store.
    pub fn build(schema: &Schema, store: &mut MockStore) -> (r: Result<Self, MapError>)
        requires
            old(store)@.wf(),
        ensures
            final(store)@.wf(),
            match r {
                Ok(map) => {
                    &&& distinct_ids(schema@.entries, schema@.entries.len() as int)
                    &&& (map@, final(store)@) == entries_plan(
                        schema@,
                        schema@.entries.len(),
                        old(store)@,
                    )
                },
                Err(e) => exists|k: int|
                    {
                        &&& 0 <= k < schema@.entries.len()
                        &&& distinct_ids(schema@.entries, k)
                        &&& #[trigger] repeats_id(schema@.entries, k)
                        &&& e == MapError::DuplicateSchema(schema@.entries[k].id)
                        &&& final(store)@ == entries_plan(schema@, k as nat, old(store)@).1
                    },
            },
    {
        let mut entries: HashMap<u16, Vec<FieldKind>> = HashMap::new();
        let ghost mut view: Map<u16, Seq<FieldPlan>> = Map::empty();
        let ghost model = schema@;
        let mut i: usize = 0;
        assert(entries@.map_values(|v: Vec<FieldKind>| plans_view(v@)) =~= view);
        while i < schema.entries.len()
            invariant
                i <= schema.entries@.len(),
                model == schema@,
                model.entries.len() == schema.entries@.len(),
                forall|j: int|
                    0 <= j < model.entries.len() ==> #[trigger] model.entries[j]
                        == schema.entries@[j]@,
                store@.wf(),
                view == entries@.map_values(|v: Vec<FieldKind>| plans_view(v@)),
                (view, store@) == entries_plan(model, i as nat, old(store)@),
                distinct_ids(model.entries, i as int),
                forall|id: u16| #[trigger]
                    entries@.contains_key(id) <==> exists|j: int|
                        0 <= j < i && (#[trigger] model.entries[j]).id == id,
            decreases schema.entries@.len() - i,
        {
            let e = &schema.entries[i];
            assert(model.entries[i as int] == e@);
            if entries.contains_key(&e.id) {
                assert(repeats_id(model.entries, i as int));
                return Err(MapError::DuplicateSchema(e.id));
            }
            let plans = build_entry(e, schema, store);
            proof {
                assert(!entries@.contains_key(e.id));
                assert(forall|j: int|
                    0 <= j < i ==> (#[trigger] model.entries[j]).id != model.entries[i as int].id);
                view = view.insert(e.id, plans_view(plans@));
                assert(view =~= entries@.insert(e.id, plans).map_values(
                    |v: Vec<FieldKind>| plans_view(v@),
                ));
            }
            let ghost before = entries@;
            entries.insert(e.id, plans);
            proof {
                assert forall|id: u16| #[trigger]
                    entries@.contains_key(id) <==> exists|j: int|
                        0 <= j < i + 1 && (#[trigger] model.entries[j]).id == id by {
                    if before.contains_key(id) {
                        let j = choose|j: int| 0 <= j < i && (#[trigger] model.entries[j]).id == id;
                        assert(0 <= j < i + 1 && model.entries[j].id == id);
                    }
                    if id == e.id {
                        assert(model.entries[i as int].id == id);
                    }
                }
            }
            i = i + 1;
        }
        Ok(ChannelMap { entries })
    }

    /// Pushes the samples of one packet entry. An entry that the schema does not
    /// know pushes none, and so does a field that the payload does not reach.
    pub fn dispatch(&self, schema_id: u16, t: u64, payload: &[u8], store: &mut MockStore)
        requires
            old(store)@.wf(),
        ensures
            final(store)@.wf(),
            final(store)@ == with_entry(old(store)@, self@, schema_id, t, payload@),
    {
        match self.entries.get(&schema_id) {
            None => {},
            Some(plans) => {
                let ghost views = plans_view(plans@);
                let mut i: usize = 0;
                while i < plans.len()
                    invariant
                        i <= plans@.len(),
                        views == plans_view(plans@),
                        store@.wf(),
                        store@ == with_fields(old(store)@, views, t, payload@, i as nat),
                    decreases plans@.len() - i,
                {
                    dispatch_field(&plans[i], t, payload, store);
                    i = i + 1;
                }
            },
        }
    }
}

/// Registers the channels of one entry.
fn build_entry(e: &SchemaEntry, schema: &Schema, store: &mut MockStore) -> (r: Vec<FieldKind>)
    requires
        old(store)@.wf(),
    ensures
        final(store)@.wf(),
        (plans_view(r@), final(store)@) == fields_plan(
            schema@,
            e@,
            e@.fields.len(),
            old(store)@,
        ),
{
    let mut out: Vec<FieldKind> = Vec::new();
    let mut i: usize = 0;
    assert(plans_view(out@) =~= Seq::empty());
    while i < e.fields.len()
        invariant
            i <= e.fields@.len(),
            store@.wf(),
            (plans_view(out@), store@) == fields_plan(schema@, e@, i as nat, old(store)@),
        decreases e.fields@.len() - i,
    {
        let kind = build_field(e.id, &e.name, i as u16, &e.fields[i], schema, store);
        proof {
            assert(e@.fields[i as int] == e.fields@[i as int]@);
            assert(plans_view(out@.push(kind)) =~= plans_view(out@).push(kind@));
        }
        out.push(kind);
        i = i + 1;
    }
    out
}

/// Registers the channels of one field.
fn build_field(
    schema_id: u16,
    entry_name: &String,
    field_index: u16,
    f: &FieldDef,
    schema: &Schema,
    store: &mut MockStore,
) -> (r: FieldKind)
    requires
        old(store)@.wf(),
    ensures
        final(store)@.wf(),
        (r@, final(store)@) == field_plan(
            schema@,
            schema_id,
            entry_name@,
            field_index,
            f@,
            old(store)@,
        ),
{
    let path = path_of(entry_name.as_str(), f.name.as_str());
    let whole = integer(f.ty);
    if numeric(f.ty) {
        if f.count == 1 {
            let ch = store.add_channel(path, ChannelKind::Scalar, whole);
            return FieldKind::Scalar { ch, ty: f.ty, offset: f.offset, size: f.size };
        }
        let elem_size: u16 = if f.count > 0 {
            f.size / f.count as u16
        } else {
            f.size
        };
        let channels = build_array(&path, f.count, whole, entry_name, &f.name, store);
        return FieldKind::ScalarArray {
            ty: f.ty,
            base_offset: f.offset,
            elem_size,
            channels,
        };
    }
    if f.count != 1 {
        return FieldKind::Ignored;
    }
    match f.ty {
        FieldType::Bool => {
            let mut labels: Vec<String> = Vec::new();
            labels.push("false".to_owned());
            labels.push("true".to_owned());
            assert(labels@.map_values(|l: String| l@) =~= seq!["false"@, "true"@]);
            let ch = store.add_channel(path, ChannelKind::State { labels }, true);
            FieldKind::State { ch, offset: f.offset }
        },
        FieldType::Enum => {
            let labels = find_labels(schema, schema_id, field_index);
            let ch = store.add_channel(path, ChannelKind::State { labels }, true);
            FieldKind::State { ch, offset: f.offset }
        },
        FieldType::Bitfield => {
            match find_bitfield(schema, schema_id, field_index) {
                None => FieldKind::Ignored,
                Some(bf) => build_bitfield(path, entry_name, f, bf, store),
            }
        },
        _ => FieldKind::Ignored,
    }
}

fn build_array(
    path: &String,
    count: u8,
    whole: bool,
    entry_name: &String,
    field_name: &String,
    store: &mut MockStore,
) -> (r: Vec<ChannelId>)
    requires
        old(store)@.wf(),
        path@ == channel_path(entry_name@, field_name@, Seq::empty()),
    ensures
        final(store)@.wf(),
        r@ == channel_run(old(store)@.channels.len(), count as nat),
        final(store)@ == with_elements(
            old(store)@,
            entry_name@,
            field_name@,
            whole,
            count as nat,
        ),
{
    let mut channels: Vec<ChannelId> = Vec::new();
    let mut i: u8 = 0;
    assert(channels@ =~= channel_run(old(store)@.channels.len(), 0));
    while i < count
        invariant
            i <= count,
            path@ == channel_path(entry_name@, field_name@, Seq::empty()),
            store@.wf(),
            store@.channels.len() == old(store)@.channels.len() + i,
            channels@ == channel_run(old(store)@.channels.len(), i as nat),
            store@ == with_elements(old(store)@, entry_name@, field_name@, whole, i as nat),
        decreases count - i,
    {
        let mut p = path.clone();
        p.push('[');
        append_digits(&mut p, i as u64, 10);
        p.push(']');
        assert(p@ =~= channel_path(entry_name@, field_name@, element_suffix(i as nat)));
        let ch = store.add_channel(p, ChannelKind::Scalar, whole);
        channels.push(ch);
        i = i + 1;
        assert(channels@ =~= channel_run(old(store)@.channels.len(), i as nat));
    }
    channels
}

fn build_bitfield(
    path: String,
    entry_name: &String,
    f: &FieldDef,
    bf: &BitfieldDef,
    store: &mut MockStore,
) -> (r: FieldKind)
    requires
        old(store)@.wf(),
        path@ == channel_path(entry_name@, f.name@, Seq::empty()),
    ensures
        final(store)@.wf(),
        (r@, final(store)@) == bitfield_plan(entry_name@, f@, bf@.bits, old(store)@),
{
    let base = path.clone();
    let word: Option<ChannelId> = if f.size == 1 || f.size == 2 || f.size == 4 || f.size == 8 {
        Some(store.add_channel(path, ChannelKind::Scalar, true))
    } else {
        None
    };
    let ghost before = store@;
    let ghost from = before.channels.len();
    let ghost model = bf@.bits;
    let mut bits: Vec<BitLane> = Vec::new();
    let mut ids: Vec<ChannelId> = Vec::new();
    let mut i: usize = 0;
    while i < bf.bits.len()
        invariant
            i <= bf.bits@.len(),
            model == bf@.bits,
            model.len() == bf.bits@.len(),
            base@ == channel_path(entry_name@, f.name@, Seq::empty()),
            store@.wf(),
            from == before.channels.len(),
            store@.channels.len() == from + i,
            store@ == with_bits(before, entry_name@, f.name@, model, i as nat),
            bits@ == bit_lanes(model, from).take(i as int),
            ids@ == channel_run(from, model.len()).take(i as int),
        decreases bf.bits@.len() - i,
    {
        let b = &bf.bits[i];
        assert(model[i as int] == b@);
        let mut p = base.clone();
        p.push('.');
        append_text(&mut p, b.name.as_str());
        assert(p@ =~= channel_path(entry_name@, f.name@, seq!['.'] + b.name@));
        let ch = store.add_channel(p, ChannelKind::Scalar, true);
        bits.push(BitLane { start: b.start, width: b.width, ch });
        ids.push(ch);
        i = i + 1;
        assert(bits@ =~= bit_lanes(model, from).take(i as int));
        assert(ids@ =~= channel_run(from, model.len()).take(i as int));
    }
    assert(bits@ =~= bit_lanes(model, from));
    assert(ids@ =~= channel_run(from, model.len()));
    if let Some(w) = word {
        store.register_word_bits(w, ids);
    }
    FieldKind::Bitfield { offset: f.offset, storage_bytes: f.size, word, bits }
}

/// The labels for a field; none where the schema has none.
fn find_labels(schema: &Schema, id: u16, field: u16) -> (r: Vec<String>)
    ensures
        r@.map_values(|l: String| l@) == labels_for(schema@.enums, id, field),
{
    let mut i: usize = 0;
    let ghost enums = schema@.enums;
    while i < schema.enums.len() && !(schema.enums[i].schema_id == id
        && schema.enums[i].field_index == field)
        invariant
            i <= schema.enums@.len(),
            enums == schema@.enums,
            enums.len() == schema.enums@.len(),
            enum_index(enums, id, field, 0) == enum_index(enums, id, field, i as int),
        decreases schema.enums@.len() - i,
    {
        assert(enums[i as int] == schema.enums@[i as int]@);
        i = i + 1;
    }
    if i < schema.enums.len() {
        assert(enums[i as int] == schema.enums@[i as int]@);
        copy_texts(&schema.enums[i].labels)
    } else {
        let none: Vec<String> = Vec::new();
        assert(none@.map_values(|l: String| l@) =~= Seq::empty());
        none
    }
}

/// The bits of a field, where the schema has them.
fn find_bitfield(schema: &Schema, id: u16, field: u16) -> (r: Option<&BitfieldDef>)
    ensures
        ({
            let i = bitfield_index(schema@.bitfields, id, field, 0);
            match r {
                Some(b) => i < schema@.bitfields.len() && schema@.bitfields[i] == b@,
                None => i >= schema@.bitfields.len(),
            }
        }),
{
    let mut i: usize = 0;
    let ghost all = schema@.bitfields;
    while i < schema.bitfields.len() && !(schema.bitfields[i].schema_id == id
        && schema.bitfields[i].field_index == field)
        invariant
            i <= schema.bitfields@.len(),
            all == schema@.bitfields,
            all.len() == schema.bitfields@.len(),
            bitfield_index(all, id, field, 0) == bitfield_index(all, id, field, i as int),
        decreases schema.bitfields@.len() - i,
    {
        assert(all[i as int] == schema.bitfields@[i as int]@);
        i = i + 1;
    }
    if i < schema.bitfields.len() {
        assert(all[i as int] == schema.bitfields@[i as int]@);
        Some(&schema.bitfields[i])
    } else {
        None
    }
}

/// Whether the samples of a table are those of another, with some at the time `t`
/// after them.
pub open spec fn extends_at(a: Seq<(u64, u64)>, b: Seq<(u64, u64)>, t: u64) -> bool {
    &&& a.len() <= b.len()
    &&& forall|i: int| 0 <= i < a.len() ==> #[trigger] b[i] == a[i]
    &&& forall|i: int| a.len() <= i < b.len() ==> (#[trigger] b[i]).0 == t
}

/// Whether a store has the channels of another, and in every numeric channel its
/// samples, with some at the time `t` after them.
pub open spec fn grows_at(a: StoreView, b: StoreView, t: u64) -> bool {
    &&& b.channels == a.channels
    &&& b.words == a.words
    &&& b.texts == a.texts
    &&& b.scalars.len() == a.scalars.len()
    &&& b.states.len() == a.states.len()
    &&& forall|c: int|
        0 <= c < a.scalars.len() ==> extends_at(a.scalars[c], #[trigger] b.scalars[c], t)
}

proof fn lemma_grows_on(a: StoreView, b: StoreView, c: StoreView, t: u64)
    requires
        grows_at(a, b, t),
        grows_at(b, c, t),
    ensures
        grows_at(a, c, t),
{
    assert forall|i: int| 0 <= i < a.scalars.len() implies extends_at(
        a.scalars[i],
        #[trigger] c.scalars[i],
        t,
    ) by {
        assert(extends_at(a.scalars[i], b.scalars[i], t));
        assert(extends_at(b.scalars[i], c.scalars[i], t));
        assert forall|k: int| 0 <= k < a.scalars[i].len() implies #[trigger] c.scalars[i][k]
            == a.scalars[i][k] by {
            assert(b.scalars[i][k] == a.scalars[i][k]);
        }
        assert forall|k: int|
            a.scalars[i].len() <= k < c.scalars[i].len() implies (#[trigger] c.scalars[i][k]).0
            == t by {
            if k < b.scalars[i].len() {
                assert(b.scalars[i][k].0 == t);
            }
        }
    }
}

proof fn lemma_array_grows(
    s: StoreView,
    ty: FieldType,
    base: int,
    size: int,
    channels: Seq<ChannelId>,
    t: u64,
    payload: Seq<u8>,
    n: nat,
)
    ensures
        grows_at(s, with_array_samples(s, ty, base, size, channels, t, payload, n), t),
    decreases n,
{
    if n > 0 {
        lemma_array_grows(s, ty, base, size, channels, t, payload, (n - 1) as nat);
        let before = with_array_samples(s, ty, base, size, channels, t, payload, (n - 1) as nat);
        let after = with_array_samples(s, ty, base, size, channels, t, payload, n);
        lemma_grows_on(s, before, after, t);
    }
}

proof fn lemma_bits_grow(s: StoreView, raw: nat, bits: Seq<BitLane>, t: u64, n: nat)
    ensures
        grows_at(s, with_bit_samples(s, raw, bits, t, n), t),
    decreases n,
{
    if n > 0 {
        lemma_bits_grow(s, raw, bits, t, (n - 1) as nat);
        let before = with_bit_samples(s, raw, bits, t, (n - 1) as nat);
        lemma_grows_on(s, before, with_bit_samples(s, raw, bits, t, n), t);
    }
}

proof fn lemma_field_grows(s: StoreView, plan: FieldPlan, t: u64, payload: Seq<u8>)
    ensures
        grows_at(s, with_field(s, plan, t, payload), t),
{
    match plan {
        FieldPlan::ScalarArray { ty, base_offset, elem_size, channels } => {
            lemma_array_grows(
                s,
                ty,
                base_offset as int,
                elem_size as int,
                channels,
                t,
                payload,
                channels.len(),
            );
        },
        FieldPlan::Bitfield { offset, storage_bytes, word, bits } => {
            let raw = word_at(payload, offset as int, storage_bytes as int);
            let with_word = match word {
                Some(ch) => s.with_scalar(ch, t, double_of_nat(raw) as u64),
                None => s,
            };
            assert(grows_at(s, with_word, t));
            lemma_bits_grow(with_word, raw, bits, t, bits.len());
            lemma_grows_on(s, with_word, with_bit_samples(with_word, raw, bits, t, bits.len()), t);
        },
        _ => {},
    }
}

proof fn lemma_fields_grow(
    s: StoreView,
    plans: Seq<FieldPlan>,
    t: u64,
    payload: Seq<u8>,
    n: nat,
)
    ensures
        grows_at(s, with_fields(s, plans, t, payload, n), t),
    decreases n,
{
    if n > 0 {
        lemma_fields_grow(s, plans, t, payload, (n - 1) as nat);
        let before = with_fields(s, plans, t, payload, (n - 1) as nat);
        lemma_field_grows(before, plans[n - 1], t, payload);
        lemma_grows_on(s, before, with_fields(s, plans, t, payload, n), t);
    }
}

/// Dispatching an entry only appends: no channel comes or goes, every sample stays, and
/// the new ones carry the time of the entry.
pub proof fn law_dispatch_only_appends(
    s: StoreView,
    map: Map<u16, Seq<FieldPlan>>,
    id: u16,
    t: u64,
    payload: Seq<u8>,
)
    ensures
        grows_at(s, with_entry(s, map, id, t, payload), t),
{
    if map.contains_key(id) {
        lemma_fields_grow(s, map[id], t, payload, map[id].len());
    }
}

} // verus!
