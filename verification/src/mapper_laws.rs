//! From a schema and its packets to the samples of each channel.

use vstd::prelude::*;

verus! {

use crate::ingest::{with_entries, with_packet_samples};
use crate::mapper::{
    bit_lanes, bitfield_index, bits_of, channel_path, channel_run, element_size, element_suffix,
    entries_plan, enum_index, field_plan, fields_plan, is_integer, is_numeric, is_word_width,
    scalar_at, with_array_samples, with_bit_samples, with_bits, with_elements, with_entry,
    with_field, with_fields, word_at, BitLane, FieldPlan,
};
use crate::num::double_of_nat;
use crate::schema::{
    BitView, BitfieldView, EnumView, FieldType, FieldView, SchemaEntryView, SchemaView,
};
use crate::store::{observe, ChannelId, ChannelView, KindView, StoreView};
use crate::store_laws::observed;
use crate::wire::{EntryView, PacketView};

/// Whether samples of the field go to the channel.
pub open spec fn mentions(plan: FieldPlan, ch: ChannelId) -> bool {
    match plan {
        FieldPlan::Scalar { ch: c, .. } => c == ch,
        FieldPlan::ScalarArray { channels, .. } => channels.contains(ch),
        FieldPlan::State { ch: c, .. } => c == ch,
        FieldPlan::Bitfield { word, bits, .. } => word == Some(ch) || exists|i: int|
            0 <= i < bits.len() && (#[trigger] bits[i]).ch == ch,
        FieldPlan::Ignored => false,
    }
}

/// Whether a store has everything of another, and beside it only channels without
/// samples.
pub open spec fn gains_channels(a: StoreView, b: StoreView) -> bool {
    &&& a.wf()
    &&& b.wf()
    &&& a.channels.len() <= b.channels.len()
    &&& forall|i: int|
        0 <= i < a.channels.len() ==> #[trigger] b.channels[i] == a.channels[i] && b.scalars[i]
            == a.scalars[i] && b.states[i] == a.states[i] && b.texts[i] == a.texts[i]
    &&& forall|i: int|
        #![trigger b.scalars[i]]
        a.channels.len() <= i < b.channels.len() ==> b.scalars[i].len() == 0 && b.states[i].len()
            == 0 && b.texts[i].len() == 0
    &&& forall|w: ChannelId|
        w < a.channels.len() && #[trigger] a.words.contains_key(w) ==> b.words.contains_key(w)
            && b.words[w] == a.words[w]
}

proof fn lemma_gains_on(a: StoreView, b: StoreView, c: StoreView)
    requires
        gains_channels(a, b),
        gains_channels(b, c),
    ensures
        gains_channels(a, c),
{
    assert forall|i: int| 0 <= i < a.channels.len() implies #[trigger] c.channels[i]
        == a.channels[i] && c.scalars[i] == a.scalars[i] && c.states[i] == a.states[i] && c.texts[i]
        == a.texts[i] by {
        assert(b.channels[i] == a.channels[i]);
        assert(c.channels[i] == b.channels[i]);
    }
    assert forall|i: int|
        #![trigger c.scalars[i]]
        a.channels.len() <= i < c.channels.len() implies c.scalars[i].len() == 0
        && c.states[i].len() == 0 && c.texts[i].len() == 0 by {
        if i < b.channels.len() {
            assert(b.channels[i] == c.channels[i]);
        }
    }
}

proof fn lemma_elements(s: StoreView, entry: Seq<char>, field: Seq<char>, integer: bool, n: nat)
    requires
        s.wf(),
    ensures
        gains_channels(s, with_elements(s, entry, field, integer, n)),
        with_elements(s, entry, field, integer, n).channels.len() == s.channels.len() + n,
        forall|i: int|
            s.channels.len() <= i < s.channels.len() + n ==> #[trigger] with_elements(
                s,
                entry,
                field,
                integer,
                n,
            ).channels[i] == (ChannelView {
                id: i as u32,
                path: channel_path(entry, field, element_suffix((i - s.channels.len()) as nat)),
                kind: KindView::Scalar,
                integer_storage: integer,
            }),
    decreases n,
{
    if n > 0 {
        lemma_elements(s, entry, field, integer, (n - 1) as nat);
        lemma_gains_on(
            s,
            with_elements(s, entry, field, integer, (n - 1) as nat),
            with_elements(s, entry, field, integer, n),
        );
    }
}

proof fn lemma_bit_channels(
    s: StoreView,
    entry: Seq<char>,
    field: Seq<char>,
    bits: Seq<BitView>,
    n: nat,
)
    requires
        s.wf(),
        n <= bits.len(),
    ensures
        gains_channels(s, with_bits(s, entry, field, bits, n)),
        with_bits(s, entry, field, bits, n).words == s.words,
        with_bits(s, entry, field, bits, n).channels.len() == s.channels.len() + n,
        forall|i: int|
            s.channels.len() <= i < s.channels.len() + n ==> #[trigger] with_bits(
                s,
                entry,
                field,
                bits,
                n,
            ).channels[i] == (ChannelView {
                id: i as u32,
                path: channel_path(entry, field, seq!['.'] + bits[i - s.channels.len()].name),
                kind: KindView::Scalar,
                integer_storage: true,
            }),
    decreases n,
{
    if n > 0 {
        lemma_bit_channels(s, entry, field, bits, (n - 1) as nat);
        lemma_gains_on(
            s,
            with_bits(s, entry, field, bits, (n - 1) as nat),
            with_bits(s, entry, field, bits, n),
        );
    }
}

/// Whether the plan speaks exactly of the channels from `from` up to `to`.
pub open spec fn speaks_of(plan: FieldPlan, from: nat, to: nat) -> bool {
    forall|ch: ChannelId| #[trigger] mentions(plan, ch) <==> from <= ch < to
}

proof fn lemma_run_mentions(from: nat, n: nat)
    requires
        from + n <= 0x1_0000_0000,
    ensures
        forall|ch: ChannelId| #[trigger]
            channel_run(from, n).contains(ch) <==> from <= ch < from + n,
{
    assert forall|ch: ChannelId| #[trigger] channel_run(from, n).contains(ch) <==> from <= ch < from
        + n by {
        if from <= ch < from + n {
            assert(channel_run(from, n)[ch - from] == ch);
        }
    }
}

proof fn lemma_lane_mentions(bits: Seq<BitView>, from: nat, word: Option<ChannelId>, plan: FieldPlan)
    requires
        from + bits.len() <= 0x1_0000_0000,
        word matches Some(w) ==> w + 1 == from,
        plan matches FieldPlan::Bitfield { word: w, bits: b, .. } && w == word && b == bit_lanes(
            bits,
            from,
        ),
    ensures
        speaks_of(
            plan,
            (if word is Some {
                (from - 1) as nat
            } else {
                from
            }),
            from + bits.len(),
        ),
{
    let lanes = bit_lanes(bits, from);
    assert forall|ch: ChannelId| #[trigger] mentions(plan, ch) <==> (if word is Some {
        (from - 1) as nat
    } else {
        from
    }) <= ch < from + bits.len() by {
        if from <= ch < from + bits.len() {
            assert(lanes[ch - from].ch == ch);
        }
    }
}

/// A field registers the channels that its plan speaks of, behind those that there are.
proof fn lemma_field_gains(
    schema: SchemaView,
    id: u16,
    entry: Seq<char>,
    index: u16,
    f: FieldView,
    s: StoreView,
)
    requires
        s.wf(),
        field_plan(schema, id, entry, index, f, s).1.channels.len() <= 0x1_0000_0000,
    ensures
        gains_channels(s, field_plan(schema, id, entry, index, f, s).1),
        speaks_of(
            field_plan(schema, id, entry, index, f, s).0,
            s.channels.len(),
            field_plan(schema, id, entry, index, f, s).1.channels.len(),
        ),
{
    let (plan, after) = field_plan(schema, id, entry, index, f, s);
    let i = bitfield_index(schema.bitfields, id, index, 0);
    if is_numeric(f.ty) {
        if f.count != 1 {
            lemma_elements(s, entry, f.name, is_integer(f.ty), f.count as nat);
            lemma_run_mentions(s.channels.len(), f.count as nat);
        }
    } else if f.count == 1 && f.ty == FieldType::Bitfield && i < schema.bitfields.len() {
        let bits = schema.bitfields[i].bits;
        if is_word_width(f.size) {
            let with_word = s.with_channel(
                channel_path(entry, f.name, Seq::empty()),
                KindView::Scalar,
                true,
            );
            assert(gains_channels(s, with_word));
            lemma_bit_channels(with_word, entry, f.name, bits, bits.len());
            let b = with_bits(with_word, entry, f.name, bits, bits.len());
            lemma_gains_on(s, with_word, b);
            assert(after == b.with_word(
                s.channels.len() as u32,
                channel_run(with_word.channels.len(), bits.len()),
            ));
            assert(after.channels == b.channels);
            assert(after.scalars == b.scalars);
            assert(after.states == b.states);
            assert(after.texts == b.texts);
            assert forall|w: ChannelId|
                w < s.channels.len() && #[trigger] s.words.contains_key(
                    w,
                ) implies after.words.contains_key(w) && after.words[w] == s.words[w] by {
                assert(s.channels.len() < 0x1_0000_0000);
            }
            assert(gains_channels(s, after));
            lemma_lane_mentions(
                bits,
                with_word.channels.len(),
                Some(s.channels.len() as u32),
                plan,
            );
        } else {
            lemma_bit_channels(s, entry, f.name, bits, bits.len());
            lemma_lane_mentions(bits, s.channels.len(), None, plan);
        }
    }
}

/// Where the `j`th field of an entry stands among the channels.
proof fn lemma_fields_gain(schema: SchemaView, e: SchemaEntryView, n: nat, s: StoreView, j: int)
    requires
        s.wf(),
        n <= e.fields.len(),
        fields_plan(schema, e, n, s).1.channels.len() <= 0x1_0000_0000,
    ensures
        gains_channels(s, fields_plan(schema, e, n, s).1),
        fields_plan(schema, e, n, s).0.len() == n,
        0 <= j < n ==> ({
            let before = fields_plan(schema, e, j as nat, s).1;
            let (plan, after) = field_plan(
                schema,
                e.id,
                e.name,
                j as u16,
                e.fields[j],
                before,
            );
            &&& fields_plan(schema, e, n, s).0[j] == plan
            &&& gains_channels(s, before)
            &&& gains_channels(before, after)
            &&& gains_channels(after, fields_plan(schema, e, n, s).1)
            &&& speaks_of(plan, before.channels.len(), after.channels.len())
        }),
    decreases n,
{
    if n > 0 {
        let m = (n - 1) as nat;
        let before = fields_plan(schema, e, m, s).1;
        lemma_field_len(schema, e.id, e.name, m as u16, e.fields[m as int], before);
        lemma_fields_gain(schema, e, m, s, j);
        lemma_field_gains(schema, e.id, e.name, m as u16, e.fields[m as int], before);
        let after = fields_plan(schema, e, n, s).1;
        lemma_gains_on(s, before, after);
        if j < m && j >= 0 {
            let b = fields_plan(schema, e, j as nat, s).1;
            let a = field_plan(schema, e.id, e.name, j as u16, e.fields[j], b).1;
            lemma_gains_on(a, before, after);
        }
    }
}

proof fn lemma_field_len(
    schema: SchemaView,
    id: u16,
    entry: Seq<char>,
    index: u16,
    f: FieldView,
    s: StoreView,
)
    ensures
        field_plan(schema, id, entry, index, f, s).1.channels.len() >= s.channels.len(),
{
    let i = bitfield_index(schema.bitfields, id, index, 0);
    if is_numeric(f.ty) {
        if f.count != 1 {
            lemma_elements_len(s, entry, f.name, is_integer(f.ty), f.count as nat);
        }
    } else if f.count == 1 && f.ty == FieldType::Bitfield && i < schema.bitfields.len() {
        let bits = schema.bitfields[i].bits;
        lemma_bits_len(s, entry, f.name, bits, bits.len());
        lemma_bits_len(
            s.with_channel(channel_path(entry, f.name, Seq::empty()), KindView::Scalar, true),
            entry,
            f.name,
            bits,
            bits.len(),
        );
    }
}

proof fn lemma_elements_len(s: StoreView, entry: Seq<char>, field: Seq<char>, integer: bool, n: nat)
    ensures
        with_elements(s, entry, field, integer, n).channels.len() == s.channels.len() + n,
    decreases n,
{
    if n > 0 {
        lemma_elements_len(s, entry, field, integer, (n - 1) as nat);
    }
}

proof fn lemma_bits_len(
    s: StoreView,
    entry: Seq<char>,
    field: Seq<char>,
    bits: Seq<BitView>,
    n: nat,
)
    ensures
        with_bits(s, entry, field, bits, n).channels.len() == s.channels.len() + n,
    decreases n,
{
    if n > 0 {
        lemma_bits_len(s, entry, field, bits, (n - 1) as nat);
    }
}

proof fn lemma_fields_len(schema: SchemaView, e: SchemaEntryView, n: nat, s: StoreView)
    ensures
        fields_plan(schema, e, n, s).1.channels.len() >= s.channels.len(),
    decreases n,
{
    if n > 0 {
        lemma_fields_len(schema, e, (n - 1) as nat, s);
        let before = fields_plan(schema, e, (n - 1) as nat, s).1;
        lemma_field_len(schema, e.id, e.name, (n - 1) as u16, e.fields[n - 1], before);
    }
}

/// Where the `j`th field of the `k`th entry stands among the channels of a schema.
proof fn lemma_entries_gain(schema: SchemaView, n: nat, s: StoreView, k: int, j: int)
    requires
        s.wf(),
        n <= schema.entries.len(),
        crate::mapper::distinct_ids(schema.entries, n as int),
        entries_plan(schema, n, s).1.channels.len() <= 0x1_0000_0000,
    ensures
        gains_channels(s, entries_plan(schema, n, s).1),
        forall|id: u16| #[trigger]
            entries_plan(schema, n, s).0.contains_key(id) ==> exists|m: int|
                0 <= m < n && (#[trigger] schema.entries[m]).id == id,
        0 <= k < n ==> ({
            let e = schema.entries[k];
            let start = entries_plan(schema, k as nat, s).1;
            &&& entries_plan(schema, n, s).0.contains_key(e.id)
            &&& entries_plan(schema, n, s).0[e.id] == fields_plan(
                schema,
                e,
                e.fields.len(),
                start,
            ).0
            &&& gains_channels(s, start)
            &&& gains_channels(start, fields_plan(schema, e, e.fields.len(), start).1)
            &&& gains_channels(
                fields_plan(schema, e, e.fields.len(), start).1,
                entries_plan(schema, n, s).1,
            )
        }),
        0 <= k < n && 0 <= j < schema.entries[k].fields.len() ==> ({
            let e = schema.entries[k];
            let start = entries_plan(schema, k as nat, s).1;
            let before = fields_plan(schema, e, j as nat, start).1;
            let (plan, after) = field_plan(schema, e.id, e.name, j as u16, e.fields[j], before);
            &&& entries_plan(schema, n, s).0[e.id].len() == e.fields.len()
            &&& entries_plan(schema, n, s).0[e.id][j] == plan
            &&& gains_channels(s, before)
            &&& gains_channels(before, after)
            &&& gains_channels(after, entries_plan(schema, n, s).1)
            &&& speaks_of(plan, before.channels.len(), after.channels.len())
        }),
    decreases n,
{
    if n > 0 {
        let m = n - 1;
        let e = schema.entries[m];
        let start = entries_plan(schema, m as nat, s).1;
        let end = entries_plan(schema, n, s).1;
        lemma_fields_len(schema, e, e.fields.len(), start);
        lemma_entries_gain(schema, m as nat, s, k, j);
        lemma_fields_gain(schema, e, e.fields.len(), start, j);
        lemma_gains_on(s, start, end);
        assert forall|id: u16| #[trigger]
            entries_plan(schema, n, s).0.contains_key(id) implies exists|m: int|
            0 <= m < n && (#[trigger] schema.entries[m]).id == id by {
            if id == e.id {
                assert(schema.entries[m].id == id);
            } else {
                assert(entries_plan(schema, m as nat, s).0.contains_key(id));
                let q = choose|q: int| 0 <= q < m && (#[trigger] schema.entries[q]).id == id;
                assert(schema.entries[q].id == id);
            }
        }
        if 0 <= k < n {
            let ek = schema.entries[k];
            let start_k = entries_plan(schema, k as nat, s).1;
            let end_k = fields_plan(schema, ek, ek.fields.len(), start_k).1;
            lemma_gains_refl(end);
            if k < m {
                assert(ek.id != e.id);
                lemma_gains_on(end_k, start, end);
            }
            lemma_fields_gain(schema, ek, ek.fields.len(), start_k, j);
            if 0 <= j < ek.fields.len() {
                let before = fields_plan(schema, ek, j as nat, start_k).1;
                let after = field_plan(schema, ek.id, ek.name, j as u16, ek.fields[j], before).1;
                lemma_gains_on(s, start_k, before);
                lemma_gains_on(after, end_k, end);
            }
        }
    }
}

proof fn lemma_gains_refl(s: StoreView)
    requires
        s.wf(),
    ensures
        gains_channels(s, s),
{
}

/// Whether samples go to the channel from the `j`th field of entries with the id, and
/// from no other field.
pub open spec fn only_from(
    map: Map<u16, Seq<FieldPlan>>,
    ch: ChannelId,
    id: u16,
    j: int,
) -> bool {
    &&& map.contains_key(id)
    &&& 0 <= j < map[id].len()
    &&& forall|i: u16, k: int|
        map.contains_key(i) && 0 <= k < map[i].len() && mentions(#[trigger] map[i][k], ch) ==> i
            == id && k == j
}

/// No two fields of a schema share a channel.
pub proof fn law_fields_have_channels_of_their_own(
    schema: SchemaView,
    s: StoreView,
    k: int,
    j: int,
    ch: ChannelId,
)
    requires
        s.wf(),
        crate::mapper::distinct_ids(schema.entries, schema.entries.len() as int),
        entries_plan(schema, schema.entries.len(), s).1.channels.len() <= 0x1_0000_0000,
        0 <= k < schema.entries.len(),
        0 <= j < schema.entries[k].fields.len(),
        mentions(entries_plan(schema, schema.entries.len(), s).0[schema.entries[k].id][j], ch),
    ensures
        s.channels.len() <= ch < entries_plan(schema, schema.entries.len(), s).1.channels.len(),
        only_from(
            entries_plan(schema, schema.entries.len(), s).0,
            ch,
            schema.entries[k].id,
            j,
        ),
{
    let n = schema.entries.len();
    let (map, end) = entries_plan(schema, n, s);
    let id = schema.entries[k].id;
    lemma_entries_gain(schema, n, s, k, j);
    assert forall|i: u16, q: int|
        map.contains_key(i) && 0 <= q < map[i].len() && mentions(
            #[trigger] map[i][q],
            ch,
        ) implies i == id && q == j by {
        let m = choose|m: int| 0 <= m < n && (#[trigger] schema.entries[m]).id == i;
        lemma_entries_gain(schema, n, s, m, 0);
        lemma_fields_gain(
            schema,
            schema.entries[m],
            schema.entries[m].fields.len(),
            entries_plan(schema, m as nat, s).1,
            0,
        );
        lemma_entries_gain(schema, n, s, m, q);
        if m < k {
            lemma_apart(schema, s, m, q, k, j);
        } else if k < m {
            lemma_apart(schema, s, k, j, m, q);
        } else if q < j {
            lemma_apart(schema, s, m, q, k, j);
        } else if j < q {
            lemma_apart(schema, s, k, j, m, q);
        }
    }
}

/// The channels of a field are registered before those of a later one.
proof fn lemma_apart(schema: SchemaView, s: StoreView, k: int, j: int, m: int, q: int)
    requires
        s.wf(),
        crate::mapper::distinct_ids(schema.entries, schema.entries.len() as int),
        entries_plan(schema, schema.entries.len(), s).1.channels.len() <= 0x1_0000_0000,
        0 <= k <= m < schema.entries.len(),
        0 <= j < schema.entries[k].fields.len(),
        0 <= q < schema.entries[m].fields.len(),
        k < m || j < q,
    ensures
        ({
            let a = schema.entries[k];
            let b = schema.entries[m];
            let before_a = fields_plan(
                schema,
                a,
                j as nat,
                entries_plan(schema, k as nat, s).1,
            ).1;
            let before_b = fields_plan(
                schema,
                b,
                q as nat,
                entries_plan(schema, m as nat, s).1,
            ).1;
            field_plan(schema, a.id, a.name, j as u16, a.fields[j], before_a).1.channels.len()
                <= before_b.channels.len()
        }),
{
    let a = schema.entries[k];
    let start_a = entries_plan(schema, k as nat, s).1;
    let start_b = entries_plan(schema, m as nat, s).1;
    lemma_fields_len(schema, schema.entries[m], q as nat, start_b);
    if k < m {
        lemma_fields_up(schema, a, (j + 1) as nat, a.fields.len(), start_a);
        lemma_entries_up(schema, (k + 1) as nat, m as nat, s);
    } else {
        lemma_fields_up(schema, a, (j + 1) as nat, q as nat, start_a);
    }
}

proof fn lemma_fields_up(schema: SchemaView, e: SchemaEntryView, a: nat, b: nat, s: StoreView)
    requires
        a <= b,
    ensures
        fields_plan(schema, e, a, s).1.channels.len() <= fields_plan(
            schema,
            e,
            b,
            s,
        ).1.channels.len(),
    decreases b,
{
    if a < b {
        lemma_fields_up(schema, e, a, (b - 1) as nat, s);
        let before = fields_plan(schema, e, (b - 1) as nat, s).1;
        lemma_field_len(schema, e.id, e.name, (b - 1) as u16, e.fields[b - 1], before);
    }
}

proof fn lemma_entries_up(schema: SchemaView, a: nat, b: nat, s: StoreView)
    requires
        a <= b,
    ensures
        entries_plan(schema, a, s).1.channels.len() <= entries_plan(schema, b, s).1.channels.len(),
    decreases b,
{
    if a < b {
        lemma_entries_up(schema, a, (b - 1) as nat, s);
        let e = schema.entries[b - 1];
        lemma_fields_len(schema, e, e.fields.len(), entries_plan(schema, (b - 1) as nat, s).1);
    }
}

/// Whether two stores have the same channels, and the same samples in one of them.
spec fn agree_on(a: StoreView, b: StoreView, ch: ChannelId) -> bool {
    &&& same_tables(a, b)
    &&& ch < a.scalars.len() ==> b.scalars[ch as int] == a.scalars[ch as int]
    &&& ch < a.states.len() ==> b.states[ch as int] == a.states[ch as int]
}

spec fn same_tables(a: StoreView, b: StoreView) -> bool {
    &&& b.channels == a.channels
    &&& b.words == a.words
    &&& b.scalars.len() == a.scalars.len()
    &&& b.states.len() == a.states.len()
}

proof fn lemma_array_elsewhere(
    s: StoreView,
    ty: FieldType,
    base: int,
    size: int,
    channels: Seq<ChannelId>,
    t: u64,
    payload: Seq<u8>,
    n: nat,
    ch: ChannelId,
)
    requires
        n <= channels.len(),
        forall|i: int| 0 <= i < n ==> #[trigger] channels[i] != ch,
    ensures
        agree_on(s, with_array_samples(s, ty, base, size, channels, t, payload, n), ch),
    decreases n,
{
    if n > 0 {
        lemma_array_elsewhere(s, ty, base, size, channels, t, payload, (n - 1) as nat, ch);
        assert(channels[n - 1] != ch);
    }
}

proof fn lemma_array_at(
    s: StoreView,
    ty: FieldType,
    base: int,
    size: int,
    channels: Seq<ChannelId>,
    t: u64,
    payload: Seq<u8>,
    n: nat,
    i: int,
)
    requires
        0 <= i < n <= channels.len(),
        channels[i] < s.scalars.len(),
        forall|k: int| 0 <= k < n && k != i ==> #[trigger] channels[k] != channels[i],
    ensures
        same_tables(s, with_array_samples(s, ty, base, size, channels, t, payload, n)),
        with_array_samples(s, ty, base, size, channels, t, payload, n).scalars[channels[i] as int]
            == appended(
            s.scalars[channels[i] as int],
            t,
            numeral(scalar_at(ty, payload, base + i * size, size)),
        ),
    decreases n,
{
    let m = (n - 1) as nat;
    if i == m {
        lemma_array_elsewhere(s, ty, base, size, channels, t, payload, m, channels[i]);
    } else {
        lemma_array_at(s, ty, base, size, channels, t, payload, m, i);
        assert(channels[m as int] != channels[i]);
    }
}

proof fn lemma_lanes_elsewhere(
    s: StoreView,
    raw: nat,
    bits: Seq<BitLane>,
    t: u64,
    n: nat,
    ch: ChannelId,
)
    requires
        n <= bits.len(),
        forall|i: int| 0 <= i < n ==> (#[trigger] bits[i]).ch != ch,
    ensures
        agree_on(s, with_bit_samples(s, raw, bits, t, n), ch),
    decreases n,
{
    if n > 0 {
        lemma_lanes_elsewhere(s, raw, bits, t, (n - 1) as nat, ch);
        assert(bits[n - 1].ch != ch);
    }
}

proof fn lemma_lane_at(s: StoreView, raw: nat, bits: Seq<BitLane>, t: u64, n: nat, i: int)
    requires
        0 <= i < n <= bits.len(),
        bits[i].ch < s.scalars.len(),
        forall|k: int| 0 <= k < n && k != i ==> (#[trigger] bits[k]).ch != bits[i].ch,
    ensures
        same_tables(s, with_bit_samples(s, raw, bits, t, n)),
        with_bit_samples(s, raw, bits, t, n).scalars[bits[i].ch as int]
            == s.scalars[bits[i].ch as int].push(
            (t, double_of_nat(bits_of(raw, bits[i].start as nat, bits[i].width as nat)) as u64),
        ),
    decreases n,
{
    let m = (n - 1) as nat;
    if i == m {
        lemma_lanes_elsewhere(s, raw, bits, t, m, bits[i].ch);
    } else {
        lemma_lane_at(s, raw, bits, t, m, i);
        assert(bits[m as int].ch != bits[i].ch);
    }
}

/// A number as it stands in a sample.
pub open spec fn numeral(v: Option<nat>) -> Option<u64> {
    match v {
        Some(x) => Some(x as u64),
        None => None,
    }
}

/// Samples with one more at `t`, where there is a value.
pub open spec fn appended(s: Seq<(u64, u64)>, t: u64, v: Option<u64>) -> Seq<(u64, u64)> {
    match v {
        Some(x) => s.push((t, x)),
        None => s,
    }
}

proof fn lemma_field_elsewhere(
    s: StoreView,
    plan: FieldPlan,
    t: u64,
    payload: Seq<u8>,
    ch: ChannelId,
)
    requires
        !mentions(plan, ch),
    ensures
        agree_on(s, with_field(s, plan, t, payload), ch),
{
    match plan {
        FieldPlan::ScalarArray { ty, base_offset, elem_size, channels } => {
            assert forall|i: int| 0 <= i < channels.len() implies #[trigger] channels[i] != ch by {
                assert(channels.contains(channels[i]));
            }
            lemma_array_elsewhere(
                s,
                ty,
                base_offset as int,
                elem_size as int,
                channels,
                t,
                payload,
                channels.len(),
                ch,
            );
        },
        FieldPlan::Bitfield { offset, storage_bytes, word, bits } => {
            let raw = word_at(payload, offset as int, storage_bytes as int);
            let with_word = match word {
                Some(c) => s.with_scalar(c, t, double_of_nat(raw) as u64),
                None => s,
            };
            assert forall|i: int| 0 <= i < bits.len() implies (#[trigger] bits[i]).ch != ch by {}
            lemma_lanes_elsewhere(with_word, raw, bits, t, bits.len(), ch);
        },
        _ => {},
    }
}

proof fn lemma_fields_elsewhere(
    s: StoreView,
    plans: Seq<FieldPlan>,
    t: u64,
    payload: Seq<u8>,
    n: nat,
    ch: ChannelId,
)
    requires
        n <= plans.len(),
        forall|i: int| 0 <= i < n ==> !mentions(#[trigger] plans[i], ch),
    ensures
        agree_on(s, with_fields(s, plans, t, payload, n), ch),
    decreases n,
{
    if n > 0 {
        lemma_fields_elsewhere(s, plans, t, payload, (n - 1) as nat, ch);
        assert(!mentions(plans[n - 1], ch));
        lemma_field_elsewhere(
            with_fields(s, plans, t, payload, (n - 1) as nat),
            plans[n - 1],
            t,
            payload,
            ch,
        );
    }
}

/// Whether every entry with the field appends to the channel's numbers what `f` tells of
/// its payload.
spec fn appends(plan: FieldPlan, ch: ChannelId, f: spec_fn(Seq<u8>) -> Option<u64>) -> bool {
    forall|s: StoreView, t: u64, payload: Seq<u8>|
        #![trigger with_field(s, plan, t, payload)]
        ch < s.scalars.len() ==> same_tables(s, with_field(s, plan, t, payload)) && with_field(
            s,
            plan,
            t,
            payload,
        ).scalars[ch as int] == appended(s.scalars[ch as int], t, f(payload))
}

/// Whether every entry with the field lets the channel observe what `f` tells of its
/// payload.
spec fn observes(plan: FieldPlan, ch: ChannelId, f: spec_fn(Seq<u8>) -> Option<u32>) -> bool {
    forall|s: StoreView, t: u64, payload: Seq<u8>|
        #![trigger with_field(s, plan, t, payload)]
        ch < s.states.len() ==> same_tables(s, with_field(s, plan, t, payload)) && with_field(
            s,
            plan,
            t,
            payload,
        ).states[ch as int] == (match f(payload) {
            Some(v) => observe(s.states[ch as int], t, v),
            None => s.states[ch as int],
        })
}

proof fn lemma_fields_once(
    s: StoreView,
    plans: Seq<FieldPlan>,
    t: u64,
    payload: Seq<u8>,
    n: nat,
    ch: ChannelId,
    j: int,
)
    requires
        0 <= j < n <= plans.len(),
        forall|i: int| 0 <= i < n && i != j ==> !mentions(#[trigger] plans[i], ch),
    ensures
        ({
            let before = with_fields(s, plans, t, payload, j as nat);
            &&& agree_on(s, before, ch)
            &&& agree_on(
                with_field(before, plans[j], t, payload),
                with_fields(s, plans, t, payload, n),
                ch,
            )
        }),
    decreases n,
{
    if j == n - 1 {
        lemma_fields_elsewhere(s, plans, t, payload, j as nat, ch);
    } else {
        let m = (n - 1) as nat;
        lemma_fields_once(s, plans, t, payload, m, ch, j);
        lemma_field_elsewhere(
            with_fields(s, plans, t, payload, m),
            plans[m as int],
            t,
            payload,
            ch,
        );
    }
}

/// What an entry tells at its own time, if it has the id.
pub open spec fn reading<V>(id: u16, f: spec_fn(Seq<u8>) -> Option<V>) -> spec_fn(
    EntryView,
) -> Option<(u64, V)> {
    |e: EntryView|
        if e.id == id {
            match f(e.payload) {
                Some(v) => Some((e.timestamp, v)),
                None => None,
            }
        } else {
            None
        }
}

proof fn lemma_entries_append(
    s: StoreView,
    map: Map<u16, Seq<FieldPlan>>,
    entries: Seq<EntryView>,
    n: nat,
    ch: ChannelId,
    id: u16,
    j: int,
    f: spec_fn(Seq<u8>) -> Option<u64>,
)
    requires
        n <= entries.len(),
        ch < s.scalars.len(),
        only_from(map, ch, id, j),
        appends(map[id][j], ch, f),
    ensures
        same_tables(s, with_entries(s, map, entries, n)),
        with_entries(s, map, entries, n).scalars[ch as int] == s.scalars[ch as int] + entries.take(
            n as int,
        ).filter_map(reading(id, f)),
    decreases n,
{
    if n == 0 {
        assert(s.scalars[ch as int] + entries.take(0).filter_map(reading(id, f))
            =~= s.scalars[ch as int]);
    } else {
        let m = (n - 1) as nat;
        let e = entries[m as int];
        let before = with_entries(s, map, entries, m);
        let after = with_entries(s, map, entries, n);
        lemma_entries_append(s, map, entries, m, ch, id, j, f);
        entries.lemma_filter_map_take_succ(reading(id, f), m as int);
        lemma_entry_once(before, map, e, ch, id, j);
        if e.id == id {
            let mid = with_fields(before, map[id], e.timestamp, e.payload, j as nat);
            let step = with_field(mid, map[id][j], e.timestamp, e.payload);
            assert(after.scalars[ch as int] == appended(
                before.scalars[ch as int],
                e.timestamp,
                f(e.payload),
            ));
        }
        assert(after.scalars[ch as int] =~= s.scalars[ch as int] + entries.take(
            n as int,
        ).filter_map(reading(id, f)));
    }
}

proof fn lemma_entry_once(
    s: StoreView,
    map: Map<u16, Seq<FieldPlan>>,
    e: EntryView,
    ch: ChannelId,
    id: u16,
    j: int,
)
    requires
        only_from(map, ch, id, j),
    ensures
        e.id != id ==> agree_on(s, with_entry(s, map, e.id, e.timestamp, e.payload), ch),
        e.id == id ==> ({
            let before = with_fields(s, map[id], e.timestamp, e.payload, j as nat);
            &&& agree_on(s, before, ch)
            &&& agree_on(
                with_field(before, map[id][j], e.timestamp, e.payload),
                with_entry(s, map, e.id, e.timestamp, e.payload),
                ch,
            )
        }),
{
    if e.id == id {
        assert forall|i: int| 0 <= i < map[id].len() && i != j implies !mentions(
            #[trigger] map[id][i],
            ch,
        ) by {}
        lemma_fields_once(s, map[id], e.timestamp, e.payload, map[id].len(), ch, j);
    } else if map.contains_key(e.id) {
        assert forall|i: int| 0 <= i < map[e.id].len() implies !mentions(
            #[trigger] map[e.id][i],
            ch,
        ) by {}
        lemma_fields_elsewhere(s, map[e.id], e.timestamp, e.payload, map[e.id].len(), ch);
    }
}

proof fn lemma_entries_observe(
    s: StoreView,
    map: Map<u16, Seq<FieldPlan>>,
    entries: Seq<EntryView>,
    n: nat,
    ch: ChannelId,
    id: u16,
    j: int,
    f: spec_fn(Seq<u8>) -> Option<u32>,
    obs: Seq<(u64, u32)>,
)
    requires
        n <= entries.len(),
        ch < s.states.len(),
        s.states[ch as int] == observed(obs),
        only_from(map, ch, id, j),
        observes(map[id][j], ch, f),
    ensures
        same_tables(s, with_entries(s, map, entries, n)),
        with_entries(s, map, entries, n).states[ch as int] == observed(
            obs + entries.take(n as int).filter_map(reading(id, f)),
        ),
    decreases n,
{
    let all = obs + entries.take(n as int).filter_map(reading(id, f));
    if n == 0 {
        assert(all =~= obs);
    } else {
        let m = (n - 1) as nat;
        let e = entries[m as int];
        let before = with_entries(s, map, entries, m);
        let after = with_entries(s, map, entries, n);
        let earlier = obs + entries.take(m as int).filter_map(reading(id, f));
        lemma_entries_observe(s, map, entries, m, ch, id, j, f, obs);
        entries.lemma_filter_map_take_succ(reading(id, f), m as int);
        lemma_entry_once(before, map, e, ch, id, j);
        if e.id == id {
            let mid = with_fields(before, map[id], e.timestamp, e.payload, j as nat);
            let step = with_field(mid, map[id][j], e.timestamp, e.payload);
            assert(after.states[ch as int] == step.states[ch as int]);
            match f(e.payload) {
                Some(v) => {
                    assert(all =~= earlier.push((e.timestamp, v)));
                    assert(all.drop_last() =~= earlier);
                },
                None => {
                    assert(all =~= earlier);
                },
            }
        } else {
            assert(all =~= earlier);
        }
    }
}

/// Whether a schema can be mapped into the store: its ids differ, and there are numbers
/// for all of its channels.
pub open spec fn can_map(schema: SchemaView, s: StoreView) -> bool {
    &&& s.wf()
    &&& forall|a: int, b: int|
        0 <= a < b < schema.entries.len() ==> (#[trigger] schema.entries[a]).id != (
        #[trigger] schema.entries[b]).id
    &&& entries_plan(schema, schema.entries.len(), s).1.channels.len() <= 0x1_0000_0000
}

/// The store after a schema was mapped into it and a packet was taken in.
pub open spec fn after_packet(schema: SchemaView, s: StoreView, p: PacketView) -> StoreView {
    let (map, mapped) = entries_plan(schema, schema.entries.len(), s);
    with_packet_samples(mapped, map, p)
}

/// Whether the type is one of numbers.
pub open spec fn holds_numbers(ty: FieldType) -> bool {
    ty != FieldType::Bool && ty != FieldType::Bytes && ty != FieldType::Enum && ty
        != FieldType::Bitfield && ty != FieldType::String
}

/// The number in `size` bytes of the payload from `off` on, where it reaches that far.
pub open spec fn number_at(ty: FieldType, off: int, size: int) -> spec_fn(Seq<u8>) -> Option<u64> {
    |payload: Seq<u8>|
        if off + size <= payload.len() {
            numeral(crate::value::number_of(ty, payload.subrange(off, off + size)))
        } else {
            None
        }
}

/// A new channel of a mapped schema that was taken a packet for.
proof fn lemma_recorded(
    schema: SchemaView,
    s: StoreView,
    p: PacketView,
    k: int,
    j: int,
    ch: ChannelId,
    f: spec_fn(Seq<u8>) -> Option<u64>,
)
    requires
        can_map(schema, s),
        0 <= k < schema.entries.len(),
        0 <= j < schema.entries[k].fields.len(),
        mentions(entries_plan(schema, schema.entries.len(), s).0[schema.entries[k].id][j], ch),
        appends(entries_plan(schema, schema.entries.len(), s).0[schema.entries[k].id][j], ch, f),
    ensures
        s.channels.len() <= ch < after_packet(schema, s, p).channels.len(),
        after_packet(schema, s, p).channels == entries_plan(
            schema,
            schema.entries.len(),
            s,
        ).1.channels,
        after_packet(schema, s, p).words == entries_plan(schema, schema.entries.len(), s).1.words,
        after_packet(schema, s, p).samples(ch) == p.entries.filter_map(
            reading(schema.entries[k].id, f),
        ),
{
    let n = schema.entries.len();
    let (map, mapped) = entries_plan(schema, n, s);
    let id = schema.entries[k].id;
    law_fields_have_channels_of_their_own(schema, s, k, j, ch);
    lemma_entries_gain(schema, n, s, k, j);
    lemma_entries_append(mapped, map, p.entries, p.entries.len(), ch, id, j, f);
    assert(p.entries.take(p.entries.len() as int) =~= p.entries);
    assert(mapped.scalars[ch as int].len() == 0);
    assert(mapped.scalars[ch as int] + p.entries.filter_map(reading(id, f))
        =~= p.entries.filter_map(reading(id, f)));
}

/// The same for a channel of states.
proof fn lemma_observed_in_packet(
    schema: SchemaView,
    s: StoreView,
    p: PacketView,
    k: int,
    j: int,
    ch: ChannelId,
    f: spec_fn(Seq<u8>) -> Option<u32>,
)
    requires
        can_map(schema, s),
        0 <= k < schema.entries.len(),
        0 <= j < schema.entries[k].fields.len(),
        mentions(entries_plan(schema, schema.entries.len(), s).0[schema.entries[k].id][j], ch),
        observes(entries_plan(schema, schema.entries.len(), s).0[schema.entries[k].id][j], ch, f),
    ensures
        s.channels.len() <= ch < after_packet(schema, s, p).channels.len(),
        after_packet(schema, s, p).channels == entries_plan(
            schema,
            schema.entries.len(),
            s,
        ).1.channels,
        after_packet(schema, s, p).runs(ch) == observed(
            p.entries.filter_map(reading(schema.entries[k].id, f)),
        ),
{
    let n = schema.entries.len();
    let (map, mapped) = entries_plan(schema, n, s);
    let id = schema.entries[k].id;
    law_fields_have_channels_of_their_own(schema, s, k, j, ch);
    lemma_entries_gain(schema, n, s, k, j);
    assert(mapped.scalars[ch as int].len() == 0);
    assert(mapped.states[ch as int] =~= observed(Seq::empty()));
    lemma_entries_observe(mapped, map, p.entries, p.entries.len(), ch, id, j, f, Seq::empty());
    assert(p.entries.take(p.entries.len() as int) =~= p.entries);
    assert(Seq::<(u64, u32)>::empty() + p.entries.filter_map(reading(id, f))
        =~= p.entries.filter_map(reading(id, f)));
}

/// A numeric field has a channel under `entry.field`. A packet adds to it, for each of
/// its entries with the id of the field's entry and in their order, a sample with the
/// timestamp of that very entry and the number in that entry's payload, and no other.
pub proof fn law_scalar_field_is_recorded(
    schema: SchemaView,
    s: StoreView,
    p: PacketView,
    k: int,
    j: int,
) -> (ch: ChannelId)
    requires
        can_map(schema, s),
        0 <= k < schema.entries.len(),
        0 <= j < schema.entries[k].fields.len(),
        holds_numbers(schema.entries[k].fields[j].ty),
        schema.entries[k].fields[j].count == 1,
    ensures
        ({
            let e = schema.entries[k];
            let f = e.fields[j];
            let after = after_packet(schema, s, p);
            &&& s.channels.len() <= ch < after.channels.len()
            &&& after.channels[ch as int] == (ChannelView {
                id: ch,
                path: e.name + seq!['.'] + f.name,
                kind: KindView::Scalar,
                integer_storage: f.ty != FieldType::F32 && f.ty != FieldType::F64,
            })
            &&& after.samples(ch) == p.entries.filter_map(
                reading(e.id, number_at(f.ty, f.offset as int, f.size as int)),
            )
        }),
{
    let e = schema.entries[k];
    let f = e.fields[j];
    let n = schema.entries.len();
    lemma_entries_gain(schema, n, s, k, j);
    let before = fields_plan(schema, e, j as nat, entries_plan(schema, k as nat, s).1).1;
    let (plan, after) = field_plan(schema, e.id, e.name, j as u16, f, before);
    let mapped = entries_plan(schema, n, s).1;
    let ch = before.channels.len() as u32;
    let g = number_at(f.ty, f.offset as int, f.size as int);
    assert(mapped.channels[ch as int] == after.channels[ch as int]);
    assert(appends(plan, ch, g)) by {
        assert forall|s: StoreView, t: u64, payload: Seq<u8>|
            #![trigger with_field(s, plan, t, payload)]
            ch < s.scalars.len() implies same_tables(s, with_field(s, plan, t, payload))
            && with_field(s, plan, t, payload).scalars[ch as int] == appended(
            s.scalars[ch as int],
            t,
            g(payload),
        ) by {}
    }
    lemma_recorded(schema, s, p, k, j, ch, g);
    assert(channel_path(e.name, f.name, Seq::empty()) =~= e.name + seq!['.'] + f.name);
    ch
}

/// Each element of a numeric array has a channel under `entry.field[i]`, which a packet
/// adds the numbers at that element's place to, each with the timestamp of its entry.
pub proof fn law_array_element_is_recorded(
    schema: SchemaView,
    s: StoreView,
    p: PacketView,
    k: int,
    j: int,
    i: int,
) -> (ch: ChannelId)
    requires
        can_map(schema, s),
        0 <= k < schema.entries.len(),
        0 <= j < schema.entries[k].fields.len(),
        holds_numbers(schema.entries[k].fields[j].ty),
        schema.entries[k].fields[j].count != 1,
        0 <= i < schema.entries[k].fields[j].count,
    ensures
        ({
            let e = schema.entries[k];
            let f = e.fields[j];
            let after = after_packet(schema, s, p);
            let width = f.size as int / f.count as int;
            &&& s.channels.len() <= ch < after.channels.len()
            &&& after.channels[ch as int] == (ChannelView {
                id: ch,
                path: e.name + seq!['.'] + f.name + seq!['['] + crate::text::decimal(i as nat)
                    + seq![']'],
                kind: KindView::Scalar,
                integer_storage: f.ty != FieldType::F32 && f.ty != FieldType::F64,
            })
            &&& after.samples(ch) == p.entries.filter_map(
                reading(e.id, number_at(f.ty, f.offset + i * width, width)),
            )
        }),
{
    let e = schema.entries[k];
    let f = e.fields[j];
    let n = schema.entries.len();
    lemma_entries_gain(schema, n, s, k, j);
    let before = fields_plan(schema, e, j as nat, entries_plan(schema, k as nat, s).1).1;
    let (plan, after) = field_plan(schema, e.id, e.name, j as u16, f, before);
    let mapped = entries_plan(schema, n, s).1;
    let ch = (before.channels.len() + i) as u32;
    let width = f.size as int / f.count as int;
    let g = number_at(f.ty, f.offset + i * width, width);
    let run = channel_run(before.channels.len(), f.count as nat);
    lemma_elements(before, e.name, f.name, is_integer(f.ty), f.count as nat);
    assert(width <= f.size) by (nonlinear_arith)
        requires
            width == f.size as int / f.count as int,
            f.count > 0,
            f.size >= 0,
    ;
    assert(element_size(f) == width);
    assert(mapped.channels[ch as int] == after.channels[ch as int]);
    assert(run[i] == ch);
    assert(mentions(plan, ch));
    assert(appends(plan, ch, g)) by {
        assert forall|s: StoreView, t: u64, payload: Seq<u8>|
            #![trigger with_field(s, plan, t, payload)]
            ch < s.scalars.len() implies same_tables(s, with_field(s, plan, t, payload))
            && with_field(s, plan, t, payload).scalars[ch as int] == appended(
            s.scalars[ch as int],
            t,
            g(payload),
        ) by {
            lemma_array_at(
                s,
                f.ty,
                f.offset as int,
                width,
                run,
                t,
                payload,
                run.len(),
                i,
            );
        }
    }
    lemma_recorded(schema, s, p, k, j, ch, g);
    assert(channel_path(e.name, f.name, element_suffix(i as nat)) =~= e.name + seq!['.'] + f.name
        + seq!['['] + crate::text::decimal(i as nat) + seq![']']);
    ch
}

/// The byte of the payload at `off`, where it reaches that far.
pub open spec fn byte_at(off: int) -> spec_fn(Seq<u8>) -> Option<u32> {
    |payload: Seq<u8>|
        if off < payload.len() {
            Some(payload[off] as u32)
        } else {
            None
        }
}

/// Whether `m` is the first of the label tables that is for the field.
pub open spec fn first_table(enums: Seq<EnumView>, id: u16, field: u16, m: int) -> bool {
    &&& 0 <= m < enums.len()
    &&& enums[m].schema_id == id && enums[m].field_index == field
    &&& forall|i: int|
        0 <= i < m ==> !((#[trigger] enums[i]).schema_id == id && enums[i].field_index == field)
}

/// The labels of an enum field: those of the first table that is for it, and none where
/// no table is.
pub open spec fn labelled(
    labels: Seq<Seq<char>>,
    enums: Seq<EnumView>,
    id: u16,
    field: u16,
) -> bool {
    &&& forall|m: int| #[trigger] first_table(enums, id, field, m) ==> labels == enums[m].labels
    &&& (forall|i: int|
        0 <= i < enums.len() ==> !((#[trigger] enums[i]).schema_id == id && enums[i].field_index
            == field)) ==> labels.len() == 0
}

proof fn lemma_enum_index(enums: Seq<EnumView>, id: u16, field: u16, i: int)
    requires
        0 <= i <= enums.len(),
    ensures
        i <= enum_index(enums, id, field, i) <= enums.len(),
        enum_index(enums, id, field, i) < enums.len() ==> enums[enum_index(
            enums,
            id,
            field,
            i,
        )].schema_id == id && enums[enum_index(enums, id, field, i)].field_index == field,
        forall|m: int|
            i <= m < enum_index(enums, id, field, i) ==> !((#[trigger] enums[m]).schema_id == id
                && enums[m].field_index == field),
    decreases enums.len() - i,
{
    if i < enums.len() && !(enums[i].schema_id == id && enums[i].field_index == field) {
        lemma_enum_index(enums, id, field, i + 1);
    }
}

/// A boolean or enum field has a channel of states under `entry.field`. It observes, for
/// each entry of a packet with the id and in their order, the byte of that entry's
/// payload at that entry's own timestamp. Booleans are labelled `false` and `true`, enums
/// as the schema says.
pub proof fn law_state_field_is_recorded(
    schema: SchemaView,
    s: StoreView,
    p: PacketView,
    k: int,
    j: int,
) -> (ch: ChannelId)
    requires
        can_map(schema, s),
        0 <= k < schema.entries.len(),
        0 <= j < schema.entries[k].fields.len() <= 0x1_0000,
        schema.entries[k].fields[j].ty == FieldType::Bool || schema.entries[k].fields[j].ty
            == FieldType::Enum,
        schema.entries[k].fields[j].count == 1,
    ensures
        ({
            let e = schema.entries[k];
            let f = e.fields[j];
            let after = after_packet(schema, s, p);
            let c = after.channels[ch as int];
            &&& s.channels.len() <= ch < after.channels.len()
            &&& c.id == ch
            &&& c.path == e.name + seq!['.'] + f.name
            &&& c.integer_storage
            &&& c.kind matches KindView::State { labels } && (if f.ty == FieldType::Bool {
                labels == seq!["false"@, "true"@]
            } else {
                labelled(labels, schema.enums, e.id, j as u16)
            })
            &&& after.runs(ch) == observed(
                p.entries.filter_map(reading(e.id, byte_at(f.offset as int))),
            )
        }),
{
    let e = schema.entries[k];
    let f = e.fields[j];
    let n = schema.entries.len();
    lemma_entries_gain(schema, n, s, k, j);
    let before = fields_plan(schema, e, j as nat, entries_plan(schema, k as nat, s).1).1;
    let (plan, after) = field_plan(schema, e.id, e.name, j as u16, f, before);
    let mapped = entries_plan(schema, n, s).1;
    let ch = before.channels.len() as u32;
    let g = byte_at(f.offset as int);
    assert(mapped.channels[ch as int] == after.channels[ch as int]);
    assert(observes(plan, ch, g)) by {
        assert forall|s: StoreView, t: u64, payload: Seq<u8>|
            #![trigger with_field(s, plan, t, payload)]
            ch < s.states.len() implies same_tables(s, with_field(s, plan, t, payload))
            && with_field(s, plan, t, payload).states[ch as int] == (match g(payload) {
            Some(v) => observe(s.states[ch as int], t, v),
            None => s.states[ch as int],
        }) by {}
    }
    lemma_observed_in_packet(schema, s, p, k, j, ch, g);
    assert(channel_path(e.name, f.name, Seq::empty()) =~= e.name + seq!['.'] + f.name);
    if f.ty == FieldType::Enum {
        lemma_enum_index(schema.enums, e.id, j as u16, 0);
        let q = enum_index(schema.enums, e.id, j as u16, 0);
        assert forall|m: int| #[trigger] first_table(schema.enums, e.id, j as u16, m) implies m
            == q by {
            if q < m {
                assert(!(schema.enums[q].schema_id == e.id && schema.enums[q].field_index
                    == j as u16));
            }
        }
    }
    ch
}

/// Whether `m` is the first of the bit tables that is for the field.
pub open spec fn first_bits(b: Seq<BitfieldView>, id: u16, field: u16, m: int) -> bool {
    &&& 0 <= m < b.len()
    &&& b[m].schema_id == id && b[m].field_index == field
    &&& forall|i: int|
        0 <= i < m ==> !((#[trigger] b[i]).schema_id == id && b[i].field_index == field)
}

proof fn lemma_bitfield_index(b: Seq<BitfieldView>, id: u16, field: u16, i: int)
    requires
        0 <= i <= b.len(),
    ensures
        i <= bitfield_index(b, id, field, i) <= b.len(),
        bitfield_index(b, id, field, i) < b.len() ==> b[bitfield_index(b, id, field, i)].schema_id
            == id && b[bitfield_index(b, id, field, i)].field_index == field,
        forall|m: int|
            i <= m < bitfield_index(b, id, field, i) ==> !((#[trigger] b[m]).schema_id == id
                && b[m].field_index == field),
    decreases b.len() - i,
{
    if i < b.len() && !(b[i].schema_id == id && b[i].field_index == field) {
        lemma_bitfield_index(b, id, field, i + 1);
    }
}

proof fn lemma_first_bits(b: Seq<BitfieldView>, id: u16, field: u16, m: int)
    requires
        first_bits(b, id, field, m),
    ensures
        bitfield_index(b, id, field, 0) == m,
{
    lemma_bitfield_index(b, id, field, 0);
    let q = bitfield_index(b, id, field, 0);
    if q < m {
        assert(!(b[q].schema_id == id && b[q].field_index == field));
    }
}

/// The word in `size` bytes of the payload from `off` on, of which the first eight
/// count, where it reaches that far; then `width` bits of it from bit `start` on.
pub open spec fn bits_at(off: int, size: int, start: u8, width: u8) -> spec_fn(
    Seq<u8>,
) -> Option<u64> {
    |payload: Seq<u8>|
        if off + size <= payload.len() {
            let bytes = if size < 8 {
                size
            } else {
                8
            };
            let word = crate::bytes::le_value(payload.subrange(off, off + bytes));
            Some(
                double_of_nat(
                    (word / vstd::arithmetic::power2::pow2(start as nat))
                        % vstd::arithmetic::power2::pow2(width as nat),
                ) as u64,
            )
        } else {
            None
        }
}

/// The word in `size` bytes of the payload from `off` on.
pub open spec fn whole_at(off: int, size: int) -> spec_fn(Seq<u8>) -> Option<u64> {
    |payload: Seq<u8>|
        if off + size <= payload.len() {
            Some(
                double_of_nat(crate::bytes::le_value(payload.subrange(off, off + size))) as u64,
            )
        } else {
            None
        }
}

/// Each bit range of a bitfield has a channel under `entry.field.bit`. A packet adds to
/// it the number in that range of the field's word, with the timestamp of the entry that
/// the word was in.
pub proof fn law_bit_is_recorded(
    schema: SchemaView,
    s: StoreView,
    p: PacketView,
    k: int,
    j: int,
    m: int,
    i: int,
) -> (ch: ChannelId)
    requires
        can_map(schema, s),
        0 <= k < schema.entries.len(),
        0 <= j < schema.entries[k].fields.len() <= 0x1_0000,
        schema.entries[k].fields[j].ty == FieldType::Bitfield,
        schema.entries[k].fields[j].count == 1,
        first_bits(schema.bitfields, schema.entries[k].id, j as u16, m),
        0 <= i < schema.bitfields[m].bits.len(),
    ensures
        ({
            let e = schema.entries[k];
            let f = e.fields[j];
            let bit = schema.bitfields[m].bits[i];
            let after = after_packet(schema, s, p);
            &&& s.channels.len() <= ch < after.channels.len()
            &&& after.channels[ch as int] == (ChannelView {
                id: ch,
                path: e.name + seq!['.'] + f.name + seq!['.'] + bit.name,
                kind: KindView::Scalar,
                integer_storage: true,
            })
            &&& after.samples(ch) == p.entries.filter_map(
                reading(e.id, bits_at(f.offset as int, f.size as int, bit.start, bit.width)),
            )
        }),
{
    let e = schema.entries[k];
    let f = e.fields[j];
    let n = schema.entries.len();
    lemma_entries_gain(schema, n, s, k, j);
    lemma_first_bits(schema.bitfields, e.id, j as u16, m);
    let before = fields_plan(schema, e, j as nat, entries_plan(schema, k as nat, s).1).1;
    let (plan, after) = field_plan(schema, e.id, e.name, j as u16, f, before);
    let mapped = entries_plan(schema, n, s).1;
    let bits = schema.bitfields[m].bits;
    let has_word = is_word_width(f.size);
    let base = if has_word {
        before.with_channel(channel_path(e.name, f.name, Seq::empty()), KindView::Scalar, true)
    } else {
        before
    };
    let from = base.channels.len();
    let ch = (from + i) as u32;
    let g = bits_at(f.offset as int, f.size as int, bits[i].start, bits[i].width);
    let lanes = bit_lanes(bits, from);
    lemma_bit_channels(base, e.name, f.name, bits, bits.len());
    assert(from + bits.len() <= 0x1_0000_0000);
    assert(after.channels == with_bits(base, e.name, f.name, bits, bits.len()).channels);
    assert(mapped.channels[ch as int] == after.channels[ch as int]);
    assert(lanes[i].ch == ch);
    assert(mentions(plan, ch));
    assert(appends(plan, ch, g)) by {
        assert forall|s: StoreView, t: u64, payload: Seq<u8>|
            #![trigger with_field(s, plan, t, payload)]
            ch < s.scalars.len() implies same_tables(s, with_field(s, plan, t, payload))
            && with_field(s, plan, t, payload).scalars[ch as int] == appended(
            s.scalars[ch as int],
            t,
            g(payload),
        ) by {
            let raw = word_at(payload, f.offset as int, f.size as int);
            let with_word = if has_word {
                s.with_scalar(before.channels.len() as u32, t, double_of_nat(raw) as u64)
            } else {
                s
            };
            lemma_lane_at(with_word, raw, lanes, t, lanes.len(), i);
        }
    }
    lemma_recorded(schema, s, p, k, j, ch, g);
    assert(channel_path(e.name, f.name, seq!['.'] + bits[i].name) =~= e.name + seq!['.'] + f.name
        + seq!['.'] + bits[i].name);
    ch
}

/// A bitfield of one, two, four or eight bytes has beside its bits a channel under
/// `entry.field` for the whole word, and the store knows which channels are its bits.
pub proof fn law_word_is_recorded(
    schema: SchemaView,
    s: StoreView,
    p: PacketView,
    k: int,
    j: int,
    m: int,
) -> (ch: ChannelId)
    requires
        can_map(schema, s),
        0 <= k < schema.entries.len(),
        0 <= j < schema.entries[k].fields.len() <= 0x1_0000,
        schema.entries[k].fields[j].ty == FieldType::Bitfield,
        schema.entries[k].fields[j].count == 1,
        schema.entries[k].fields[j].size == 1 || schema.entries[k].fields[j].size == 2
            || schema.entries[k].fields[j].size == 4 || schema.entries[k].fields[j].size == 8,
        first_bits(schema.bitfields, schema.entries[k].id, j as u16, m),
    ensures
        ({
            let e = schema.entries[k];
            let f = e.fields[j];
            let bits = schema.bitfields[m].bits;
            let after = after_packet(schema, s, p);
            &&& s.channels.len() <= ch < after.channels.len()
            &&& after.channels[ch as int] == (ChannelView {
                id: ch,
                path: e.name + seq!['.'] + f.name,
                kind: KindView::Scalar,
                integer_storage: true,
            })
            &&& after.samples(ch) == p.entries.filter_map(
                reading(e.id, whole_at(f.offset as int, f.size as int)),
            )
            &&& after.words.contains_key(ch)
            &&& after.words[ch].len() == bits.len()
            &&& forall|i: int|
                0 <= i < bits.len() ==> (#[trigger] after.words[ch][i]) < after.channels.len()
                    && after.channels[after.words[ch][i] as int].path == e.name + seq!['.'] + f.name
                    + seq!['.'] + bits[i].name
        }),
{
    let e = schema.entries[k];
    let f = e.fields[j];
    let n = schema.entries.len();
    lemma_entries_gain(schema, n, s, k, j);
    lemma_first_bits(schema.bitfields, e.id, j as u16, m);
    let before = fields_plan(schema, e, j as nat, entries_plan(schema, k as nat, s).1).1;
    let (plan, after) = field_plan(schema, e.id, e.name, j as u16, f, before);
    let mapped = entries_plan(schema, n, s).1;
    let bits = schema.bitfields[m].bits;
    let base = before.with_channel(
        channel_path(e.name, f.name, Seq::empty()),
        KindView::Scalar,
        true,
    );
    let from = base.channels.len();
    let ch = before.channels.len() as u32;
    let g = whole_at(f.offset as int, f.size as int);
    let lanes = bit_lanes(bits, from);
    let all = with_bits(base, e.name, f.name, bits, bits.len());
    lemma_bit_channels(base, e.name, f.name, bits, bits.len());
    assert(after.channels == all.channels);
    assert(mapped.channels[ch as int] == after.channels[ch as int]);
    assert(all.channels[ch as int] == base.channels[ch as int]);
    assert(mentions(plan, ch));
    assert(appends(plan, ch, g)) by {
        assert forall|s: StoreView, t: u64, payload: Seq<u8>|
            #![trigger with_field(s, plan, t, payload)]
            ch < s.scalars.len() implies same_tables(s, with_field(s, plan, t, payload))
            && with_field(s, plan, t, payload).scalars[ch as int] == appended(
            s.scalars[ch as int],
            t,
            g(payload),
        ) by {
            let raw = word_at(payload, f.offset as int, f.size as int);
            let with_word = s.with_scalar(ch, t, double_of_nat(raw) as u64);
            assert forall|i: int| 0 <= i < lanes.len() implies (#[trigger] lanes[i]).ch != ch by {}
            lemma_lanes_elsewhere(with_word, raw, lanes, t, lanes.len(), ch);
        }
    }
    lemma_recorded(schema, s, p, k, j, ch, g);
    assert(channel_path(e.name, f.name, Seq::empty()) =~= e.name + seq!['.'] + f.name);
    assert(after.words.contains_key(ch));
    assert(mapped.words[ch] == channel_run(from, bits.len()));
    let end = after_packet(schema, s, p);
    assert forall|i: int| 0 <= i < bits.len() implies (#[trigger] end.words[ch][i])
        < end.channels.len() && end.channels[end.words[ch][i] as int].path == e.name + seq!['.']
        + f.name + seq!['.'] + bits[i].name by {
        let c = from + i;
        assert(mapped.channels[c] == after.channels[c]);
        assert(channel_path(e.name, f.name, seq!['.'] + bits[i].name) =~= e.name + seq!['.']
            + f.name + seq!['.'] + bits[i].name);
    }
    ch
}

/// How many channels a field has.
pub open spec fn channels_of_field(schema: SchemaView, id: u16, j: u16, f: FieldView) -> nat {
    if holds_numbers(f.ty) {
        f.count as nat
    } else if f.count != 1 {
        0
    } else if f.ty == FieldType::Bool || f.ty == FieldType::Enum {
        1
    } else if f.ty == FieldType::Bitfield && exists|m: int| first_bits(schema.bitfields, id, j, m) {
        let m = choose|m: int| first_bits(schema.bitfields, id, j, m);
        schema.bitfields[m].bits.len() + (if f.size == 1 || f.size == 2 || f.size == 4 || f.size
            == 8 {
            1nat
        } else {
            0
        })
    } else {
        0
    }
}

/// How many channels the first `n` fields of an entry have.
pub open spec fn channels_of_fields(schema: SchemaView, e: SchemaEntryView, n: nat) -> nat
    decreases n,
{
    if n == 0 {
        0
    } else {
        channels_of_fields(schema, e, (n - 1) as nat) + channels_of_field(
            schema,
            e.id,
            (n - 1) as u16,
            e.fields[n - 1],
        )
    }
}

/// How many channels the first `n` entries of a schema have.
pub open spec fn channels_of_entries(schema: SchemaView, n: nat) -> nat
    decreases n,
{
    if n == 0 {
        0
    } else {
        channels_of_entries(schema, (n - 1) as nat) + channels_of_fields(
            schema,
            schema.entries[n - 1],
            schema.entries[n - 1].fields.len(),
        )
    }
}

proof fn lemma_fields_count(schema: SchemaView, e: SchemaEntryView, n: nat, s: StoreView)
    ensures
        fields_plan(schema, e, n, s).1.channels.len() == s.channels.len() + channels_of_fields(
            schema,
            e,
            n,
        ),
    decreases n,
{
    if n > 0 {
        lemma_fields_count(schema, e, (n - 1) as nat, s);
        let before = fields_plan(schema, e, (n - 1) as nat, s).1;
        let f = e.fields[n - 1];
        let j = (n - 1) as u16;
        let i = bitfield_index(schema.bitfields, e.id, j, 0);
        lemma_bitfield_index(schema.bitfields, e.id, j, 0);
        if holds_numbers(f.ty) {
            lemma_elements_len(before, e.name, f.name, is_integer(f.ty), f.count as nat);
        } else if f.count == 1 && f.ty == FieldType::Bitfield {
            if exists|m: int| first_bits(schema.bitfields, e.id, j, m) {
                let m = choose|m: int| first_bits(schema.bitfields, e.id, j, m);
                lemma_first_bits(schema.bitfields, e.id, j, m);
            }
            if i < schema.bitfields.len() {
                assert(first_bits(schema.bitfields, e.id, j, i));
                let bits = schema.bitfields[i].bits;
                lemma_bits_len(before, e.name, f.name, bits, bits.len());
                lemma_bits_len(
                    before.with_channel(
                        channel_path(e.name, f.name, Seq::empty()),
                        KindView::Scalar,
                        true,
                    ),
                    e.name,
                    f.name,
                    bits,
                    bits.len(),
                );
            }
        }
    }
}

/// A schema registers a channel for each number of its numeric fields, for each boolean
/// and each enum, and for each bit range and each whole word of its bitfields, and no
/// other.
pub proof fn law_schema_registers_its_channels(schema: SchemaView, n: nat, s: StoreView)
    requires
        n <= schema.entries.len(),
    ensures
        entries_plan(schema, n, s).1.channels.len() == s.channels.len() + channels_of_entries(
            schema,
            n,
        ),
    decreases n,
{
    if n > 0 {
        law_schema_registers_its_channels(schema, (n - 1) as nat, s);
        let e = schema.entries[n - 1];
        lemma_fields_count(schema, e, e.fields.len(), entries_plan(schema, (n - 1) as nat, s).1);
    }
}

} // verus!
