//! What packets leave behind in the store and in the capture.

use vstd::prelude::*;

verus! {

use crate::capture::{
    earliest, entry_time, flat, has_table, is_longest_fit, latest, lemma_total_len_push,
    meta_of, total_len, CaptureView,
};
use crate::ingest::{
    is_duplicate, read_step, replayed, with_entries, IngestError, ReadEvent, ReadFault,
    ReadStep, ReplayView,
};
use crate::mapper::{distinct_ids, entries_plan, repeats_id, FieldPlan, MapError};
use crate::mapper_laws::{channels_of_entries, law_schema_registers_its_channels};
use crate::schema::SchemaView;
use crate::store::StoreView;
use crate::wire::{entry_of, header_of, lemma_collect_ok, packet_of, EntryView, WireError};

/// Taking in two runs of entries one after the other is taking them in together.
pub proof fn law_entries_are_taken_in_order(
    s: StoreView,
    map: Map<u16, Seq<FieldPlan>>,
    a: Seq<EntryView>,
    b: Seq<EntryView>,
    n: nat,
)
    requires
        n <= b.len(),
    ensures
        with_entries(s, map, a + b, a.len() + n) == with_entries(
            with_entries(s, map, a, a.len()),
            map,
            b,
            n,
        ),
    decreases n,
{
    if n > 0 {
        law_entries_are_taken_in_order(s, map, a, b, (n - 1) as nat);
        assert((a + b)[a.len() + n - 1] == b[n - 1]);
    } else {
        lemma_same_entries(s, map, a + b, a, a.len());
    }
}

proof fn lemma_same_entries(
    s: StoreView,
    map: Map<u16, Seq<FieldPlan>>,
    a: Seq<EntryView>,
    b: Seq<EntryView>,
    n: nat,
)
    requires
        n <= a.len(),
        n <= b.len(),
        forall|i: int| 0 <= i < n ==> #[trigger] a[i] == b[i],
    ensures
        with_entries(s, map, a, n) == with_entries(s, map, b, n),
    decreases n,
{
    if n > 0 {
        lemma_same_entries(s, map, a, b, (n - 1) as nat);
        assert(a[n - 1] == b[n - 1]);
    }
}

/// The entries of the packets that decode, in their order.
pub open spec fn entries_in(packets: Seq<Seq<u8>>) -> Seq<EntryView> {
    packets.filter(|b: Seq<u8>| packet_of(b) is Ok).map_values(
        |b: Seq<u8>| packet_of(b)->Ok_0.entries,
    ).flatten()
}

proof fn lemma_entries_in_push(packets: Seq<Seq<u8>>, b: Seq<u8>)
    ensures
        entries_in(packets.push(b)) == entries_in(packets) + (match packet_of(b) {
            Ok(p) => p.entries,
            Err(_) => Seq::empty(),
        }),
        packets.push(b).filter(|b: Seq<u8>| packet_of(b) is Ok) == packets.filter(
            |b: Seq<u8>| packet_of(b) is Ok,
        ) + (if packet_of(b) is Ok {
            seq![b]
        } else {
            Seq::empty()
        }),
{
    reveal(Seq::filter);
    let ok = |b: Seq<u8>| packet_of(b) is Ok;
    let f = |b: Seq<u8>| packet_of(b)->Ok_0.entries;
    assert(packets.push(b).drop_last() =~= packets);
    let kept = packets.filter(ok);
    if packet_of(b) is Ok {
        assert(packets.push(b).filter(ok) =~= kept.push(b));
        assert(kept.push(b).map_values(f) =~= kept.map_values(f).push(f(b)));
        kept.map_values(f).lemma_flatten_push(f(b));
    }
    assert(packets.push(b).filter(ok) =~= kept + (if packet_of(b) is Ok {
        seq![b]
    } else {
        Seq::empty()
    }));
    assert(entries_in(packets.push(b)) =~= entries_in(packets) + (match packet_of(b) {
        Ok(p) => p.entries,
        Err(_) => Seq::empty(),
    }));
}

/// A replay takes in the entries of the packets that decode, and no others, in their
/// order, and counts them; every other packet is counted as skipped and leaves no trace.
pub proof fn law_replay_takes_in_what_decodes(
    start: ReplayView,
    map: Map<u16, Seq<FieldPlan>>,
    packets: Seq<Seq<u8>>,
    n: nat,
)
    requires
        n <= packets.len(),
        start.packets == 0,
        start.entries == 0,
        start.skipped == 0,
    ensures
        ({
            let first = packets.take(n as int);
            let r = replayed(start, map, packets, n);
            &&& r.store == with_entries(
                start.store,
                map,
                entries_in(first),
                entries_in(first).len(),
            )
            &&& r.entries == entries_in(first).len()
            &&& r.packets == first.filter(|b: Seq<u8>| packet_of(b) is Ok).len()
            &&& r.packets + r.skipped == n
        }),
    decreases n,
{
    let first = packets.take(n as int);
    if n == 0 {
        reveal(Seq::filter);
        assert(first =~= Seq::empty());
        assert(entries_in(first) =~= Seq::empty());
    } else {
        let m = (n - 1) as nat;
        let b = packets[m as int];
        let before = packets.take(m as int);
        law_replay_takes_in_what_decodes(start, map, packets, m);
        assert(first =~= before.push(b));
        lemma_entries_in_push(before, b);
        match packet_of(b) {
            Ok(p) => {
                law_entries_are_taken_in_order(
                    start.store,
                    map,
                    entries_in(before),
                    p.entries,
                    p.entries.len(),
                );
            },
            Err(_) => {
                assert(entries_in(first) =~= entries_in(before));
            },
        }
    }
}

proof fn lemma_decoded_has_table(b: Seq<u8>)
    requires
        packet_of(b) is Ok,
    ensures
        has_table(b),
        packet_of(b)->Ok_0.entries.len() == crate::bytes::le_at(b, 0, 2),
        forall|i: int|
            0 <= i < packet_of(b)->Ok_0.entries.len() ==> (#[trigger] packet_of(
                b,
            )->Ok_0.entries[i]).timestamp == entry_time(b, i),
{
    crate::bytes::lemma_le_limits();
    let n = header_of(b).entry_count as nat;
    let g = |i: int| entry_of(b, i);
    lemma_collect_ok(g, n);
    crate::bytes::lemma_le_value_bound(b.subrange(0, 2));
    assert forall|i: int| 0 <= i < packet_of(b)->Ok_0.entries.len() implies (#[trigger] packet_of(
        b,
    )->Ok_0.entries[i]).timestamp == entry_time(b, i) by {
        assert(g(i) == Ok::<EntryView, WireError>(packet_of(b)->Ok_0.entries[i]));
    }
}

/// A replay into a ring with room for the whole file captures the packets that decode,
/// and no others, as they are and in their order.
pub proof fn law_replay_captures_what_decodes(
    start: ReplayView,
    map: Map<u16, Seq<FieldPlan>>,
    packets: Seq<Seq<u8>>,
    n: nat,
)
    requires
        n <= packets.len(),
        start.capture.packets.len() == 0,
        start.capture.total == 0,
        start.capture.dropped == 0,
        total_len(packets) <= start.capture.cap_bytes,
        n < u64::MAX,
    ensures
        ({
            let kept = packets.take(n as int).filter(|b: Seq<u8>| packet_of(b) is Ok);
            let r = replayed(start, map, packets, n).capture;
            &&& r.packets == kept
            &&& r.total == kept.len()
            &&& r.dropped == 0
            &&& r.schema == start.capture.schema
            &&& r.cap_bytes == start.capture.cap_bytes
            &&& r.epoch == start.capture.epoch
            &&& kept.len() <= n
            &&& total_len(kept) <= total_len(packets.take(n as int))
        }),
    decreases n,
{
    let first = packets.take(n as int);
    let ok = |b: Seq<u8>| packet_of(b) is Ok;
    if n == 0 {
        reveal(Seq::filter);
        assert(first =~= Seq::empty());
        assert(first.filter(ok) =~= Seq::empty());
        assert(start.capture.packets =~= Seq::empty());
    } else {
        let m = (n - 1) as nat;
        let b = packets[m as int];
        let before = packets.take(m as int);
        law_replay_captures_what_decodes(start, map, packets, m);
        assert(first =~= before.push(b));
        lemma_entries_in_push(before, b);
        lemma_total_len_push(before, b);
        lemma_total_len_take(packets, n as int);
        let kept = before.filter(ok);
        if packet_of(b) is Ok {
            lemma_decoded_has_table(b);
            lemma_total_len_push(kept, b);
            assert(first.filter(ok) =~= kept.push(b));
        } else {
            assert(first.filter(ok) =~= kept);
        }
    }
}

proof fn lemma_total_len_take(p: Seq<Seq<u8>>, n: int)
    requires
        0 <= n <= p.len(),
    ensures
        total_len(p.take(n)) <= total_len(p),
    decreases p.len() - n,
{
    if n < p.len() {
        lemma_total_len_take(p, n + 1);
        assert(p.take(n + 1) =~= p.take(n).push(p[n]));
        lemma_total_len_push(p.take(n), p[n]);
    } else {
        assert(p.take(n) =~= p);
    }
}

proof fn lemma_times(b: Seq<u8>, n: nat)
    ensures
        forall|i: int| 0 <= i < n ==> earliest(b, n) <= #[trigger] entry_time(b, i) <= latest(b, n),
        n > 0 ==> exists|i: int| 0 <= i < n && earliest(b, n) == #[trigger] entry_time(b, i),
        n > 0 ==> exists|i: int| 0 <= i < n && latest(b, n) == #[trigger] entry_time(b, i),
    decreases n,
{
    if n > 0 {
        let m = (n - 1) as nat;
        lemma_times(b, m);
        reveal_with_fuel(earliest, 2);
        reveal_with_fuel(latest, 2);
        let t = entry_time(b, m as int);
        if m == 0 {
            assert(earliest(b, n) == t);
            assert(latest(b, n) == t);
        } else {
            let i = choose|i: int| 0 <= i < m && earliest(b, m) == #[trigger] entry_time(b, i);
            let j = choose|j: int| 0 <= j < m && latest(b, m) == #[trigger] entry_time(b, j);
            assert(earliest(b, n) == t || earliest(b, n) == entry_time(b, i));
            assert(latest(b, n) == t || latest(b, n) == entry_time(b, j));
        }
    }
}

/// What is noted of a packet that decodes is true of its entries: their number, and the
/// smallest range that holds all of their timestamps.
pub proof fn law_noted_range_holds_the_entries(b: Seq<u8>)
    requires
        packet_of(b) is Ok,
    ensures
        ({
            let entries = packet_of(b)->Ok_0.entries;
            let m = meta_of(b);
            &&& m.entry_count == entries.len()
            &&& entries.len() == 0 ==> m.ts_min == 0 && m.ts_max == 0
            &&& forall|i: int|
                0 <= i < entries.len() ==> m.ts_min <= (#[trigger] entries[i]).timestamp <= m.ts_max
            &&& entries.len() > 0 ==> (exists|i: int|
                0 <= i < entries.len() && (#[trigger] entries[i]).timestamp == m.ts_min)
            &&& entries.len() > 0 ==> (exists|i: int|
                0 <= i < entries.len() && (#[trigger] entries[i]).timestamp == m.ts_max)
        }),
{
    lemma_decoded_has_table(b);
    crate::bytes::lemma_le_limits();
    crate::bytes::lemma_le_value_bound(b.subrange(0, 2));
    let entries = packet_of(b)->Ok_0.entries;
    let n = entries.len();
    lemma_times(b, n);
    if n > 0 {
        let i = choose|i: int| 0 <= i < n && earliest(b, n) == #[trigger] entry_time(b, i);
        let j = choose|j: int| 0 <= j < n && latest(b, n) == #[trigger] entry_time(b, j);
        assert(entries[i].timestamp == meta_of(b).ts_min);
        assert(entries[j].timestamp == meta_of(b).ts_max);
    }
}

/// The time range of a ring holds the ranges of its packets, and each of its ends is the
/// end of one of them.
pub proof fn law_ring_range_holds_the_packets(c: CaptureView, n: nat)
    requires
        n <= c.packets.len(),
    ensures
        forall|i: int|
            0 <= i < n ==> c.first_time(n) <= meta_of(#[trigger] c.packets[i]).ts_min && meta_of(
                c.packets[i],
            ).ts_max <= c.last_time(n),
        n > 0 ==> exists|i: int|
            0 <= i < n && meta_of(#[trigger] c.packets[i]).ts_min == c.first_time(n),
        n > 0 ==> exists|i: int|
            0 <= i < n && meta_of(#[trigger] c.packets[i]).ts_max == c.last_time(n),
    decreases n,
{
    if n > 0 {
        let m = (n - 1) as nat;
        law_ring_range_holds_the_packets(c, m);
        reveal_with_fuel(CaptureView::first_time, 2);
        reveal_with_fuel(CaptureView::last_time, 2);
        let x = meta_of(c.packets[m as int]);
        if m == 0 {
            assert(x.ts_min == c.first_time(n));
            assert(x.ts_max == c.last_time(n));
        } else {
            let i = choose|i: int|
                0 <= i < m && meta_of(#[trigger] c.packets[i]).ts_min == c.first_time(m);
            let j = choose|j: int|
                0 <= j < m && meta_of(#[trigger] c.packets[j]).ts_max == c.last_time(m);
            assert(c.first_time(n) == x.ts_min || c.first_time(n) == meta_of(c.packets[i]).ts_min);
            assert(c.last_time(n) == x.ts_max || c.last_time(n) == meta_of(c.packets[j]).ts_max);
        }
    }
}

/// A read ends when all bytes are there, not sooner and not later, and goes on with what
/// it has until then. A closed connection ends it at any time; a fault that will pass
/// ends it only before the first byte.
pub proof fn law_read_ends_when_all_is_there(filled: usize, want: usize, event: ReadEvent)
    requires
        filled < want,
        event matches ReadEvent::Bytes(n) ==> n <= want - filled,
    ensures
        read_step(filled, want, event) == ReadStep::Done <==> (event matches ReadEvent::Bytes(n) && n
            > 0 && filled + n == want),
        read_step(filled, want, event) matches ReadStep::More(m) ==> m < want && (
        event matches ReadEvent::Bytes(n) && n > 0 && m == filled + n || event is Fault && m
            == filled && filled > 0),
        read_step(filled, want, event) == ReadStep::Fail(IngestError::Closed) <==> event
            == ReadEvent::Bytes(0),
        event matches ReadEvent::Fault(f) ==> (read_step(filled, want, event) == ReadStep::Fail(
            IngestError::Io(f),
        ) <==> f == ReadFault::Other || filled == 0),
{
}

/// A schema that cannot be mapped names the first id that is there for the second time;
/// the channels of the entries before it are registered, and no others.
pub proof fn law_repeated_id_is_named(
    schema: SchemaView,
    before: StoreView,
    e: IngestError,
    after: StoreView,
) -> (k: int)
    requires
        is_duplicate(schema, before, e, after),
    ensures
        0 <= k < schema.entries.len(),
        exists|i: int| 0 <= i < k && (#[trigger] schema.entries[i]).id == schema.entries[k].id,
        forall|i: int, j: int|
            0 <= i < j < k ==> (#[trigger] schema.entries[i]).id != (#[trigger] schema.entries[j]).id,
        e == IngestError::Mapping(MapError::DuplicateSchema(schema.entries[k].id)),
        after.channels.len() == before.channels.len() + channels_of_entries(schema, k as nat),
{
    let k = choose|k: int|
        {
            &&& 0 <= k < schema.entries.len()
            &&& distinct_ids(schema.entries, k)
            &&& #[trigger] repeats_id(schema.entries, k)
            &&& e == IngestError::Mapping(MapError::DuplicateSchema(schema.entries[k].id))
            &&& after == entries_plan(schema, k as nat, before).1
        };
    law_schema_registers_its_channels(schema, k as nat, before);
    k
}

/// The capture that a file is opened into has the schema of the file and nothing else of
/// before but its size.
pub proof fn law_opened_capture_starts_empty(c: CaptureView, schema: Seq<u8>)
    ensures
        c.emptied(schema).wf(),
        c.emptied(schema).schema == Some(schema),
        c.emptied(schema).packets.len() == 0,
        c.emptied(schema).total == 0,
        c.emptied(schema).dropped == 0,
        c.emptied(schema).epoch is None,
        c.emptied(schema).cap_bytes == c.cap_bytes,
{
    assert(flat(c.emptied(schema).packets) =~= Seq::empty());
}

/// A packet that decodes is captured: offered to a ring with room, it is the newest there.
pub proof fn law_decoded_packet_is_captured(c: CaptureView, b: Seq<u8>)
    requires
        c.wf(),
        packet_of(b) is Ok,
        c.total < u64::MAX,
        total_len(c.packets) + b.len() <= usize::MAX,
        b.len() <= c.cap_bytes,
    ensures
        c.with_offered(b).wf(),
        c.with_offered(b).total == c.total + 1,
        c.with_offered(b).packets.len() > 0,
        c.with_offered(b).packets.last() == b,
{
    lemma_decoded_has_table(b);
    crate::capture::Capture::law_push_keeps_the_newest(c, b);
    let all = c.packets.push(b);
    let k = choose|k: int| #[trigger]
        is_longest_fit(all, c.cap_bytes as nat, k) && c.with_packet(b).packets == all.skip(k);
    if k == all.len() {
        let last = all.len() - 1;
        assert(all.skip(last) =~= Seq::empty().push(b));
        lemma_total_len_push(Seq::empty(), b);
        assert(total_len(Seq::empty()) == 0);
        assert(total_len(all.skip(last)) > c.cap_bytes);
    }
    assert(all.skip(k).last() == b);
}

} // verus!
