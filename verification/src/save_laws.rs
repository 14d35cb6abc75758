//! How captures and docks are saved.

use vstd::prelude::*;

verus! {

use crate::btlm::{
    file_head, file_of, fits_file, footer_of, index_entry, index_of, indexed_packet,
    lemma_file_lengths, loaded_of, magic, packet_start, LoadedView,
};
use crate::bytes::{le_at, le_bytes, lemma_le_bytes_len, lemma_le_limits};
use crate::capture::{flat, meta_of, total_len, CaptureError};
use crate::docks::{all_tabs, fallback_leaf, id_table, kept_tabs, place_in, place_table};
use crate::layout_apply::surviving;
use crate::panels::PlotId;
use crate::wire::lemma_collect_ok;
use crate::wire_laws::{laid, lemma_laid_part, lemma_number_read, lemma_part};

proof fn lemma_index_is_laid(schema: Seq<u8>, packets: Seq<Seq<u8>>, n: nat)
    requires
        n <= packets.len(),
    ensures
        index_of(schema, packets, n) == laid(
            n,
            |i: int| index_entry(packet_start(schema, packets, i), meta_of(packets[i])),
        ),
    decreases n,
{
    if n > 0 {
        lemma_index_is_laid(schema, packets, (n - 1) as nat);
    }
}

proof fn lemma_entry_len(start: nat, m: crate::capture::PacketMeta)
    ensures
        index_entry(start, m).len() == 28,
{
    lemma_le_bytes_len(start, 8);
    lemma_le_bytes_len(m.ts_min as nat, 8);
    lemma_le_bytes_len(m.ts_max as nat, 8);
    lemma_le_bytes_len(m.entry_count as nat, 4);
}

/// Where the packets, the index and the footer of a file lie.
proof fn lemma_file_parts(schema: Seq<u8>, packets: Seq<Seq<u8>>)
    ensures
        ({
            let file = file_of(schema, packets);
            let from = 10 + schema.len() as int;
            let index = from + total_len(packets);
            let end = index + 28 * packets.len();
            &&& file.len() == end + 16
            &&& file.subrange(0, from) == file_head(schema)
            &&& file.subrange(from, index) == flat(packets)
            &&& file.subrange(index, end) == index_of(schema, packets, packets.len())
            &&& file.subrange(end, end + 16) == footer_of(index as nat, packets.len())
            &&& footer_of(index as nat, packets.len()).len() == 16
            &&& file_head(schema).len() == from
        }),
{
    let file = file_of(schema, packets);
    let from = 10 + schema.len() as int;
    let index = from + total_len(packets);
    let end = index + 28 * packets.len();
    lemma_file_lengths(schema, packets);
    assert(packets.take(packets.len() as int) =~= packets);
    assert(file.subrange(0, from) =~= file_head(schema));
    assert(file.subrange(from, index) =~= flat(packets));
    assert(file.subrange(index, end) =~= index_of(schema, packets, packets.len()));
    assert(file.subrange(end, end + 16) =~= footer_of(index as nat, packets.len()));
}

/// A capture file begins with the letters `BTLM`, the version and the schema behind its
/// length; its last sixteen bytes tell where the index begins and how many packets there
/// are.
pub proof fn law_capture_file_has_head_and_foot(schema: Seq<u8>, packets: Seq<Seq<u8>>)
    requires
        fits_file(schema, packets),
    ensures
        ({
            let file = file_of(schema, packets);
            let index = 10 + schema.len() + total_len(packets);
            &&& file.len() == index + 28 * packets.len() + 16
            &&& file.take(4) == seq![66u8, 84u8, 76u8, 77u8]
            &&& le_at(file, 4, 2) == 1
            &&& le_at(file, 6, 4) == schema.len()
            &&& file.subrange(10, 10 + schema.len() as int) == schema
            &&& le_at(file, file.len() - 16, 8) == index
            &&& le_at(file, file.len() - 8, 4) == packets.len()
        }),
{
    let file = file_of(schema, packets);
    let n = packets.len();
    let index = 10 + schema.len() + total_len(packets);
    let end = (index + 28 * n) as int;
    lemma_file_parts(schema, packets);
    lemma_le_limits();
    let head = file_head(schema);
    lemma_le_bytes_len(1, 2);
    lemma_le_bytes_len(schema.len(), 4);
    assert(head.subrange(0, 4) =~= seq![66u8, 84u8, 76u8, 77u8]);
    assert(head.subrange(4, 6) =~= le_bytes(1, 2));
    assert(head.subrange(6, 10) =~= le_bytes(schema.len(), 4));
    assert(head.subrange(10, head.len() as int) =~= schema);
    lemma_part(file, 0, head, 0, 4);
    assert(file.take(4) =~= file.subrange(0, 4));
    lemma_number_read(file, 0, head, 4, 1, 2);
    lemma_number_read(file, 0, head, 6, schema.len(), 4);
    lemma_part(file, 0, head, 10, head.len() as int);
    let foot = footer_of(index, n);
    lemma_le_bytes_len(index, 8);
    lemma_le_bytes_len(n, 4);
    lemma_le_bytes_len(crate::btlm::INDEX_MAGIC as nat, 4);
    assert(foot.subrange(0, 8) =~= le_bytes(index, 8));
    assert(foot.subrange(8, 12) =~= le_bytes(n, 4));
    lemma_number_read(file, end, foot, 0, index, 8);
    lemma_number_read(file, end, foot, 8, n, 4);
}

/// The index of a capture file has 28 bytes for each packet: where the packet begins, its
/// earliest and its latest time, and how many entries it has.
pub proof fn law_capture_file_is_indexed(schema: Seq<u8>, packets: Seq<Seq<u8>>, i: int)
    requires
        fits_file(schema, packets),
        0 <= i < packets.len(),
    ensures
        ({
            let file = file_of(schema, packets);
            let at = 10 + schema.len() + total_len(packets) + 28 * i;
            let start = (10 + schema.len() + total_len(packets.take(i))) as int;
            &&& le_at(file, at, 8) == start
            &&& file.subrange(start, start + packets[i].len()) == packets[i]
            &&& le_at(file, at + 8, 8) == meta_of(packets[i]).ts_min
            &&& le_at(file, at + 16, 8) == meta_of(packets[i]).ts_max
            &&& le_at(file, at + 24, 4) == meta_of(packets[i]).entry_count
        }),
{
    let file = file_of(schema, packets);
    let n = packets.len();
    let from = (10 + schema.len() + total_len(packets)) as int;
    let start = packet_start(schema, packets, i);
    let m = meta_of(packets[i]);
    let rec = index_entry(start, m);
    let at = from + 28 * i;
    lemma_file_parts(schema, packets);
    lemma_index_part(schema, packets, i);
    let index = index_of(schema, packets, n);
    lemma_part(file, from, index, i * 28, i * 28 + 28);
    assert(file.subrange(at, at + 28) == rec);
    lemma_le_limits();
    lemma_entry_len(start, m);
    lemma_le_bytes_len(start, 8);
    lemma_le_bytes_len(m.ts_min as nat, 8);
    lemma_le_bytes_len(m.ts_max as nat, 8);
    lemma_le_bytes_len(m.entry_count as nat, 4);
    assert(rec.subrange(0, 8) =~= le_bytes(start, 8));
    assert(rec.subrange(8, 16) =~= le_bytes(m.ts_min as nat, 8));
    assert(rec.subrange(16, 24) =~= le_bytes(m.ts_max as nat, 8));
    assert(rec.subrange(24, 28) =~= le_bytes(m.entry_count as nat, 4));
    lemma_flat_part(packets, i);
    lemma_number_read(file, at, rec, 0, start, 8);
    lemma_number_read(file, at, rec, 8, m.ts_min as nat, 8);
    lemma_number_read(file, at, rec, 16, m.ts_max as nat, 8);
    lemma_number_read(file, at, rec, 24, m.entry_count as nat, 4);
    let a = total_len(packets.take(i)) as int;
    lemma_part(file, 10 + schema.len() as int, flat(packets), a, a + packets[i].len());
}

proof fn lemma_index_part(schema: Seq<u8>, packets: Seq<Seq<u8>>, i: int)
    requires
        0 <= i < packets.len(),
    ensures
        index_of(schema, packets, packets.len()).len() == 28 * packets.len(),
        index_of(schema, packets, packets.len()).subrange(i * 28, i * 28 + 28) == index_entry(
            packet_start(schema, packets, i),
            meta_of(packets[i]),
        ),
{
    let n = packets.len();
    let f = |i: int| index_entry(packet_start(schema, packets, i), meta_of(packets[i]));
    lemma_index_is_laid(schema, packets, n);
    assert forall|k: int| 0 <= k < n implies (#[trigger] f(k)).len() == 28 by {
        lemma_entry_len(packet_start(schema, packets, k), meta_of(packets[k]));
    }
    lemma_laid_part(n, f, 28, i);
}

proof fn lemma_flat_part(p: Seq<Seq<u8>>, i: int)
    requires
        0 <= i < p.len(),
    ensures
        total_len(p.take(i)) + p[i].len() <= total_len(p),
        flat(p).subrange(
            total_len(p.take(i)) as int,
            (total_len(p.take(i)) + p[i].len()) as int,
        ) == p[i],
    decreases p.len(),
{
    let r = p.drop_last();
    let a = total_len(p.take(i)) as int;
    if i == p.len() - 1 {
        assert(p.take(i) =~= r);
        assert(flat(p).subrange(a, a + p[i].len()) =~= p[i]);
    } else {
        lemma_flat_part(r, i);
        assert(r.take(i) =~= p.take(i));
        assert(flat(p).subrange(a, a + p[i].len()) =~= flat(r).subrange(a, a + p[i].len()));
    }
}

/// The tabs of a leaf become, in their order, what the table says; those that it does not
/// know are left out.
pub proof fn law_tabs_become_what_the_table_says(tabs: Seq<u64>, table: Map<u64, u64>)
    ensures
        kept_tabs(tabs, table) == tabs.filter_map(
            |t: u64|
                if table.contains_key(t) {
                    Some(table[t])
                } else {
                    None
                },
        ),
    decreases tabs.len(),
{
    let f = |t: u64|
        if table.contains_key(t) {
            Some(table[t])
        } else {
            None
        };
    if tabs.len() > 0 {
        law_tabs_become_what_the_table_says(tabs.drop_last(), table);
    }
    assert(kept_tabs(tabs, table) =~= tabs.filter_map(f));
}

proof fn lemma_place_in(
    order: Seq<PlotId>,
    places: Seq<Option<usize>>,
    id: PlotId,
    from: int,
    i: int,
)
    requires
        order.no_duplicates(),
        0 <= from <= i < order.len(),
        order[i] == id,
    ensures
        place_in(order, places, id, from) == places[i],
    decreases i - from,
{
    if from < i {
        assert(order[from] != order[i]);
        lemma_place_in(order, places, id, from + 1, i);
    }
}

proof fn lemma_not_placed(
    order: Seq<PlotId>,
    places: Seq<Option<usize>>,
    id: PlotId,
    from: int,
)
    requires
        0 <= from,
        !order.contains(id),
    ensures
        place_in(order, places, id, from) is None,
    decreases order.len() - from,
{
    if from < order.len() {
        assert(order[from] != id);
        lemma_not_placed(order, places, id, from + 1);
    }
}

/// The tab of a plot is saved as the place of the plot in the layout, and the tab of a
/// plot that has none is not saved.
pub proof fn law_tab_is_saved_as_the_place(
    order: Seq<PlotId>,
    places: Seq<Option<usize>>,
    i: int,
    other: u64,
)
    requires
        order.no_duplicates(),
        0 <= i < order.len() == places.len(),
    ensures
        ({
            let table = place_table(order, places, 0);
            &&& table.contains_key(order[i].0) <==> places[i] is Some
            &&& places[i] matches Some(k) ==> table[order[i].0] == k
            &&& !order.contains(PlotId(other)) ==> !table.contains_key(other)
        }),
{
    lemma_place_in(order, places, order[i], 0, i);
    assert(PlotId(order[i].0) == order[i]);
    if !order.contains(PlotId(other)) {
        lemma_not_placed(order, places, PlotId(other), 0);
    }
}

/// A place of a layout becomes the tab of the plot that was made of it, and that of a
/// plot that was dropped becomes none.
pub proof fn law_place_becomes_the_tab(ids: Seq<Option<PlotId>>, i: u64)
    ensures
        id_table(ids).contains_key(i) <==> i < ids.len() && ids[i as int] is Some,
        id_table(ids).contains_key(i) ==> Some(PlotId(id_table(ids)[i])) == ids[i as int],
{
}

/// The tabs of leaves are those of the first leaves, and behind them those of the others.
pub proof fn law_all_tabs_are_those_of_the_leaves(leaves: Seq<Seq<u64>>, k: int, i: int)
    requires
        0 <= k < leaves.len(),
        0 <= i < leaves[k].len(),
    ensures
        all_tabs(leaves).contains(PlotId(leaves[k][i])),
    decreases leaves.len(),
{
    let r = leaves.drop_last();
    let before = all_tabs(r);
    if k < r.len() {
        law_all_tabs_are_those_of_the_leaves(r, k, i);
        let j = choose|j: int| 0 <= j < before.len() && before[j] == PlotId(leaves[k][i]);
        assert(all_tabs(leaves)[j] == PlotId(leaves[k][i]));
    } else {
        assert(all_tabs(leaves)[before.len() + i] == PlotId(leaves[k][i]));
    }
}

/// A file is loaded only where it starts with `BTLM` and the version, and ends with the
/// footer's own mark. The schema is then the bytes behind the head, as many as the head
/// says, and there are as many packets as the footer says.
pub proof fn law_only_capture_files_load(buf: Seq<u8>)
    ensures
        loaded_of(buf) matches Ok(v) ==> {
            let total = buf.len() as int;
            &&& total >= 16
            &&& buf[0] == 0x42 && buf[1] == 0x54 && buf[2] == 0x4c && buf[3] == 0x4d
            &&& le_at(buf, 4, 2) == 1
            &&& le_at(buf, total - 4, 4) == 0x494c_5442
            &&& 10 + v.schema.len() <= total
            &&& v.schema.len() == le_at(buf, 6, 4)
            &&& v.schema == buf.subrange(10, 10 + v.schema.len() as int)
            &&& v.packets.len() == le_at(buf, total - 8, 4)
        },
        buf.len() >= 4 && buf.take(4) != seq![0x42u8, 0x54u8, 0x4cu8, 0x4du8] ==> loaded_of(buf)
            == Err::<LoadedView, CaptureError>(CaptureError::BadMagic),
{
    let total = buf.len() as int;
    let n = le_at(buf, total - 8, 4);
    let at = le_at(buf, total - 16, 8) as int;
    lemma_collect_ok(|i: int| indexed_packet(buf, at, n as int, i), n);
    if total >= 4 && buf.take(4) == magic() {
        assert(buf.take(4)[0] == magic()[0] && buf.take(4)[1] == magic()[1]);
        assert(buf.take(4)[2] == magic()[2] && buf.take(4)[3] == magic()[3]);
    }
}

/// A loaded packet is the bytes from where the index says that it starts to where the
/// next one starts, the last one to the index itself.
pub proof fn law_loaded_packets_are_those_of_the_index(buf: Seq<u8>, i: int)
    requires
        loaded_of(buf) matches Ok(v) && 0 <= i < v.packets.len(),
    ensures
        ({
            let v = loaded_of(buf)->Ok_0;
            let total = buf.len() as int;
            let at = le_at(buf, total - 16, 8) as int;
            let start = le_at(buf, at + 28 * i, 8) as int;
            let end = if i + 1 < v.packets.len() {
                le_at(buf, at + 28 * (i + 1), 8) as int
            } else {
                at
            };
            &&& start <= end
            &&& v.packets[i].len() == end - start
            &&& start < end ==> end <= total && v.packets[i] == buf.subrange(start, end)
        }),
{
    let total = buf.len() as int;
    let n = le_at(buf, total - 8, 4);
    let at = le_at(buf, total - 16, 8) as int;
    let f = |i: int| indexed_packet(buf, at, n as int, i);
    lemma_collect_ok(f, n);
    let v = loaded_of(buf)->Ok_0;
    assert(f(i) == Ok::<Seq<u8>, CaptureError>(v.packets[i]));
}

/// The plots that came back stay in their order, and those that did not leave no gap.
pub proof fn law_survivors_keep_their_order(a: Seq<Option<PlotId>>, b: Seq<Option<PlotId>>, id: PlotId)
    ensures
        surviving(a + b) == surviving(a) + surviving(b),
        surviving(seq![Some(id)]) == seq![id],
        surviving(seq![None]).len() == 0,
    decreases b.len(),
{
    reveal_with_fuel(surviving, 2);
    assert(seq![Some(id)].drop_last() =~= Seq::empty());
    assert(seq![None::<PlotId>].drop_last() =~= Seq::empty());
    if b.len() == 0 {
        assert(a + b =~= a);
    } else {
        law_survivors_keep_their_order(a, b.drop_last(), id);
        assert((a + b).drop_last() =~= a + b.drop_last());
        assert((a + b).last() == b.last());
    }
    assert(surviving(a + b) =~= surviving(a) + surviving(b));
}

/// Where no dock was saved, one leaf holds all plots that came back, in their order; it
/// is never empty.
pub proof fn law_fallback_leaf_holds_the_survivors(ids: Seq<Option<PlotId>>)
    ensures
        fallback_leaf(ids).len() > 0,
        surviving(ids).len() > 0 ==> fallback_leaf(ids).len() == surviving(ids).len() && (
        forall|i: int|
            0 <= i < surviving(ids).len() ==> PlotId(#[trigger] fallback_leaf(ids)[i]) == surviving(
                ids,
            )[i]),
        surviving(ids).len() == 0 ==> fallback_leaf(ids) == seq![0u64],
{
}

} // verus!
