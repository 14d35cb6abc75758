//! The `.btlm` capture file.
//!
//! ```text
//! [magic "BTLM" 4] [version u16 LE] [schema_len u32 LE]
//! [schema blob]
//! [packet 0] [packet 1] ... [packet N]
//! [index_entry x (N+1)]   // 28 bytes each: offset/ts_min/ts_max/entry_count
//! [index_footer]          // 16 bytes: index_offset u64 / count u32 / magic u32 = "BTLI"
//! ```

use crate::bytes::{append_bytes, read_le, write_le};
use crate::capture::{CaptureError, IoKind, PacketMeta};
use std::collections::VecDeque;
use vstd::prelude::*;
use vstd::slice::{slice_subrange, slice_to_vec};

verus! {

use crate::bytes::{le_at, le_bytes, lemma_le_bytes_len, lemma_le_limits, lemma_le_round_trip};
use crate::capture::{bodies, flat, lemma_total_len_push, meta_of, total_len};
use crate::wire::{collect, lemma_collect_err, lemma_collect_ok};

/// File format version.
pub const VERSION: u16 = 1;

/// Footer magic: "BTLI", little-endian.
pub const INDEX_MAGIC: u32 = 0x494C_5442;

pub const FILE_HEADER_SIZE: usize = 10;

pub const INDEX_ENTRY_SIZE: usize = 28;

pub const FOOTER_SIZE: usize = 16;

/// Summary of a saved capture.
#[derive(Clone, Copy, Debug, PartialEq, Eq, Structural)]
pub struct SaveReport {
    pub packets: u64,
    pub bytes: u64,
    pub schema_bytes: u64,
}

/// What a capture file holds: the schema blob and the raw packets in file order.
#[derive(Debug, PartialEq, Eq)]
pub struct LoadedCapture {
    pub schema: Vec<u8>,
    pub packets: Vec<Vec<u8>>,
}

/// What a [`LoadedCapture`] holds.
#[verifier::ext_equal]
pub struct LoadedView {
    pub schema: Seq<u8>,
    pub packets: Seq<Seq<u8>>,
}

impl View for LoadedCapture {
    type V = LoadedView;

    open spec fn view(&self) -> LoadedView {
        LoadedView {
            schema: self.schema@,
            packets: self.packets@.map_values(|p: Vec<u8>| p@),
        }
    }
}

/// File magic: "BTLM".
pub open spec fn magic() -> Seq<u8> {
    seq![66u8, 84u8, 76u8, 77u8]
}

/// The file's header and the schema.
pub open spec fn file_head(schema: Seq<u8>) -> Seq<u8> {
    magic() + le_bytes(VERSION as nat, 2) + le_bytes(schema.len(), 4) + schema
}

/// Where the `i`th packet starts.
pub open spec fn packet_start(schema: Seq<u8>, packets: Seq<Seq<u8>>, i: int) -> nat {
    FILE_HEADER_SIZE as nat + schema.len() + total_len(packets.take(i))
}

/// The index entry of a packet at `start`.
pub open spec fn index_entry(start: nat, m: PacketMeta) -> Seq<u8> {
    le_bytes(start, 8) + le_bytes(m.ts_min as nat, 8) + le_bytes(m.ts_max as nat, 8) + le_bytes(
        m.entry_count as nat,
        4,
    )
}

/// The index entries of the first `n` packets.
pub open spec fn index_of(schema: Seq<u8>, packets: Seq<Seq<u8>>, n: nat) -> Seq<u8>
    decreases n,
{
    if n == 0 {
        Seq::empty()
    } else {
        index_of(schema, packets, (n - 1) as nat) + index_entry(
            packet_start(schema, packets, n - 1),
            meta_of(packets[n - 1]),
        )
    }
}

/// The footer of a file whose index of `n` entries starts at `at`.
pub open spec fn footer_of(at: nat, n: nat) -> Seq<u8> {
    le_bytes(at, 8) + le_bytes(n, 4) + le_bytes(INDEX_MAGIC as nat, 4)
}

/// The bytes of a capture file.
pub open spec fn file_of(schema: Seq<u8>, packets: Seq<Seq<u8>>) -> Seq<u8> {
    file_head(schema) + flat(packets) + index_of(schema, packets, packets.len()) + footer_of(
        packet_start(schema, packets, packets.len() as int),
        packets.len(),
    )
}

/// Where the index says that the `i`th packet starts.
pub open spec fn indexed_start(buf: Seq<u8>, index_at: int, i: int) -> nat {
    le_at(buf, index_at + i * INDEX_ENTRY_SIZE, 8)
}

/// The `i`th of `n` indexed packets: from its start to the start of the next, or
/// to the index.
pub open spec fn indexed_packet(buf: Seq<u8>, index_at: int, n: int, i: int) -> Result<
    Seq<u8>,
    CaptureError,
> {
    let start = indexed_start(buf, index_at, i) as int;
    let end = if i + 1 < n {
        indexed_start(buf, index_at, i + 1) as int
    } else {
        index_at
    };
    if end < start {
        Err(CaptureError::Truncated)
    } else if end == start {
        Ok(Seq::empty())
    } else if end > buf.len() {
        Err(CaptureError::Io(IoKind::UnexpectedEof))
    } else {
        Ok(buf.subrange(start, end))
    }
}

/// What the bytes of a capture file hold.
pub open spec fn loaded_of(buf: Seq<u8>) -> Result<LoadedView, CaptureError> {
    let eof = Err(CaptureError::Io(IoKind::UnexpectedEof));
    let total = buf.len() as int;
    let slen = le_at(buf, 6, 4);
    let index_at = le_at(buf, total - 16, 8) as int;
    let n = le_at(buf, total - 8, 4);
    if total < 4 {
        eof
    } else if buf.take(4) != magic() {
        Err(CaptureError::BadMagic)
    } else if total < 6 {
        eof
    } else if le_at(buf, 4, 2) != VERSION {
        Err(CaptureError::UnsupportedVersion(le_at(buf, 4, 2) as u16))
    } else if total < 10 || total < 10 + slen {
        eof
    } else if total < FOOTER_SIZE {
        Err(CaptureError::Truncated)
    } else if le_at(buf, total - 4, 4) != INDEX_MAGIC {
        Err(CaptureError::BadMagic)
    } else if n > 0 && index_at + n * INDEX_ENTRY_SIZE > total {
        eof
    } else {
        match collect(|i: int| indexed_packet(buf, index_at, n as int, i), n) {
            Err(e) => Err(e),
            Ok(packets) => Ok(LoadedView { schema: buf.subrange(10, 10 + slen as int), packets }),
        }
    }
}

/// Writes a capture file.
pub fn write_btlm_inner(schema: &[u8], packets: &VecDeque<(Vec<u8>, PacketMeta)>) -> (r: Vec<u8>)
    requires
        forall|i: int|
            0 <= i < packets@.len() ==> (#[trigger] packets@[i]).1 == meta_of(packets@[i].0@),
    ensures
        r@ == file_of(schema@, bodies(packets@)),
{
    let ghost p = bodies(packets@);
    let mut out: Vec<u8> = Vec::new();
    out.push(66);
    out.push(84);
    out.push(76);
    out.push(77);
    assert(out@ =~= magic());
    write_le(&mut out, VERSION as u64, 2);
    write_le(&mut out, schema.len() as u64, 4);
    append_bytes(&mut out, schema);
    let n: usize = packets.len();
    let mut starts: Vec<u64> = Vec::new();
    let mut i: usize = 0;
    proof {
        lemma_le_bytes_len(VERSION as nat, 2);
        lemma_le_bytes_len(schema@.len(), 4);
        assert(p.take(0) =~= Seq::empty());
        assert(out@ =~= file_head(schema@) + flat(p.take(0)));
    }
    while i < n
        invariant
            i <= n == packets@.len(),
            p == bodies(packets@),
            out@ == file_head(schema@) + flat(p.take(i as int)),
            file_head(schema@).len() == FILE_HEADER_SIZE + schema@.len(),
            starts@.len() == i,
            forall|j: int|
                0 <= j < i ==> #[trigger] starts@[j] == packet_start(schema@, p, j),
        decreases n - i,
    {
        starts.push(out.len() as u64);
        append_bytes(&mut out, packets[i].0.as_slice());
        proof {
            assert(p[i as int] == packets@[i as int].0@);
            assert(p.take(i + 1) =~= p.take(i as int).push(p[i as int]));
            lemma_total_len_push(p.take(i as int), p[i as int]);
            assert(out@ =~= file_head(schema@) + flat(p.take(i + 1)));
        }
        i = i + 1;
    }
    let index_at: u64 = out.len() as u64;
    let ghost body = out@;
    i = 0;
    assert(p.take(n as int) =~= p);
    assert(out@ =~= body + index_of(schema@, p, 0));
    while i < n
        invariant
            i <= n == packets@.len() == starts@.len(),
            p == bodies(packets@),
            out@ == body + index_of(schema@, p, i as nat),
            forall|j: int|
                0 <= j < n ==> #[trigger] starts@[j] == packet_start(schema@, p, j),
            forall|i: int|
                0 <= i < packets@.len() ==> (#[trigger] packets@[i]).1 == meta_of(packets@[i].0@),
        decreases n - i,
    {
        let m = packets[i].1;
        write_le(&mut out, starts[i], 8);
        write_le(&mut out, m.ts_min, 8);
        write_le(&mut out, m.ts_max, 8);
        write_le(&mut out, m.entry_count as u64, 4);
        proof {
            assert(p[i as int] == packets@[i as int].0@);
            assert(out@ =~= body + index_of(schema@, p, (i + 1) as nat));
        }
        i = i + 1;
    }
    write_le(&mut out, index_at, 8);
    write_le(&mut out, n as u64, 4);
    write_le(&mut out, INDEX_MAGIC as u64, 4);
    assert(out@ =~= file_of(schema@, p));
    out
}

/// Reads the bytes of a capture file. Checks the magic and the version, then
/// cuts the packets out by the index at the end.
pub fn read_btlm(buf: &[u8]) -> (r: Result<LoadedCapture, CaptureError>)
    ensures
        match (r, loaded_of(buf@)) {
            (Ok(x), Ok(y)) => x@ == y,
            (Err(a), Err(b)) => a == b,
            _ => false,
        },
{
    let total: usize = buf.len();
    proof {
        lemma_le_limits();
    }
    if total < 4 {
        return Err(CaptureError::Io(IoKind::UnexpectedEof));
    }
    if buf[0] != 66 || buf[1] != 84 || buf[2] != 76 || buf[3] != 77 {
        assert(buf@.take(4) != magic()) by {
            if buf@.take(4) == magic() {
                assert(buf@.take(4)[0] == 66 && buf@.take(4)[1] == 84 && buf@.take(4)[2] == 76
                    && buf@.take(4)[3] == 77);
            }
        }
        return Err(CaptureError::BadMagic);
    }
    assert(buf@.take(4) =~= magic());
    if total < 6 {
        return Err(CaptureError::Io(IoKind::UnexpectedEof));
    }
    let version: u16 = read_le(buf, 4, 2) as u16;
    if version != VERSION {
        return Err(CaptureError::UnsupportedVersion(version));
    }
    if total < 10 {
        return Err(CaptureError::Io(IoKind::UnexpectedEof));
    }
    let slen: usize = read_le(buf, 6, 4) as usize;
    if total - 10 < slen {
        return Err(CaptureError::Io(IoKind::UnexpectedEof));
    }
    if total < FOOTER_SIZE {
        return Err(CaptureError::Truncated);
    }
    let schema = slice_to_vec(slice_subrange(buf, 10, 10 + slen));
    let index_at: u64 = read_le(buf, total - 16, 8);
    let n: usize = read_le(buf, total - 8, 4) as usize;
    let index_magic: u32 = read_le(buf, total - 4, 4) as u32;
    if index_magic != INDEX_MAGIC {
        return Err(CaptureError::BadMagic);
    }
    if n > 0 && index_at as u128 + n as u128 * INDEX_ENTRY_SIZE as u128 > total as u128 {
        return Err(CaptureError::Io(IoKind::UnexpectedEof));
    }
    let ghost f = |i: int| indexed_packet(buf@, index_at as int, n as int, i);
    let mut packets: Vec<Vec<u8>> = Vec::new();
    let mut i: usize = 0;
    assert(packets@.map_values(|p: Vec<u8>| p@) =~= Seq::<Seq<u8>>::empty());
    while i < n
        invariant
            i <= n <= 0xffff_ffff,
            total == buf@.len(),
            n > 0 ==> index_at + n * INDEX_ENTRY_SIZE <= total,
            f == (|i: int| indexed_packet(buf@, index_at as int, n as int, i)),
            collect(f, i as nat) == Ok::<Seq<Seq<u8>>, CaptureError>(
                packets@.map_values(|p: Vec<u8>| p@),
            ),
            collect(f, n as nat) matches Err(e) ==> loaded_of(buf@) == Err::<
                LoadedView,
                CaptureError,
            >(e),
        decreases n - i,
    {
        let at: usize = index_at as usize;
        let start: u64 = read_le(buf, at + i * INDEX_ENTRY_SIZE, 8);
        let end: u64 = if i + 1 < n {
            read_le(buf, at + (i + 1) * INDEX_ENTRY_SIZE, 8)
        } else {
            index_at
        };
        if end < start {
            proof {
                assert(f(i as int) == Err::<Seq<u8>, CaptureError>(CaptureError::Truncated));
                lemma_collect_err(f, (i + 1) as nat, n as nat, CaptureError::Truncated);
            }
            return Err(CaptureError::Truncated);
        }
        let body: Vec<u8> = if end == start {
            Vec::new()
        } else if end > total as u64 {
            proof {
                let e = CaptureError::Io(IoKind::UnexpectedEof);
                assert(f(i as int) == Err::<Seq<u8>, CaptureError>(e));
                lemma_collect_err(f, (i + 1) as nat, n as nat, e);
            }
            return Err(CaptureError::Io(IoKind::UnexpectedEof));
        } else {
            slice_to_vec(slice_subrange(buf, start as usize, end as usize))
        };
        proof {
            assert(f(i as int) == Ok::<Seq<u8>, CaptureError>(body@));
            assert(packets@.push(body).map_values(|p: Vec<u8>| p@) =~= packets@.map_values(
                |p: Vec<u8>| p@,
            ).push(body@));
        }
        packets.push(body);
        i = i + 1;
    }
    Ok(LoadedCapture { schema, packets })
}

proof fn lemma_index_len(schema: Seq<u8>, packets: Seq<Seq<u8>>, n: nat)
    ensures
        index_of(schema, packets, n).len() == n * INDEX_ENTRY_SIZE,
    decreases n,
{
    if n > 0 {
        lemma_index_len(schema, packets, (n - 1) as nat);
        lemma_index_entry_len(packet_start(schema, packets, n - 1), meta_of(packets[n - 1]));
    }
}

proof fn lemma_index_entry_len(start: nat, m: PacketMeta)
    ensures
        index_entry(start, m).len() == INDEX_ENTRY_SIZE,
        index_entry(start, m).subrange(0, 8) == le_bytes(start, 8),
{
    lemma_le_bytes_len(start, 8);
    lemma_le_bytes_len(m.ts_min as nat, 8);
    lemma_le_bytes_len(m.ts_max as nat, 8);
    lemma_le_bytes_len(m.entry_count as nat, 4);
    assert(index_entry(start, m).subrange(0, 8) =~= le_bytes(start, 8));
}

/// The index holds the start of each packet in its place.
proof fn lemma_index_start(schema: Seq<u8>, packets: Seq<Seq<u8>>, n: nat, i: int)
    requires
        0 <= i < n,
    ensures
        n * INDEX_ENTRY_SIZE == index_of(schema, packets, n).len(),
        index_of(schema, packets, n).subrange(
            i * INDEX_ENTRY_SIZE,
            i * INDEX_ENTRY_SIZE + 8,
        ) == le_bytes(packet_start(schema, packets, i), 8),
    decreases n,
{
    lemma_index_len(schema, packets, n);
    lemma_index_len(schema, packets, (n - 1) as nat);
    let head = index_of(schema, packets, (n - 1) as nat);
    let whole = index_of(schema, packets, n);
    let from = i * INDEX_ENTRY_SIZE;
    let entry = index_entry(packet_start(schema, packets, n - 1), meta_of(packets[n - 1]));
    lemma_index_entry_len(packet_start(schema, packets, n - 1), meta_of(packets[n - 1]));
    if i == n - 1 {
        assert(whole.subrange(from, from + 8) =~= entry.subrange(0, 8));
    } else {
        lemma_index_start(schema, packets, (n - 1) as nat, i);
        assert(whole.subrange(from, from + 8) =~= head.subrange(from, from + 8));
    }
}

/// Each packet lies in its place among the others.
proof fn lemma_flat_part(packets: Seq<Seq<u8>>, i: int)
    requires
        0 <= i < packets.len(),
    ensures
        total_len(packets.take(i)) + packets[i].len() == total_len(packets.take(i + 1)),
        total_len(packets.take(i + 1)) <= total_len(packets),
        flat(packets).subrange(
            total_len(packets.take(i)) as int,
            total_len(packets.take(i + 1)) as int,
        ) == packets[i],
    decreases packets.len(),
{
    let rest = packets.drop_last();
    assert(packets.take(i + 1).drop_last() =~= packets.take(i));
    assert(packets.take(i + 1).last() == packets[i]);
    let a = total_len(packets.take(i)) as int;
    let b = total_len(packets.take(i + 1)) as int;
    if i == packets.len() - 1 {
        assert(packets.take(i + 1) =~= packets);
        assert(packets.take(i) =~= rest);
        assert(flat(packets).subrange(a, b) =~= packets[i]);
    } else {
        lemma_flat_part(rest, i);
        assert(rest.take(i) =~= packets.take(i));
        assert(rest.take(i + 1) =~= packets.take(i + 1));
        assert(flat(packets).subrange(a, b) =~= flat(rest).subrange(a, b));
    }
}

/// Whether the length fields of a file have room for a capture: 32 bits for the schema
/// length and the packet count, and 64 bits for offsets.
pub open spec fn fits_file(schema: Seq<u8>, packets: Seq<Seq<u8>>) -> bool {
    &&& schema.len() < 0x1_0000_0000
    &&& packets.len() < 0x1_0000_0000
    &&& file_of(schema, packets).len() <= u64::MAX
}

/// Where the parts of a file lie.
pub proof fn lemma_file_lengths(schema: Seq<u8>, packets: Seq<Seq<u8>>)
    ensures
        file_head(schema).len() == 10 + schema.len(),
        packet_start(schema, packets, packets.len() as int) == 10 + schema.len() + flat(
            packets,
        ).len(),
        file_of(schema, packets).len() == packet_start(schema, packets, packets.len() as int)
            + index_of(schema, packets, packets.len()).len() + 16,
        index_of(schema, packets, packets.len()).len() == packets.len() * INDEX_ENTRY_SIZE,
{
    let n = packets.len();
    lemma_le_bytes_len(VERSION as nat, 2);
    lemma_le_bytes_len(schema.len(), 4);
    lemma_le_bytes_len(packet_start(schema, packets, n as int), 8);
    lemma_le_bytes_len(n, 4);
    lemma_le_bytes_len(INDEX_MAGIC as nat, 4);
    lemma_index_len(schema, packets, n);
    assert(packets.take(n as int) =~= packets);
}

/// The fields at the start of a file.
proof fn lemma_file_head(schema: Seq<u8>, packets: Seq<Seq<u8>>)
    requires
        fits_file(schema, packets),
    ensures
        ({
            let file = file_of(schema, packets);
            &&& file.take(4) == magic()
            &&& le_at(file, 4, 2) == VERSION
            &&& le_at(file, 6, 4) == schema.len()
            &&& file.subrange(10, 10 + schema.len() as int) == schema
        }),
{
    let file = file_of(schema, packets);
    lemma_file_lengths(schema, packets);
    lemma_le_limits();
    lemma_le_round_trip(VERSION as nat, 2);
    lemma_le_round_trip(schema.len(), 4);
    let head = file_head(schema);
    assert(head.len() <= file.len());
    assert(file.take(head.len() as int) =~= head);
    assert(file.take(4) =~= magic());
    assert(file.subrange(4, 6) =~= le_bytes(VERSION as nat, 2));
    assert(file.subrange(6, 10) =~= le_bytes(schema.len(), 4));
    assert(file.subrange(10, 10 + schema.len() as int) =~= schema);
}

/// The fields at the end of a file.
proof fn lemma_file_footer(schema: Seq<u8>, packets: Seq<Seq<u8>>)
    requires
        fits_file(schema, packets),
    ensures
        ({
            let file = file_of(schema, packets);
            let total = file.len() as int;
            &&& le_at(file, total - 16, 8) == packet_start(schema, packets, packets.len() as int)
            &&& le_at(file, total - 8, 4) == packets.len()
            &&& le_at(file, total - 4, 4) == INDEX_MAGIC
        }),
{
    let file = file_of(schema, packets);
    let total = file.len() as int;
    let n = packets.len();
    let at = packet_start(schema, packets, n as int);
    lemma_file_lengths(schema, packets);
    lemma_le_limits();
    lemma_le_round_trip(at, 8);
    lemma_le_round_trip(n, 4);
    lemma_le_round_trip(INDEX_MAGIC as nat, 4);
    let footer = footer_of(at, n);
    assert(file.subrange(total - 16, total) =~= footer);
    assert(file.subrange(total - 16, total - 8) =~= le_bytes(at, 8));
    assert(file.subrange(total - 8, total - 4) =~= le_bytes(n, 4));
    assert(file.subrange(total - 4, total) =~= le_bytes(INDEX_MAGIC as nat, 4));
}

/// The index of a file says where each packet starts.
proof fn lemma_file_start(schema: Seq<u8>, packets: Seq<Seq<u8>>, i: int)
    requires
        fits_file(schema, packets),
        0 <= i < packets.len(),
    ensures
        indexed_start(
            file_of(schema, packets),
            packet_start(schema, packets, packets.len() as int) as int,
            i,
        ) == packet_start(schema, packets, i),
{
    let file = file_of(schema, packets);
    let n = packets.len();
    let at = packet_start(schema, packets, n as int);
    let index = index_of(schema, packets, n);
    let from = i * INDEX_ENTRY_SIZE;
    lemma_file_lengths(schema, packets);
    lemma_index_start(schema, packets, n, i);
    lemma_flat_part(packets, i);
    lemma_le_limits();
    assert(packets.take(n as int) =~= packets);
    assert(from + 8 <= n * INDEX_ENTRY_SIZE);
    lemma_le_round_trip(packet_start(schema, packets, i), 8);
    assert(file.subrange(at as int, at as int + index.len()) =~= index);
    assert(file.subrange(at + from, at + from + 8) =~= index.subrange(from, from + 8));
}

/// Each packet of a file lies where the index says.
proof fn lemma_file_packet(schema: Seq<u8>, packets: Seq<Seq<u8>>, i: int)
    requires
        fits_file(schema, packets),
        0 <= i < packets.len(),
    ensures
        indexed_packet(
            file_of(schema, packets),
            packet_start(schema, packets, packets.len() as int) as int,
            packets.len() as int,
            i,
        ) == Ok::<Seq<u8>, CaptureError>(packets[i]),
{
    let file = file_of(schema, packets);
    let n = packets.len();
    let at = packet_start(schema, packets, n as int);
    let data = flat(packets);
    let start = packet_start(schema, packets, i) as int;
    let end = packet_start(schema, packets, i + 1) as int;
    lemma_file_lengths(schema, packets);
    lemma_file_start(schema, packets, i);
    if i + 1 < n {
        lemma_file_start(schema, packets, i + 1);
    }
    lemma_flat_part(packets, i);
    assert(packets.take(n as int) =~= packets);
    assert(end == start + packets[i].len());
    assert(end <= at);
    assert(file.subrange(10 + schema.len() as int, at as int) =~= data);
    assert(file.subrange(start, end) =~= data.subrange(
        total_len(packets.take(i)) as int,
        total_len(packets.take(i + 1)) as int,
    ));
    if end == start {
        assert(packets[i] =~= Seq::empty());
    }
}

/// What a capture file holds is read back as it was saved.
///
/// The law is for captures that fit the length fields of a file.
pub proof fn law_saved_capture_reads_back(schema: Seq<u8>, packets: Seq<Seq<u8>>)
    requires
        fits_file(schema, packets),
    ensures
        loaded_of(file_of(schema, packets)) == Ok::<LoadedView, CaptureError>(
            LoadedView { schema, packets },
        ),
{
    let file = file_of(schema, packets);
    let n = packets.len();
    let at = packet_start(schema, packets, n as int);
    lemma_file_lengths(schema, packets);
    lemma_file_head(schema, packets);
    lemma_file_footer(schema, packets);
    let f = |i: int| indexed_packet(file, at as int, n as int, i);
    assert forall|i: int| 0 <= i < n implies #[trigger] f(i) == Ok::<Seq<u8>, CaptureError>(
        packets[i],
    ) by {
        lemma_file_packet(schema, packets, i);
    }
    lemma_collect_ok(f, n);
    assert(collect(f, n)->Ok_0 =~= packets) by {
        let s = collect(f, n)->Ok_0;
        assert forall|i: int| 0 <= i < n implies s[i] == packets[i] by {
            assert(f(i) == Ok::<Seq<u8>, CaptureError>(s[i]));
        }
    }
}

} // verus!
