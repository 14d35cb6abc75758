//! The packet half of the wire format.
//!
//! A stream is a length-prefixed schema blob followed by length-prefixed
//! packets, all little-endian. A packet is a header, a table of entry headers
//! and a payload buffer that the entries point into:
//!
//! ```text
//! u32 packet_len
//! [u8; packet_len] packet:
//!     PacketHeader              # 16 bytes
//!     EntryHeader[entry_count]  # 16 bytes each
//!     payload_buffer            # variable; offsets into here
//! ```

use crate::bytes::{le_at, read_le};
use vstd::prelude::*;
use vstd::slice::slice_subrange;

verus! {

/// Why a byte sequence is not a schema or a packet.
#[derive(Clone, Copy, Debug, PartialEq, Eq, Structural)]
pub enum WireError {
    /// The buffer ends before `need` bytes.
    Short { need: usize, got: usize },
    /// The schema announces an endianness other than little.
    BadEndian(u8),
    /// A name is not UTF-8.
    BadName,
    /// The schema announces more entries than a device can have.
    TooManyEntries(u16),
    /// A schema entry announces more fields than an entry can have.
    TooManyFields(u16),
    /// An entry points outside the payload buffer.
    PayloadOob { offset: usize, size: usize, buf: usize },
    /// A field has a type code that no type has.
    UnknownType(u8),
}

pub const NAME_MAX: usize = 64;

pub const DESC_MAX: usize = 128;

pub const MAX_FIELDS: usize = 16;

pub const MAX_SCHEMA_ENTRIES: usize = 256;

pub const ENUM_LABEL_MAX: usize = 32;

pub const ENUM_MAX_VALUES: usize = 64;

pub const BITFIELD_MAX_BITS: usize = 32;

pub const BIT_NAME_MAX: usize = 32;

pub const SCHEMA_HEADER_SIZE: usize = 3;

/// Name, offset, size, type, count.
pub const FIELD_WIRE_SIZE: usize = 70;

/// Id, payload size, field count, name, description.
pub const SCHEMA_WIRE_HEADER_SIZE: usize = 198;

/// The entry's header and room for [`MAX_FIELDS`] fields.
pub const SCHEMA_WIRE_SIZE: usize = 1318;

/// Schema id, field index, label count and room for [`ENUM_MAX_VALUES`] labels.
pub const ENUM_WIRE_SIZE: usize = 2053;

/// Schema id, field index, bit count and room for [`BITFIELD_MAX_BITS`] names,
/// start bits and widths.
pub const BITFIELD_WIRE_SIZE: usize = 1093;

pub const PACKET_HEADER_SIZE: usize = 16;

pub const ENTRY_HEADER_SIZE: usize = 16;

/// The record sizes are the sums of their parts.
pub proof fn law_record_sizes()
    ensures
        FIELD_WIRE_SIZE == NAME_MAX + 2 + 2 + 1 + 1,
        SCHEMA_WIRE_HEADER_SIZE == 2 + 2 + 2 + NAME_MAX + DESC_MAX,
        SCHEMA_WIRE_SIZE == SCHEMA_WIRE_HEADER_SIZE + MAX_FIELDS * FIELD_WIRE_SIZE,
        ENUM_WIRE_SIZE == 2 + 2 + 1 + ENUM_MAX_VALUES * ENUM_LABEL_MAX,
        BITFIELD_WIRE_SIZE == 2 + 2 + 1 + BITFIELD_MAX_BITS * BIT_NAME_MAX + BITFIELD_MAX_BITS
            + BITFIELD_MAX_BITS,
{
}

/// A byte count as an error reports it: the largest `usize` stands for any
/// count beyond it.
pub open spec fn reported(n: int) -> usize {
    if n <= usize::MAX {
        n as usize
    } else {
        usize::MAX
    }
}

/// The error for a buffer that ends before `n` bytes.
pub open spec fn short(buf: Seq<u8>, n: int) -> WireError {
    WireError::Short { need: reported(n), got: buf.len() as usize }
}

/// `w` bytes at `off` as a number, or the error for a buffer that ends before.
pub open spec fn field_at(buf: Seq<u8>, off: int, w: int) -> Result<nat, WireError> {
    if buf.len() < off + w {
        Err(short(buf, off + w))
    } else {
        Ok(le_at(buf, off, w))
    }
}

/// Fails when `buf` holds fewer than `n` bytes.
pub fn need(buf: &[u8], n: usize) -> (r: Result<(), WireError>)
    ensures
        r == (if buf@.len() < n {
            Err::<(), WireError>(short(buf@, n as int))
        } else {
            Ok(())
        }),
{
    if buf.len() < n {
        Err(WireError::Short { need: n, got: buf.len() })
    } else {
        Ok(())
    }
}

pub fn read_u8(buf: &[u8], off: usize) -> (r: Result<u8, WireError>)
    requires
        off + 1 <= usize::MAX,
    ensures
        r is Ok <==> field_at(buf@, off as int, 1) is Ok,
        r matches Ok(v) ==> field_at(buf@, off as int, 1) == Ok::<nat, WireError>(v as nat) && v
            == buf@[off as int],
        r matches Err(e) ==> field_at(buf@, off as int, 1) == Err::<nat, WireError>(e),
{
    match need(buf, off + 1) {
        Err(e) => Err(e),
        Ok(()) => {
            proof {
                reveal_with_fuel(crate::bytes::le_value, 2);
            }
            Ok(buf[off])
        },
    }
}

pub fn read_u16(buf: &[u8], off: usize) -> (r: Result<u16, WireError>)
    requires
        off + 2 <= usize::MAX,
    ensures
        r is Ok <==> field_at(buf@, off as int, 2) is Ok,
        r matches Ok(v) ==> field_at(buf@, off as int, 2) == Ok::<nat, WireError>(v as nat),
        r matches Err(e) ==> field_at(buf@, off as int, 2) == Err::<nat, WireError>(e),
{
    match need(buf, off + 2) {
        Err(e) => Err(e),
        Ok(()) => {
            proof {
                crate::bytes::lemma_le_limits();
            }
            Ok(read_le(buf, off, 2) as u16)
        },
    }
}

pub fn read_u32(buf: &[u8], off: usize) -> (r: Result<u32, WireError>)
    requires
        off + 4 <= usize::MAX,
    ensures
        r is Ok <==> field_at(buf@, off as int, 4) is Ok,
        r matches Ok(v) ==> field_at(buf@, off as int, 4) == Ok::<nat, WireError>(v as nat),
        r matches Err(e) ==> field_at(buf@, off as int, 4) == Err::<nat, WireError>(e),
{
    match need(buf, off + 4) {
        Err(e) => Err(e),
        Ok(()) => {
            proof {
                crate::bytes::lemma_le_limits();
            }
            Ok(read_le(buf, off, 4) as u32)
        },
    }
}

pub fn read_u64(buf: &[u8], off: usize) -> (r: Result<u64, WireError>)
    requires
        off + 8 <= usize::MAX,
    ensures
        r is Ok <==> field_at(buf@, off as int, 8) is Ok,
        r matches Ok(v) ==> field_at(buf@, off as int, 8) == Ok::<nat, WireError>(v as nat),
        r matches Err(e) ==> field_at(buf@, off as int, 8) == Err::<nat, WireError>(e),
{
    match need(buf, off + 8) {
        Err(e) => Err(e),
        Ok(()) => Ok(read_le(buf, off, 8)),
    }
}

/// Decoded packet header.
#[derive(Clone, Copy, Debug, PartialEq, Eq, Structural)]
pub struct PacketHeader {
    pub entry_count: u16,
    pub flags: u16,
    pub payload_size: u32,
    pub dropped: u32,
}

/// One entry within a packet, with the payload borrowed from the input.
#[derive(Clone, Copy, Debug, PartialEq, Eq)]
pub struct DecodedEntry<'a> {
    pub id: u16,
    pub timestamp: u64,
    pub payload: &'a [u8],
}

/// What a [`DecodedEntry`] holds.
#[verifier::ext_equal]
pub struct EntryView {
    pub id: u16,
    pub timestamp: u64,
    pub payload: Seq<u8>,
}

impl<'a> View for DecodedEntry<'a> {
    type V = EntryView;

    open spec fn view(&self) -> EntryView {
        EntryView { id: self.id, timestamp: self.timestamp, payload: self.payload@ }
    }
}

/// Whole packet: header plus entries borrowing from the input.
#[derive(Clone, Debug, PartialEq, Eq)]
pub struct Packet<'a> {
    pub header: PacketHeader,
    pub entries: Vec<DecodedEntry<'a>>,
}

/// What a [`Packet`] holds.
#[verifier::ext_equal]
pub struct PacketView {
    pub header: PacketHeader,
    pub entries: Seq<EntryView>,
}

impl<'a> View for Packet<'a> {
    type V = PacketView;

    open spec fn view(&self) -> PacketView {
        PacketView {
            header: self.header,
            entries: self.entries@.map_values(|e: DecodedEntry<'a>| e@),
        }
    }
}

/// The header that the first bytes of `buf` spell.
pub open spec fn header_of(buf: Seq<u8>) -> PacketHeader {
    PacketHeader {
        entry_count: le_at(buf, 0, 2) as u16,
        flags: le_at(buf, 2, 2) as u16,
        payload_size: le_at(buf, 4, 4) as u32,
        dropped: le_at(buf, 8, 4) as u32,
    }
}

/// Where the payload buffer of a packet with `n` entries starts.
pub open spec fn payload_base(n: int) -> int {
    PACKET_HEADER_SIZE + n * ENTRY_HEADER_SIZE
}

/// The `i`th entry of the table, or the error for one that points outside the
/// payload buffer.
pub open spec fn entry_of(buf: Seq<u8>, i: int) -> Result<EntryView, WireError> {
    let h = header_of(buf);
    let off = payload_base(i);
    let size = le_at(buf, off + 2, 2);
    let at = le_at(buf, off + 4, 4);
    if at + size > h.payload_size {
        Err(
            WireError::PayloadOob {
                offset: at as usize,
                size: size as usize,
                buf: h.payload_size as usize,
            },
        )
    } else {
        let start = payload_base(h.entry_count as int) + at;
        Ok(
            EntryView {
                id: le_at(buf, off, 2) as u16,
                timestamp: le_at(buf, off + 8, 8) as u64,
                payload: buf.subrange(start, start + size),
            },
        )
    }
}

/// The first `n` results of `f`, or the first error among them.
pub open spec fn collect<T, E>(f: spec_fn(int) -> Result<T, E>, n: nat) -> Result<Seq<T>, E>
    decreases n,
{
    if n == 0 {
        Ok(Seq::empty())
    } else {
        match collect(f, (n - 1) as nat) {
            Err(e) => Err(e),
            Ok(s) => match f(n - 1) {
                Err(e) => Err(e),
                Ok(x) => Ok(s.push(x)),
            },
        }
    }
}

/// An error of an early result is the error of every longer collection.
pub proof fn lemma_collect_err<T, E>(f: spec_fn(int) -> Result<T, E>, k: nat, n: nat, e: E)
    requires
        k <= n,
        collect(f, k) == Err::<Seq<T>, E>(e),
    ensures
        collect(f, n) == Err::<Seq<T>, E>(e),
    decreases n,
{
    if k < n {
        lemma_collect_err(f, k, (n - 1) as nat, e);
    }
}

/// A collection succeeds exactly when each of its parts does, and then holds
/// them in order.
pub proof fn lemma_collect_ok<T, E>(f: spec_fn(int) -> Result<T, E>, n: nat)
    ensures
        collect(f, n) is Ok <==> (forall|i: int| 0 <= i < n ==> (#[trigger] f(i)) is Ok),
        collect(f, n) matches Ok(s) ==> s.len() == n && (forall|i: int|
            0 <= i < n ==> f(i) == Ok::<T, E>(#[trigger] s[i])),
    decreases n,
{
    if n > 0 {
        lemma_collect_ok(f, (n - 1) as nat);
    }
}

/// What the bytes of a packet decode to.
pub open spec fn packet_of(buf: Seq<u8>) -> Result<PacketView, WireError> {
    let h = header_of(buf);
    let base = payload_base(h.entry_count as int);
    if buf.len() < PACKET_HEADER_SIZE {
        Err(short(buf, PACKET_HEADER_SIZE as int))
    } else if buf.len() < base {
        Err(short(buf, base))
    } else if buf.len() < base + h.payload_size {
        Err(short(buf, base + h.payload_size))
    } else {
        match collect(|i: int| entry_of(buf, i), h.entry_count as nat) {
            Err(e) => Err(e),
            Ok(entries) => Ok(PacketView { header: h, entries }),
        }
    }
}

/// A packet decodes exactly when it reaches as far as its header says and every
/// entry lies inside the payload buffer.
pub proof fn law_packet_decodes_iff_in_bounds(buf: Seq<u8>)
    ensures
        packet_of(buf) is Ok <==> {
            let h = header_of(buf);
            &&& buf.len() >= PACKET_HEADER_SIZE
            &&& buf.len() >= payload_base(h.entry_count as int) + h.payload_size
            &&& forall|i: int|
                0 <= i < h.entry_count ==> le_at(buf, #[trigger] payload_base(i) + 4, 4) + le_at(
                    buf,
                    payload_base(i) + 2,
                    2,
                ) <= h.payload_size
        },
        packet_of(buf) matches Ok(p) ==> p.entries.len() == p.header.entry_count,
{
    let h = header_of(buf);
    let f = |i: int| entry_of(buf, i);
    lemma_collect_ok(f, h.entry_count as nat);
    assert forall|i: int| (#[trigger] f(i)) is Ok <==> le_at(buf, payload_base(i) + 4, 4) + le_at(
        buf,
        payload_base(i) + 2,
        2,
    ) <= h.payload_size by {}
    if packet_of(buf) is Ok {
        assert forall|i: int| 0 <= i < h.entry_count implies le_at(
            buf,
            #[trigger] payload_base(i) + 4,
            4,
        ) + le_at(buf, payload_base(i) + 2, 2) <= h.payload_size by {
            assert(f(i) is Ok);
        }
    }
}

/// Decodes one packet: the bytes that follow the length prefix on the wire.
pub fn decode_packet(buf: &[u8]) -> (r: Result<Packet<'_>, WireError>)
    ensures
        r is Ok <==> packet_of(buf@) is Ok,
        r matches Ok(p) ==> packet_of(buf@) == Ok::<PacketView, WireError>(p@),
        r matches Err(e) ==> packet_of(buf@) == Err::<PacketView, WireError>(e),
{
    match need(buf, PACKET_HEADER_SIZE) {
        Err(e) => {
            return Err(e);
        },
        Ok(()) => {},
    }
    proof {
        crate::bytes::lemma_le_limits();
    }
    let entry_count: u16 = read_le(buf, 0, 2) as u16;
    let flags: u16 = read_le(buf, 2, 2) as u16;
    let payload_size: u32 = read_le(buf, 4, 4) as u32;
    let dropped: u32 = read_le(buf, 8, 4) as u32;
    let header = PacketHeader { entry_count, flags, payload_size, dropped };
    let base: usize = PACKET_HEADER_SIZE + entry_count as usize * ENTRY_HEADER_SIZE;
    match need(buf, base) {
        Err(e) => {
            return Err(e);
        },
        Ok(()) => {},
    }
    let psize_total: usize = payload_size as usize;
    if buf.len() - base < psize_total {
        let want: usize = base.saturating_add(psize_total);
        return Err(WireError::Short { need: want, got: buf.len() });
    }
    let ghost f = |i: int| entry_of(buf@, i);
    let n: usize = entry_count as usize;
    let mut entries: Vec<DecodedEntry<'_>> = Vec::new();
    let mut i: usize = 0;
    assert(entries@.map_values(|e: DecodedEntry<'_>| e@) =~= Seq::<EntryView>::empty());
    while i < n
        invariant
            i <= n == entry_count,
            base == payload_base(n as int),
            psize_total == payload_size,
            base + psize_total <= buf@.len(),
            header == header_of(buf@),
            header.entry_count == entry_count,
            header.payload_size == payload_size,
            f == (|i: int| entry_of(buf@, i)),
            buf@.len() <= usize::MAX,
            packet_of(buf@) == (match collect(f, n as nat) {
                Err(e) => Err::<PacketView, WireError>(e),
                Ok(entries) => Ok(PacketView { header, entries }),
            }),
            collect(f, i as nat) == Ok::<Seq<EntryView>, WireError>(
                entries@.map_values(|e: DecodedEntry<'_>| e@),
            ),
        decreases n - i,
    {
        let off: usize = PACKET_HEADER_SIZE + i * ENTRY_HEADER_SIZE;
        proof {
            crate::bytes::lemma_le_limits();
        }
        let id: u16 = read_le(buf, off, 2) as u16;
        let psize: usize = read_le(buf, off + 2, 2) as usize;
        let poff: usize = read_le(buf, off + 4, 4) as usize;
        let timestamp: u64 = read_le(buf, off + 8, 8);
        if poff > psize_total || psize_total - poff < psize {
            proof {
                assert(collect(f, (i + 1) as nat) is Err);
                lemma_collect_err(f, (i + 1) as nat, n as nat, collect(f, (i + 1) as nat)->Err_0);
            }
            return Err(WireError::PayloadOob { offset: poff, size: psize, buf: psize_total });
        }
        let start: usize = base + poff;
        let entry = DecodedEntry {
            id,
            timestamp,
            payload: slice_subrange(buf, start, start + psize),
        };
        proof {
            assert(f(i as int) == Ok::<EntryView, WireError>(entry@));
            assert(entries@.push(entry).map_values(|e: DecodedEntry<'_>| e@)
                =~= entries@.map_values(|e: DecodedEntry<'_>| e@).push(entry@));
        }
        entries.push(entry);
        i = i + 1;
    }
    Ok(Packet { header, entries })
}

} // verus!
