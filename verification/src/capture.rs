//! The ring of captured packets.
//!
//! While a source is connected, every raw packet goes into a bounded FIFO ring,
//! beside the schema blob that the source announced. The ring drops its oldest
//! packets when its byte budget is exceeded.

use crate::btlm::{write_btlm_inner, SaveReport};
use crate::bytes::read_le;
use crate::wire::{ENTRY_HEADER_SIZE, PACKET_HEADER_SIZE};
use std::collections::VecDeque;
use vstd::prelude::*;

verus! {

use crate::btlm::file_of;
use crate::bytes::le_at;
use crate::wire::payload_base;

/// Default ring byte budget: 256 MiB.
pub const DEFAULT_RING_BYTES: usize = 0x1000_0000;

/// Why reading a file's bytes stopped.
#[derive(Clone, Copy, Debug, PartialEq, Eq, Structural)]
pub enum IoKind {
    /// The bytes end before what was to be read.
    UnexpectedEof,
}

/// Why a packet cannot be captured, or a capture not be saved or loaded.
#[derive(Clone, Copy, Debug, PartialEq, Eq, Structural)]
pub enum CaptureError {
    Io(IoKind),
    /// No schema is set, so there is nothing to save.
    NoSchema,
    /// A packet of this many bytes is too short for its headers.
    BadPacket(usize),
    /// The bytes are not a capture file.
    BadMagic,
    /// The capture file has this other version.
    UnsupportedVersion(u16),
    /// The capture file is cut off, or its index runs backwards.
    Truncated,
}

/// What the index of a capture file says of a packet.
#[derive(Clone, Copy, Debug, PartialEq, Eq, Structural)]
pub struct PacketMeta {
    pub ts_min: u64,
    pub ts_max: u64,
    pub entry_count: u32,
}

/// Snapshot of the capture state.
#[derive(Clone, Copy, Debug, PartialEq, Eq, Structural)]
pub struct CaptureStats {
    /// Packets in the ring.
    pub packets: u64,
    /// Bytes of the packets in the ring.
    pub bytes: u64,
    /// Packets ever pushed.
    pub packets_total: u64,
    /// Packets that the byte budget pushed out.
    pub packets_dropped: u64,
    /// Earliest timestamp in the ring.
    pub ts_min: Option<u64>,
    /// Latest timestamp in the ring.
    pub ts_max: Option<u64>,
    /// Whether a schema has been set.
    pub has_schema: bool,
}

/// The time of the `i`th entry of a packet.
pub open spec fn entry_time(buf: Seq<u8>, i: int) -> u64 {
    le_at(buf, payload_base(i) + 8, 8) as u64
}

/// The earliest time of the first `n` entries.
pub open spec fn earliest(buf: Seq<u8>, n: nat) -> u64
    decreases n,
{
    if n == 0 {
        u64::MAX
    } else {
        lower(earliest(buf, (n - 1) as nat), entry_time(buf, n - 1))
    }
}

/// The latest time of the first `n` entries.
pub open spec fn latest(buf: Seq<u8>, n: nat) -> u64
    decreases n,
{
    if n == 0 {
        0
    } else {
        higher(latest(buf, (n - 1) as nat), entry_time(buf, n - 1))
    }
}

pub open spec fn lower(a: u64, b: u64) -> u64 {
    if b < a {
        b
    } else {
        a
    }
}

pub open spec fn higher(a: u64, b: u64) -> u64 {
    if b > a {
        b
    } else {
        a
    }
}

/// Whether a packet is long enough for its header and its entry table.
pub open spec fn has_table(buf: Seq<u8>) -> bool {
    &&& buf.len() >= PACKET_HEADER_SIZE
    &&& buf.len() >= payload_base(le_at(buf, 0, 2) as int)
}

/// The entry count and the time range of a packet. One without entries has the
/// range zero.
pub open spec fn meta_of(buf: Seq<u8>) -> PacketMeta {
    let n = le_at(buf, 0, 2);
    if n == 0 {
        PacketMeta { ts_min: 0, ts_max: 0, entry_count: 0 }
    } else {
        PacketMeta { ts_min: earliest(buf, n), ts_max: latest(buf, n), entry_count: n as u32 }
    }
}

/// Reads the entry count and the time range of a packet.
pub fn extract_meta(buf: &[u8]) -> (r: Result<PacketMeta, CaptureError>)
    ensures
        r == (if has_table(buf@) {
            Ok::<PacketMeta, CaptureError>(meta_of(buf@))
        } else {
            Err(CaptureError::BadPacket(buf@.len() as usize))
        }),
{
    if buf.len() < PACKET_HEADER_SIZE {
        return Err(CaptureError::BadPacket(buf.len()));
    }
    proof {
        crate::bytes::lemma_le_limits();
    }
    let n: usize = read_le(buf, 0, 2) as usize;
    if buf.len() < PACKET_HEADER_SIZE + n * ENTRY_HEADER_SIZE {
        return Err(CaptureError::BadPacket(buf.len()));
    }
    if n == 0 {
        return Ok(PacketMeta { ts_min: 0, ts_max: 0, entry_count: 0 });
    }
    let mut ts_min: u64 = u64::MAX;
    let mut ts_max: u64 = 0;
    let mut i: usize = 0;
    while i < n
        invariant
            i <= n <= 0xffff,
            payload_base(n as int) <= buf@.len(),
            ts_min == earliest(buf@, i as nat),
            ts_max == latest(buf@, i as nat),
        decreases n - i,
    {
        let t: u64 = read_le(buf, PACKET_HEADER_SIZE + i * ENTRY_HEADER_SIZE + 8, 8);
        if t < ts_min {
            ts_min = t;
        }
        if t > ts_max {
            ts_max = t;
        }
        i = i + 1;
    }
    Ok(PacketMeta { ts_min, ts_max, entry_count: n as u32 })
}

/// The packets one after another.
pub open spec fn flat(p: Seq<Seq<u8>>) -> Seq<u8>
    decreases p.len(),
{
    if p.len() == 0 {
        Seq::empty()
    } else {
        flat(p.drop_last()) + p.last()
    }
}

/// The bytes of the packets together.
pub open spec fn total_len(p: Seq<Seq<u8>>) -> nat {
    flat(p).len()
}

/// What is left of `p` when its oldest packets are dropped until the rest is
/// within `cap` bytes.
pub open spec fn fitted(p: Seq<Seq<u8>>, cap: nat) -> Seq<Seq<u8>>
    decreases p.len(),
{
    if total_len(p) <= cap || p.len() == 0 {
        p
    } else {
        fitted(p.skip(1), cap)
    }
}

/// Without its oldest packet, a ring is shorter by that packet's bytes.
pub proof fn lemma_total_len_skip(p: Seq<Seq<u8>>)
    requires
        p.len() > 0,
    ensures
        total_len(p) == p[0].len() + total_len(p.skip(1)),
    decreases p.len(),
{
    if p.len() == 1 {
        assert(p.skip(1) =~= Seq::empty());
        assert(p.drop_last() =~= Seq::empty());
    } else {
        lemma_total_len_skip(p.drop_last());
        assert(p.drop_last().skip(1) =~= p.skip(1).drop_last());
    }
}

pub proof fn lemma_total_len_push(p: Seq<Seq<u8>>, x: Seq<u8>)
    ensures
        flat(p.push(x)) == flat(p) + x,
        total_len(p.push(x)) == total_len(p) + x.len(),
{
    assert(p.push(x).drop_last() =~= p);
}

/// Whether the packets from `k` on are the most of the newest ones that fit.
pub open spec fn is_longest_fit(p: Seq<Seq<u8>>, cap: nat, k: int) -> bool {
    &&& 0 <= k <= p.len()
    &&& total_len(p.skip(k)) <= cap
    &&& forall|j: int| 0 <= j < k ==> total_len(#[trigger] p.skip(j)) > cap
}

/// What the ring keeps is a tail of what it was given, within the budget, and no
/// longer tail is: only the oldest packets leave, and no more than must.
pub proof fn law_ring_keeps_the_newest(p: Seq<Seq<u8>>, cap: nat)
    ensures
        exists|k: int| #[trigger] is_longest_fit(p, cap, k) && fitted(p, cap) == p.skip(k),
    decreases p.len(),
{
    if total_len(p) <= cap || p.len() == 0 {
        assert(p.skip(0) =~= p);
        assert(is_longest_fit(p, cap, 0));
    } else {
        let q = p.skip(1);
        law_ring_keeps_the_newest(q, cap);
        let k = choose|k: int| #[trigger]
            is_longest_fit(q, cap, k) && fitted(q, cap) == q.skip(k);
        assert(p.skip(k + 1) =~= q.skip(k));
        assert forall|j: int| 0 <= j < k + 1 implies total_len(#[trigger] p.skip(j)) > cap by {
            if j > 0 {
                assert(p.skip(j) =~= q.skip(j - 1));
            } else {
                assert(p.skip(0) =~= p);
            }
        }
        assert(is_longest_fit(p, cap, k + 1));
    }
}

/// What a capture holds.
#[verifier::ext_equal]
pub struct CaptureView {
    pub schema: Option<Seq<u8>>,
    pub packets: Seq<Seq<u8>>,
    pub cap_bytes: usize,
    pub total: u64,
    pub dropped: u64,
    /// When the capture began.
    pub epoch: Option<u64>,
}

impl CaptureView {
    /// The ring is within its budget, each packet has its table, and every packet
    /// that was pushed is in the ring or counted as dropped.
    pub open spec fn wf(self) -> bool {
        &&& total_len(self.packets) <= self.cap_bytes
        &&& self.total == self.dropped + self.packets.len()
        &&& forall|i: int| 0 <= i < self.packets.len() ==> has_table(#[trigger] self.packets[i])
    }

    /// The capture with one more packet, the oldest ones dropped to make room.
    pub open spec fn with_packet(self, p: Seq<u8>) -> CaptureView {
        let kept = fitted(self.packets.push(p), self.cap_bytes as nat);
        CaptureView {
            packets: kept,
            total: (self.total + 1) as u64,
            dropped: (self.dropped + self.packets.len() + 1 - kept.len()) as u64,
            ..self
        }
    }

    /// The capture with one more packet, where it is one and there is room to count it.
    pub open spec fn with_offered(self, p: Seq<u8>) -> CaptureView {
        if has_table(p) && self.total < u64::MAX && total_len(self.packets) + p.len() <= usize::MAX {
            self.with_packet(p)
        } else {
            self
        }
    }

    /// The earliest time of the first `n` packets.
    pub open spec fn first_time(self, n: nat) -> u64
        decreases n,
    {
        if n == 0 {
            u64::MAX
        } else {
            lower(self.first_time((n - 1) as nat), meta_of(self.packets[n - 1]).ts_min)
        }
    }

    /// The latest time of the first `n` packets.
    pub open spec fn last_time(self, n: nat) -> u64
        decreases n,
    {
        if n == 0 {
            0
        } else {
            higher(self.last_time((n - 1) as nat), meta_of(self.packets[n - 1]).ts_max)
        }
    }
}

/// The schema blob and the ring of packets of one session.
pub struct Capture {
    schema: Option<Vec<u8>>,
    packets: VecDeque<(Vec<u8>, PacketMeta)>,
    bytes: usize,
    cap_bytes: usize,
    packets_total: u64,
    packets_dropped: u64,
    epoch: Option<u64>,
}

/// The bytes of each packet.
pub open spec fn bodies(v: Seq<(Vec<u8>, PacketMeta)>) -> Seq<Seq<u8>> {
    v.map_values(|p: (Vec<u8>, PacketMeta)| p.0@)
}

impl View for Capture {
    type V = CaptureView;

    closed spec fn view(&self) -> CaptureView {
        CaptureView {
            schema: match self.schema {
                Some(s) => Some(s@),
                None => None,
            },
            packets: bodies(self.packets@),
            cap_bytes: self.cap_bytes,
            total: self.packets_total,
            dropped: self.packets_dropped,
            epoch: self.epoch,
        }
    }
}

impl Capture {
    /// The byte count and the packets' metadata are those of the packets.
    pub closed spec fn inv(&self) -> bool {
        &&& self@.wf()
        &&& self.bytes == total_len(self@.packets)
        &&& forall|i: int|
            0 <= i < self.packets@.len() ==> (#[trigger] self.packets@[i]).1 == meta_of(
                self.packets@[i].0@,
            )
    }

    /// The ring never exceeds its budget, and every packet that was pushed is in it
    /// or counted as dropped.
    pub proof fn law_ring_stays_within_its_budget(&self)
        requires
            self.inv(),
        ensures
            self@.wf(),
    {
    }

    /// A packet that is pushed leaves the most of the newest packets that fit the budget,
    /// and is counted; every packet so far is in the ring or counted as dropped.
    pub proof fn law_push_keeps_the_newest(c: CaptureView, bytes: Seq<u8>)
        requires
            c.wf(),
            c.total < u64::MAX,
            has_table(bytes),
        ensures
            c.with_packet(bytes).wf(),
            exists|k: int| #[trigger]
                is_longest_fit(c.packets.push(bytes), c.cap_bytes as nat, k)
                    && c.with_packet(bytes).packets == c.packets.push(bytes).skip(k),
            c.with_packet(bytes).total == c.total + 1,
            c.with_packet(bytes).total == c.with_packet(bytes).packets.len() + c.with_packet(
                bytes,
            ).dropped,
            c.with_packet(bytes).schema == c.schema,
            c.with_packet(bytes).cap_bytes == c.cap_bytes,
            c.with_packet(bytes).epoch == c.epoch,
    {
        let all = c.packets.push(bytes);
        law_ring_keeps_the_newest(all, c.cap_bytes as nat);
        let k = choose|k: int| #[trigger]
            is_longest_fit(all, c.cap_bytes as nat, k) && fitted(all, c.cap_bytes as nat)
                == all.skip(k);
        let kept = c.with_packet(bytes).packets;
        assert forall|i: int| 0 <= i < kept.len() implies has_table(#[trigger] kept[i]) by {
            assert(kept[i] == all[k + i]);
            if k + i < c.packets.len() {
                assert(has_table(c.packets[k + i]));
            }
        }
    }

    /// New capture with a byte budget.
    pub fn with_capacity(cap_bytes: usize) -> (r: Self)
        ensures
            r.inv(),
            r@ == (CaptureView {
                schema: None,
                packets: Seq::empty(),
                cap_bytes,
                total: 0,
                dropped: 0,
                epoch: None,
            }),
    {
        let r = Capture {
            schema: None,
            packets: VecDeque::new(),
            bytes: 0,
            cap_bytes,
            packets_total: 0,
            packets_dropped: 0,
            epoch: None,
        };
        assert(r@.packets =~= Seq::empty());
        r
    }

    /// Sets the schema blob. Says whether there was another one before, not an empty
    /// one.
    pub fn set_schema(&mut self, blob: Vec<u8>) -> (differs: bool)
        requires
            old(self).inv(),
        ensures
            final(self).inv(),
            differs == (old(self)@.schema matches Some(s) && s.len() > 0 && s != blob@),
            final(self)@ == (CaptureView { schema: Some(blob@), ..old(self)@ }),
    {
        let differs = match &self.schema {
            Some(s) => s.len() > 0 && !same_bytes(s, &blob),
            None => false,
        };
        self.schema = Some(blob);
        differs
    }

    /// The schema blob, if one is set.
    pub fn schema(&self) -> (r: Option<Vec<u8>>)
        ensures
            r is Some <==> self@.schema is Some,
            r matches Some(s) ==> self@.schema == Some(s@),
    {
        match &self.schema {
            Some(s) => Some(s.clone()),
            None => None,
        }
    }

    /// Notes when the capture began; later notes change nothing.
    pub fn start_clock(&mut self, now: u64)
        requires
            old(self).inv(),
        ensures
            final(self).inv(),
            final(self)@ == (CaptureView {
                epoch: if old(self)@.epoch is Some {
                    old(self)@.epoch
                } else {
                    Some(now)
                },
                ..old(self)@
            }),
    {
        if self.epoch.is_none() {
            self.epoch = Some(now);
        }
    }

    /// How long ago the capture began; zero if it did not.
    pub fn age(&self, now: u64) -> (r: u64)
        ensures
            r == (match self@.epoch {
                Some(t) => if now >= t {
                    (now - t) as u64
                } else {
                    0
                },
                None => 0,
            }),
    {
        match self.epoch {
            Some(t) => now.saturating_sub(t),
            None => 0,
        }
    }

    /// Appends a raw packet, without its length prefix. The oldest packets leave
    /// if the byte budget is exceeded. A packet too short for its own headers is
    /// refused.
    pub fn push_packet(&mut self, bytes: Vec<u8>) -> (r: Result<(), CaptureError>)
        requires
            old(self).inv(),
            total_len(old(self)@.packets) + bytes@.len() <= usize::MAX,
            old(self)@.total < u64::MAX,
        ensures
            final(self).inv(),
            match r {
                Ok(()) => has_table(bytes@) && final(self)@ == old(self)@.with_packet(bytes@),
                Err(e) => !has_table(bytes@) && e == CaptureError::BadPacket(
                    bytes@.len() as usize,
                ) && final(self)@ == old(self)@,
            },
    {
        let meta = match extract_meta(bytes.as_slice()) {
            Err(e) => {
                return Err(e);
            },
            Ok(m) => m,
        };
        let ghost body = bytes@;
        let ghost before = self@;
        self.bytes = self.bytes + bytes.len();
        self.packets.push_back((bytes, meta));
        self.packets_total = self.packets_total + 1;
        proof {
            assert(bodies(self.packets@) =~= before.packets.push(body));
            lemma_total_len_push(before.packets, body);
            assert forall|i: int| 0 <= i < self.packets@.len() implies (
            #[trigger] self.packets@[i]).1 == meta_of(self.packets@[i].0@) && has_table(
                self.packets@[i].0@,
            ) by {
                if i < before.packets.len() {
                    assert(has_table(before.packets[i]));
                    assert(self.packets@[i] == old(self).packets@[i]);
                }
            }
        }
        self.evict_to_fit();
        Ok(())
    }

    fn evict_to_fit(&mut self)
        requires
            old(self).bytes == total_len(old(self)@.packets),
            old(self)@.total == old(self)@.dropped + old(self)@.packets.len(),
            forall|i: int|
                0 <= i < old(self).packets@.len() ==> (#[trigger] old(self).packets@[i]).1
                    == meta_of(old(self).packets@[i].0@) && has_table(
                    old(self).packets@[i].0@,
                ),
        ensures
            final(self).inv(),
            final(self)@.packets == fitted(
                old(self)@.packets,
                old(self)@.cap_bytes as nat,
            ),
            final(self)@.total == old(self)@.total,
            final(self)@.cap_bytes == old(self)@.cap_bytes,
            final(self)@.schema == old(self)@.schema,
            final(self)@.epoch == old(self)@.epoch,
    {
        while self.bytes > self.cap_bytes
            invariant
                self.bytes == total_len(self@.packets),
                self@.total == self@.dropped + self@.packets.len(),
                self@.total == old(self)@.total,
                self@.cap_bytes == old(self)@.cap_bytes,
                self@.schema == old(self)@.schema,
                self@.epoch == old(self)@.epoch,
                forall|i: int|
                    0 <= i < self.packets@.len() ==> (#[trigger] self.packets@[i]).1 == meta_of(
                        self.packets@[i].0@,
                    ) && has_table(self.packets@[i].0@),
                fitted(self@.packets, self@.cap_bytes as nat) == fitted(
                    old(self)@.packets,
                    old(self)@.cap_bytes as nat,
                ),
            decreases self.packets@.len(),
        {
            let ghost before = self@;
            let ghost ring = self.packets@;
            match self.packets.pop_front() {
                None => {
                    proof {
                        assert(before.packets =~= Seq::empty());
                        assert(false);
                    }
                },
                Some((pkt, _)) => {
                    proof {
                        assert(self.packets@ =~= ring.skip(1));
                        assert(bodies(self.packets@) =~= before.packets.skip(1));
                        assert(before.packets[0] == pkt@);
                        lemma_total_len_skip(before.packets);
                    }
                    self.bytes = self.bytes - pkt.len();
                    self.packets_dropped = self.packets_dropped + 1;
                },
            }
        }
        proof {
            assert forall|i: int| 0 <= i < self@.packets.len() implies has_table(
                #[trigger] self@.packets[i],
            ) by {
                assert(self@.packets[i] == self.packets@[i].0@);
            }
        }
    }

    /// Appends a raw packet where it can be: one that is refused, or that the
    /// counters have no room for, is left out.
    pub fn offer(&mut self, bytes: Vec<u8>)
        requires
            old(self).inv(),
        ensures
            final(self).inv(),
            final(self)@ == old(self)@.with_offered(bytes@),
    {
        if self.packets_total < u64::MAX && self.bytes <= usize::MAX - bytes.len() {
            let _ = self.push_packet(bytes);
        }
    }

    /// Drops the schema, the packets and the counters.
    pub fn clear(&mut self)
        ensures
            final(self).inv(),
            final(self)@ == (CaptureView {
                schema: None,
                packets: Seq::empty(),
                cap_bytes: old(self)@.cap_bytes,
                total: 0,
                dropped: 0,
                epoch: None,
            }),
    {
        self.schema = None;
        self.packets.clear();
        self.bytes = 0;
        self.packets_total = 0;
        self.packets_dropped = 0;
        self.epoch = None;
        assert(self@.packets =~= Seq::empty());
    }

    /// The current numbers.
    pub fn stats(&self) -> (r: CaptureStats)
        requires
            self.inv(),
        ensures
            r == (CaptureStats {
                packets: self@.packets.len() as u64,
                bytes: total_len(self@.packets) as u64,
                packets_total: self@.total,
                packets_dropped: self@.dropped,
                ts_min: if self@.packets.len() == 0 {
                    None
                } else {
                    Some(self@.first_time(self@.packets.len()))
                },
                ts_max: if self@.packets.len() == 0 {
                    None
                } else {
                    Some(self@.last_time(self@.packets.len()))
                },
                has_schema: self@.schema is Some,
            }),
    {
        let n: usize = self.packets.len();
        let mut lo: u64 = u64::MAX;
        let mut hi: u64 = 0;
        let mut i: usize = 0;
        while i < n
            invariant
                i <= n == self.packets@.len(),
                self.inv(),
                lo == self@.first_time(i as nat),
                hi == self@.last_time(i as nat),
            decreases n - i,
        {
            let m = self.packets[i].1;
            assert(self@.packets[i as int] == self.packets@[i as int].0@);
            if m.ts_min < lo {
                lo = m.ts_min;
            }
            if m.ts_max > hi {
                hi = m.ts_max;
            }
            i = i + 1;
        }
        CaptureStats {
            packets: n as u64,
            bytes: self.bytes as u64,
            packets_total: self.packets_total,
            packets_dropped: self.packets_dropped,
            ts_min: if n == 0 {
                None
            } else {
                Some(lo)
            },
            ts_max: if n == 0 {
                None
            } else {
                Some(hi)
            },
            has_schema: self.schema.is_some(),
        }
    }

    /// The bytes of a capture file with the ring's packets. Without a schema
    /// there is none.
    pub fn save_btlm(&self) -> (r: Result<(Vec<u8>, SaveReport), CaptureError>)
        requires
            self.inv(),
        ensures
            match r {
                Ok((file, report)) => {
                    &&& self@.schema is Some
                    &&& file@ == file_of(self@.schema.unwrap(), self@.packets)
                    &&& report == (SaveReport {
                        packets: self@.packets.len() as u64,
                        bytes: file@.len() as u64,
                        schema_bytes: self@.schema.unwrap().len() as u64,
                    })
                },
                Err(e) => self@.schema is None && e == CaptureError::NoSchema,
            },
    {
        match &self.schema {
            None => Err(CaptureError::NoSchema),
            Some(schema) => {
                let file = write_btlm_inner(schema.as_slice(), &self.packets);
                let report = SaveReport {
                    packets: self.packets.len() as u64,
                    bytes: file.len() as u64,
                    schema_bytes: schema.len() as u64,
                };
                Ok((file, report))
            },
        }
    }

    /// Whether the ring holds a packet.
    pub fn has_data(&self) -> (r: bool)
        ensures
            r == (self@.packets.len() > 0),
    {
        self.packets.len() > 0
    }
}

impl Default for Capture {
    fn default() -> (r: Self)
        ensures
            r.inv(),
            r@ == (CaptureView {
                schema: None,
                packets: Seq::empty(),
                cap_bytes: DEFAULT_RING_BYTES,
                total: 0,
                dropped: 0,
                epoch: None,
            }),
    {
        Capture::with_capacity(DEFAULT_RING_BYTES)
    }
}

/// Whether two byte vectors are the same.
fn same_bytes(a: &Vec<u8>, b: &Vec<u8>) -> (r: bool)
    ensures
        r == (a@ == b@),
{
    if a.len() != b.len() {
        return false;
    }
    let mut i: usize = 0;
    while i < a.len()
        invariant
            i <= a@.len() == b@.len(),
            forall|j: int| 0 <= j < i ==> a@[j] == b@[j],
        decreases a@.len() - i,
    {
        if a[i] != b[i] {
            return false;
        }
        i = i + 1;
    }
    assert(a@ =~= b@);
    true
}

} // verus!
