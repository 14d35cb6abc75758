//! Taking in a telemetry stream or a capture file: frames, sessions, reconnecting.

use crate::btlm::LoadedCapture;
use crate::capture::Capture;
use crate::mapper::{ChannelMap, MapError};
use crate::schema::Schema;
use crate::store::MockStore;
use crate::wire::{decode_packet, Packet, WireError};
use vstd::prelude::*;

verus! {

use crate::bytes::le_at;
use crate::capture::CaptureView;
use crate::mapper::{distinct_ids, entries_plan, repeats_id, with_entry, FieldPlan};
use crate::schema::{schema_of, SchemaView};
use crate::store::StoreView;
use crate::wire::{packet_of, EntryView, PacketView};

/// Why a read from the connection failed.
#[derive(Clone, Copy, Debug, PartialEq, Eq, Structural)]
pub enum ReadFault {
    Interrupted,
    WouldBlock,
    TimedOut,
    Other,
}

/// Why a session ended.
#[derive(Clone, Copy, Debug, PartialEq, Eq, Structural)]
pub enum IngestError {
    Io(ReadFault),
    Wire(WireError),
    Mapping(MapError),
    /// The other side closed the connection.
    Closed,
}

/// What one read gave.
#[derive(Clone, Copy, Debug, PartialEq, Eq, Structural)]
pub enum ReadEvent {
    /// This many bytes; none means that the connection is closed.
    Bytes(usize),
    Fault(ReadFault),
}

/// What to do after a read.
#[derive(Clone, Copy, Debug, PartialEq, Eq, Structural)]
pub enum ReadStep {
    /// Read on after this many bytes.
    More(usize),
    /// All bytes are there.
    Done,
    Fail(IngestError),
}

/// A read of `want` bytes of which `filled` are there, after one more event. A closed
/// connection ends it. A fault that will pass ends it only before the first byte.
pub open spec fn read_step(filled: usize, want: usize, event: ReadEvent) -> ReadStep {
    match event {
        ReadEvent::Bytes(n) => if n == 0 {
            ReadStep::Fail(IngestError::Closed)
        } else if filled + n >= want {
            ReadStep::Done
        } else {
            ReadStep::More((filled + n) as usize)
        },
        ReadEvent::Fault(f) => if f == ReadFault::Other || filled == 0 {
            ReadStep::Fail(IngestError::Io(f))
        } else {
            ReadStep::More(filled)
        },
    }
}

/// Decides how to go on after a read.
pub fn after_read(filled: usize, want: usize, event: ReadEvent) -> (r: ReadStep)
    requires
        filled < want,
        event matches ReadEvent::Bytes(n) ==> n <= want - filled,
    ensures
        r == read_step(filled, want, event),
{
    match event {
        ReadEvent::Bytes(n) => {
            if n == 0 {
                ReadStep::Fail(IngestError::Closed)
            } else if filled + n >= want {
                ReadStep::Done
            } else {
                ReadStep::More(filled + n)
            }
        },
        ReadEvent::Fault(f) => {
            if f == ReadFault::Other || filled == 0 {
                ReadStep::Fail(IngestError::Io(f))
            } else {
                ReadStep::More(filled)
            }
        },
    }
}

/// What to do after the length of the next packet was asked for.
#[derive(Clone, Copy, Debug, PartialEq, Eq, Structural)]
pub enum LengthStep {
    /// Read a packet of this many bytes.
    Packet(u32),
    /// Nothing came; ask again.
    Idle,
    End(IngestError),
}

/// Decides how to go on after the length of the next packet was asked for: where
/// nothing came in time, it is asked for again.
pub fn after_length(r: Result<u32, IngestError>) -> (step: LengthStep)
    ensures
        step == (match r {
            Ok(n) => LengthStep::Packet(n),
            Err(IngestError::Io(ReadFault::WouldBlock)) => LengthStep::Idle,
            Err(IngestError::Io(ReadFault::TimedOut)) => LengthStep::Idle,
            Err(e) => LengthStep::End(e),
        }),
{
    match r {
        Ok(n) => LengthStep::Packet(n),
        Err(IngestError::Io(ReadFault::WouldBlock)) => LengthStep::Idle,
        Err(IngestError::Io(ReadFault::TimedOut)) => LengthStep::Idle,
        Err(e) => LengthStep::End(e),
    }
}

/// The length that four bytes give.
pub fn frame_length(bytes: &[u8]) -> (r: u32)
    requires
        bytes@.len() == 4,
    ensures
        r == le_at(bytes@, 0, 4),
{
    proof {
        crate::bytes::lemma_le_limits();
    }
    crate::bytes::read_le(bytes, 0, 4) as u32
}

/// Begins a session: decodes the schema and registers its channels.
pub fn open_session(schema_bytes: &[u8], store: &mut MockStore) -> (r: Result<
    ChannelMap,
    IngestError,
>)
    requires
        old(store)@.wf(),
    ensures
        final(store)@.wf(),
        match schema_of(schema_bytes@) {
            Err(e) => r == Err::<ChannelMap, IngestError>(IngestError::Wire(e)) && final(store)@
                == old(store)@,
            Ok(schema) => match r {
                Ok(map) => {
                    &&& distinct_ids(schema.entries, schema.entries.len() as int)
                    &&& (map@, final(store)@) == entries_plan(
                        schema,
                        schema.entries.len(),
                        old(store)@,
                    )
                },
                Err(e) => is_duplicate(schema, old(store)@, e, final(store)@),
            },
        },
{
    let schema = match Schema::decode(schema_bytes) {
        Err(e) => {
            return Err(IngestError::Wire(e));
        },
        Ok(s) => s,
    };
    match ChannelMap::build(&schema, store) {
        Ok(map) => Ok(map),
        Err(e) => Err(IngestError::Mapping(e)),
    }
}

/// Whether a schema repeats an id, the error names the first repeated one, and the
/// store holds the channels of the entries before it.
pub open spec fn is_duplicate(
    schema: SchemaView,
    before: StoreView,
    e: IngestError,
    after: StoreView,
) -> bool {
    exists|k: int|
        {
            &&& 0 <= k < schema.entries.len()
            &&& distinct_ids(schema.entries, k)
            &&& #[trigger] repeats_id(schema.entries, k)
            &&& e == IngestError::Mapping(MapError::DuplicateSchema(schema.entries[k].id))
            &&& after == entries_plan(schema, k as nat, before).1
        }
}

/// The store with the samples of the first `n` entries of a packet.
pub open spec fn with_entries(
    s: StoreView,
    map: Map<u16, Seq<FieldPlan>>,
    entries: Seq<EntryView>,
    n: nat,
) -> StoreView
    decreases n,
{
    if n == 0 {
        s
    } else {
        let e = entries[n - 1];
        with_entry(with_entries(s, map, entries, (n - 1) as nat), map, e.id, e.timestamp, e.payload)
    }
}

/// The store with the samples of a packet.
pub open spec fn with_packet_samples(
    s: StoreView,
    map: Map<u16, Seq<FieldPlan>>,
    p: PacketView,
) -> StoreView {
    with_entries(s, map, p.entries, p.entries.len())
}

fn dispatch_all(p: &Packet<'_>, map: &ChannelMap, store: &mut MockStore)
    requires
        old(store)@.wf(),
    ensures
        final(store)@.wf(),
        final(store)@ == with_packet_samples(old(store)@, map@, p@),
{
    let ghost all = p@.entries;
    let mut i: usize = 0;
    while i < p.entries.len()
        invariant
            i <= p.entries@.len(),
            all == p@.entries,
            store@.wf(),
            store@ == with_entries(old(store)@, map@, all, i as nat),
        decreases p.entries@.len() - i,
    {
        let e = &p.entries[i];
        assert(all[i as int] == e@);
        map.dispatch(e.id, e.timestamp, e.payload, store);
        i = i + 1;
    }
}

/// The capture, where there is one, with a packet offered to it.
pub open spec fn captured(c: Option<Capture>, p: Seq<u8>) -> Option<CaptureView> {
    match c {
        Some(c) => Some(c@.with_offered(p)),
        None => None,
    }
}

/// What a capture holds, where there is one.
pub open spec fn capture_view(c: Option<Capture>) -> Option<CaptureView> {
    match c {
        Some(c) => Some(c@),
        None => None,
    }
}

/// Takes in one packet: pushes the samples of its entries, and offers it to the
/// capture. A packet that cannot be decoded changes nothing.
pub fn ingest_packet(
    bytes: &Vec<u8>,
    map: &ChannelMap,
    store: &mut MockStore,
    capture: &mut Option<Capture>,
) -> (r: Result<(), IngestError>)
    requires
        old(store)@.wf(),
        *old(capture) matches Some(c) ==> c.inv(),
    ensures
        final(store)@.wf(),
        *final(capture) matches Some(c) ==> c.inv(),
        match packet_of(bytes@) {
            Ok(p) => {
                &&& r is Ok
                &&& final(store)@ == with_packet_samples(old(store)@, map@, p)
                &&& capture_view(*final(capture)) == captured(*old(capture), bytes@)
            },
            Err(e) => {
                &&& r == Err::<(), IngestError>(IngestError::Wire(e))
                &&& final(store)@ == old(store)@
                &&& *final(capture) == *old(capture)
            },
        },
{
    match decode_packet(bytes.as_slice()) {
        Err(e) => {
            return Err(IngestError::Wire(e));
        },
        Ok(p) => {
            dispatch_all(&p, map, store);
        },
    }
    let copy = bytes.clone();
    assert(copy@ =~= bytes@);
    match capture {
        Some(c) => {
            c.offer(copy);
        },
        None => {},
    }
    Ok(())
}

/// Forgets what a session left behind, before the next one.
pub fn reset_session(store: &mut MockStore, capture: &mut Option<Capture>)
    ensures
        final(store)@.wf(),
        final(store)@ == old(store)@.cleared(),
        *final(capture) matches Some(c) ==> c.inv(),
        capture_view(*final(capture)) == (match *old(capture) {
            Some(c) => Some(
                CaptureView {
                    schema: None,
                    packets: Seq::empty(),
                    cap_bytes: c@.cap_bytes,
                    total: 0,
                    dropped: 0,
                    epoch: None,
                },
            ),
            None => None,
        }),
{
    store.clear();
    match capture {
        Some(c) => {
            c.clear();
        },
        None => {},
    }
}

/// How many packets and entries of a capture file were taken in, and how many packets
/// could not be decoded.
#[derive(Clone, Copy, Debug, PartialEq, Eq, Structural)]
pub struct ReplayCounts {
    pub packets: u64,
    pub entries: u64,
    pub skipped: u64,
}

/// The state of a replay.
#[verifier::ext_equal]
pub struct ReplayView {
    pub store: StoreView,
    pub capture: CaptureView,
    pub packets: nat,
    pub entries: nat,
    pub skipped: nat,
}

/// The state after the first `n` packets of a file: those that decode are dispatched
/// and captured, the others counted.
pub open spec fn replayed(
    start: ReplayView,
    map: Map<u16, Seq<FieldPlan>>,
    packets: Seq<Seq<u8>>,
    n: nat,
) -> ReplayView
    decreases n,
{
    if n == 0 {
        start
    } else {
        let before = replayed(start, map, packets, (n - 1) as nat);
        let bytes = packets[n - 1];
        match packet_of(bytes) {
            Ok(p) => ReplayView {
                store: with_packet_samples(before.store, map, p),
                capture: before.capture.with_offered(bytes),
                packets: before.packets + 1,
                entries: before.entries + p.entries.len(),
                ..before
            },
            Err(_) => ReplayView { skipped: before.skipped + 1, ..before },
        }
    }
}

/// Takes in the packets of a capture file.
pub fn replay_packets(
    packets: &Vec<Vec<u8>>,
    map: &ChannelMap,
    store: &mut MockStore,
    capture: &mut Capture,
) -> (r: ReplayCounts)
    requires
        old(store)@.wf(),
        old(capture).inv(),
        packets@.len() * 0x1_0000 <= u64::MAX,
    ensures
        final(store)@.wf(),
        final(capture).inv(),
        ({
            let start = ReplayView {
                store: old(store)@,
                capture: old(capture)@,
                packets: 0,
                entries: 0,
                skipped: 0,
            };
            replayed(start, map@, packets@.map_values(|p: Vec<u8>| p@), packets@.len()) == (
            ReplayView {
                store: final(store)@,
                capture: final(capture)@,
                packets: r.packets as nat,
                entries: r.entries as nat,
                skipped: r.skipped as nat,
            })
        }),
{
    let ghost all = packets@.map_values(|p: Vec<u8>| p@);
    let ghost start = ReplayView {
        store: store@,
        capture: capture@,
        packets: 0,
        entries: 0,
        skipped: 0,
    };
    let mut taken: u64 = 0;
    let mut entries: u64 = 0;
    let mut skipped: u64 = 0;
    let mut i: usize = 0;
    while i < packets.len()
        invariant
            i <= packets@.len(),
            all == packets@.map_values(|p: Vec<u8>| p@),
            packets@.len() * 0x1_0000 <= u64::MAX,
            store@.wf(),
            capture.inv(),
            taken <= i,
            skipped <= i,
            entries <= i * 0x1_0000,
            replayed(start, map@, all, i as nat) == (ReplayView {
                store: store@,
                capture: capture@,
                packets: taken as nat,
                entries: entries as nat,
                skipped: skipped as nat,
            }),
        decreases packets@.len() - i,
    {
        assert(all[i as int] == packets@[i as int]@);
        match decode_packet(packets[i].as_slice()) {
            Ok(p) => {
                proof {
                    lemma_few_entries(packets@[i as int]@);
                }
                dispatch_all(&p, map, store);
                taken = taken + 1;
                entries = entries + p.entries.len() as u64;
                let copy = packets[i].clone();
                assert(copy@ =~= packets@[i as int]@);
                capture.offer(copy);
            },
            Err(_) => {
                skipped = skipped + 1;
            },
        }
        i = i + 1;
    }
    ReplayCounts { packets: taken, entries, skipped }
}

proof fn lemma_few_entries(buf: Seq<u8>)
    ensures
        packet_of(buf) matches Ok(p) ==> p.entries.len() < 0x1_0000,
{
    let n = crate::wire::header_of(buf).entry_count as nat;
    crate::wire::lemma_collect_ok(|i: int| crate::wire::entry_of(buf, i), n);
}

/// What came of opening a capture file.
#[derive(Clone, Copy, Debug, PartialEq, Eq, Structural)]
pub enum OpenOutcome {
    Loaded(ReplayCounts),
    /// The schema could not be decoded; nothing was changed.
    BadSchema(WireError),
    /// The schema could not be mapped; the old data is gone.
    BadMap(MapError),
}

/// Opens a capture file in place of what is there: clears store and capture, registers
/// the channels of its schema, and takes in its packets.
pub fn open_capture(loaded: &LoadedCapture, store: &mut MockStore, capture: &mut Capture) -> (r:
    OpenOutcome)
    requires
        old(capture).inv(),
        loaded.packets@.len() * 0x1_0000 <= u64::MAX,
    ensures
        final(capture).inv(),
        match schema_of(loaded@.schema) {
            Err(e) => r == OpenOutcome::BadSchema(e) && *final(store) == *old(store)
                && *final(capture) == *old(capture),
            Ok(schema) => {
                let empty = old(store)@.cleared();
                &&& final(store)@.wf()
                &&& match r {
                    OpenOutcome::Loaded(c) => {
                        let (map, registered) = entries_plan(schema, schema.entries.len(), empty);
                        let start = ReplayView {
                            store: registered,
                            capture: old(capture)@.emptied(loaded@.schema),
                            packets: 0,
                            entries: 0,
                            skipped: 0,
                        };
                        &&& distinct_ids(schema.entries, schema.entries.len() as int)
                        &&& replayed(start, map, loaded@.packets, loaded@.packets.len()) == (
                        ReplayView {
                            store: final(store)@,
                            capture: final(capture)@,
                            packets: c.packets as nat,
                            entries: c.entries as nat,
                            skipped: c.skipped as nat,
                        })
                    },
                    OpenOutcome::BadMap(e) => is_duplicate(
                        schema,
                        empty,
                        IngestError::Mapping(e),
                        final(store)@,
                    ) && final(capture)@ == (CaptureView {
                        schema: None,
                        ..old(capture)@.emptied(loaded@.schema)
                    }),
                    OpenOutcome::BadSchema(_) => false,
                }
            },
        },
{
    let schema = match Schema::decode(loaded.schema.as_slice()) {
        Err(e) => {
            return OpenOutcome::BadSchema(e);
        },
        Ok(s) => s,
    };
    store.clear();
    capture.clear();
    let map = match ChannelMap::build(&schema, store) {
        Err(e) => {
            return OpenOutcome::BadMap(e);
        },
        Ok(m) => m,
    };
    let blob = loaded.schema.clone();
    assert(blob@ =~= loaded.schema@);
    capture.set_schema(blob);
    assert(capture@ =~= old(capture)@.emptied(loaded@.schema));
    OpenOutcome::Loaded(replay_packets(&loaded.packets, &map, store, capture))
}

impl CaptureView {
    /// The empty capture of the same size, for a schema.
    pub open spec fn emptied(self, schema: Seq<u8>) -> CaptureView {
        CaptureView {
            schema: Some(schema),
            packets: Seq::empty(),
            cap_bytes: self.cap_bytes,
            total: 0,
            dropped: 0,
            epoch: None,
        }
    }
}

/// Milliseconds before the first attempt to connect again.
pub const FIRST_DELAY_MS: u64 = 250;

/// Milliseconds between attempts at most.
pub const LAST_DELAY_MS: u64 = 5_000;

/// Milliseconds of sleep after which a request to stop is looked for.
pub const SLEEP_CHUNK_MS: u64 = 100;

/// The time to wait before the next attempt to connect.
#[derive(Clone, Copy, Debug, PartialEq, Eq)]
pub struct Backoff {
    delay_ms: u64,
}

impl Backoff {
    pub closed spec fn delay(&self) -> u64 {
        self.delay_ms
    }

    /// The delay is never below the first nor above the last one.
    pub open spec fn wf(&self) -> bool {
        FIRST_DELAY_MS <= self.delay() <= LAST_DELAY_MS
    }

    pub fn new() -> (r: Self)
        ensures
            r.wf(),
            r.delay() == FIRST_DELAY_MS,
    {
        Backoff { delay_ms: FIRST_DELAY_MS }
    }

    pub fn delay_ms(&self) -> (r: u64)
        ensures
            r == self.delay(),
    {
        self.delay_ms
    }

    /// After an attempt that failed the delay doubles, up to the last one.
    pub fn failed(&mut self)
        requires
            old(self).wf(),
        ensures
            final(self).wf(),
            final(self).delay() == (if 2 * old(self).delay() < LAST_DELAY_MS {
                (2 * old(self).delay()) as u64
            } else {
                LAST_DELAY_MS
            }),
    {
        let next: u64 = self.delay_ms * 2;
        self.delay_ms = if next < LAST_DELAY_MS {
            next
        } else {
            LAST_DELAY_MS
        };
    }

    /// After a connection the delay starts again.
    pub fn connected(&mut self)
        ensures
            final(self).wf(),
            final(self).delay() == FIRST_DELAY_MS,
    {
        self.delay_ms = FIRST_DELAY_MS;
    }
}

/// The next piece of a sleep of which `slept` milliseconds are over: what is left, but
/// no more than one chunk; nothing at the end.
pub open spec fn chunk_after(delay: u64, slept: u64) -> Option<u64> {
    if slept >= delay {
        None
    } else if delay - slept < SLEEP_CHUNK_MS {
        Some((delay - slept) as u64)
    } else {
        Some(SLEEP_CHUNK_MS)
    }
}

/// The next piece of a sleep.
pub fn sleep_chunk(delay: u64, slept: u64) -> (r: Option<u64>)
    ensures
        r == chunk_after(delay, slept),
{
    if slept >= delay {
        None
    } else if delay - slept < SLEEP_CHUNK_MS {
        Some(delay - slept)
    } else {
        Some(SLEEP_CHUNK_MS)
    }
}

/// The pieces of a sleep from `slept` on, added up.
pub open spec fn slept_in_chunks(delay: u64, slept: u64) -> nat
    decreases delay - slept,
{
    match chunk_after(delay, slept) {
        Some(c) => c as nat + slept_in_chunks(delay, (slept + c) as u64),
        None => 0,
    }
}

/// The pieces of a sleep add up to it, and none is longer than a chunk.
pub proof fn law_chunks_add_up(delay: u64, slept: u64)
    requires
        slept <= delay,
    ensures
        slept_in_chunks(delay, slept) == delay - slept,
        chunk_after(delay, slept) matches Some(c) ==> 0 < c <= SLEEP_CHUNK_MS,
    decreases delay - slept,
{
    match chunk_after(delay, slept) {
        Some(c) => {
            law_chunks_add_up(delay, (slept + c) as u64);
        },
        None => {},
    }
}

} // verus!
