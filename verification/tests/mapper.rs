use btelem::ingest::{
    after_length, after_read, frame_length, ingest_packet, open_capture, open_session,
    reset_session, sleep_chunk, Backoff, IngestError, LengthStep, OpenOutcome, ReadEvent,
    ReadFault, ReadStep,
};
use btelem::btlm::LoadedCapture;
use btelem::capture::Capture;
use btelem::mapper::{extract_bits, read_scalar, ChannelMap, MapError};
use btelem::schema::{BitDef, BitfieldDef, EnumDef, FieldDef, FieldType, Schema, SchemaEntry};
use btelem::store::{ChannelId, ChannelKind, MockStore, Sample};
use btelem::value::{collapse, field_as_f64, field_as_string};
use btelem::wire::{WireError, FIELD_WIRE_SIZE, SCHEMA_WIRE_HEADER_SIZE, SCHEMA_WIRE_SIZE};

fn field(name: &str, offset: u16, size: u16, ty: FieldType, count: u8) -> FieldDef {
    FieldDef { name: name.to_owned(), offset, size, ty, count }
}

fn entry(id: u16, name: &str, fields: Vec<FieldDef>) -> SchemaEntry {
    SchemaEntry {
        id,
        name: name.to_owned(),
        description: String::new(),
        payload_size: 4,
        fields,
    }
}

fn bitfield_schema() -> Schema {
    let bf = BitfieldDef {
        schema_id: 1,
        field_index: 0,
        bits: vec![
            BitDef { name: "a".to_owned(), start: 0, width: 1 },
            BitDef { name: "b".to_owned(), start: 3, width: 2 },
        ],
    };
    Schema {
        entries: vec![entry(1, "flags", vec![field("f", 0, 4, FieldType::Bitfield, 1)])],
        enums: vec![],
        bitfields: vec![bf],
    }
}

fn number(s: Option<Sample>) -> Option<f64> {
    match s {
        Some(Sample::Exact(b)) => Some(f64::from_bits(b)),
        _ => None,
    }
}

#[test]
fn bitfield_registration_records_word_to_bits_in_order() {
    let mut store = MockStore::new();
    let schema = bitfield_schema();
    ChannelMap::build(&schema, &mut store).unwrap();

    let chans = store.channels();
    let by_path = |p: &str| -> ChannelId { chans.iter().find(|c| c.path == p).expect(p).id };
    let word = by_path("flags.f");
    let bit_a = by_path("flags.f.a");
    let bit_b = by_path("flags.f.b");

    let info = chans.iter().find(|c| c.id == word).unwrap();
    assert!(info.integer_storage);
    assert!(matches!(info.kind, ChannelKind::Scalar));

    for &bit in &[bit_a, bit_b] {
        let bi = chans.iter().find(|c| c.id == bit).unwrap();
        assert!(bi.integer_storage);
        assert!(matches!(bi.kind, ChannelKind::Scalar));
    }

    let bits = store.bits_for_word(word).expect("mapping registered");
    assert_eq!(bits, vec![bit_a, bit_b]);

    assert!(store.bits_for_word(bit_a).is_none());
}

#[test]
fn dispatch_pushes_words_and_bits() {
    let mut store = MockStore::new();
    let map = ChannelMap::build(&bitfield_schema(), &mut store).unwrap();
    map.dispatch(1, 7, &[0b0001_1001, 0, 0, 0x80], &mut store);
    assert_eq!(number(store.sample_at(0, 7)), Some(0x8000_0019u32 as f64));
    assert_eq!(number(store.sample_at(1, 7)), Some(1.0));
    assert_eq!(number(store.sample_at(2, 7)), Some(3.0));
    map.dispatch(9, 8, &[1, 2, 3, 4], &mut store);
    map.dispatch(1, 9, &[1, 2, 3], &mut store);
    assert_eq!(store.sample_count(0), 1);
}

#[test]
fn dispatch_reads_every_type() {
    let types = [
        (FieldType::U8, 1u16, vec![0xf0], 240.0),
        (FieldType::I8, 1, vec![0xf0], -16.0),
        (FieldType::U16, 2, vec![0x34, 0x12], 4660.0),
        (FieldType::I16, 2, vec![0xff, 0xff], -1.0),
        (FieldType::U32, 4, vec![0, 0, 0, 0x80], 2147483648.0),
        (FieldType::I32, 4, vec![0, 0, 0, 0x80], -2147483648.0),
        (FieldType::U64, 8, vec![0xff; 8], u64::MAX as f64),
        (FieldType::I64, 8, vec![0xff; 8], -1.0),
        (FieldType::F32, 4, 1.5f32.to_le_bytes().to_vec(), 1.5),
        (FieldType::F64, 8, (-0.25f64).to_le_bytes().to_vec(), -0.25),
    ];
    for (ty, size, raw, want) in types {
        assert_eq!(read_scalar(ty, &raw, 0, size).map(f64::from_bits), Some(want), "{ty:?}");
        assert_eq!(collapse(ty, &raw).map(f64::from_bits), Some(want), "{ty:?}");
        assert_eq!(read_scalar(ty, &raw, 1, size), None);
    }
    assert_eq!(read_scalar(FieldType::Bytes, &[1, 2], 0, 2), None);
}

#[test]
fn arrays_states_and_enums_have_their_channels() {
    let schema = Schema {
        entries: vec![entry(
            3,
            "imu",
            vec![
                field("acc", 0, 6, FieldType::I16, 3),
                field("ok", 6, 1, FieldType::Bool, 1),
                field("mode", 7, 1, FieldType::Enum, 1),
                field("raw", 8, 4, FieldType::Bytes, 1),
            ],
        )],
        enums: vec![EnumDef {
            schema_id: 3,
            field_index: 2,
            labels: vec!["idle".to_owned(), "run".to_owned()],
        }],
        bitfields: vec![],
    };
    let mut store = MockStore::new();
    let map = ChannelMap::build(&schema, &mut store).unwrap();
    let paths: Vec<String> = store.channels().into_iter().map(|c| c.path).collect();
    assert_eq!(paths, ["imu.acc[0]", "imu.acc[1]", "imu.acc[2]", "imu.ok", "imu.mode"]);
    match &store.channels()[4].kind {
        ChannelKind::State { labels } => assert_eq!(labels, &["idle", "run"]),
        other => panic!("{other:?}"),
    }
    map.dispatch(3, 5, &[1, 0, 2, 0, 0xff, 0xff, 1, 1, 0, 0, 0, 0], &mut store);
    assert_eq!(number(store.sample_at(0, 5)), Some(1.0));
    assert_eq!(number(store.sample_at(1, 5)), Some(2.0));
    assert_eq!(number(store.sample_at(2, 5)), Some(-1.0));
    assert_eq!(store.query_state(3, 0, 10)[0].value, 1);
    assert_eq!(store.query_state(4, 0, 10)[0].value, 1);
}

#[test]
fn repeated_ids_are_refused() {
    let e = || entry(4, "x", vec![field("v", 0, 1, FieldType::U8, 1)]);
    let schema = Schema { entries: vec![e(), e()], enums: vec![], bitfields: vec![] };
    let mut store = MockStore::new();
    let r = ChannelMap::build(&schema, &mut store);
    assert_eq!(r.err(), Some(MapError::DuplicateSchema(4)));
}

#[test]
fn bits_are_cut_out() {
    assert_eq!(extract_bits(0b1011_0100, 2, 3), 0b101);
    assert_eq!(extract_bits(u64::MAX, 0, 63), u64::MAX >> 1);
    assert_eq!(extract_bits(u64::MAX, 63, 1), 1);
}

#[test]
fn fields_collapse_to_numbers_and_text() {
    let f = field("v", 2, 2, FieldType::U16, 1);
    assert_eq!(field_as_f64(&f, &[9, 9, 1, 1]).map(f64::from_bits), Some(257.0));
    assert_eq!(field_as_f64(&f, &[9, 9, 1]), None);
    let s = field("s", 0, 4, FieldType::String, 1);
    assert_eq!(field_as_string(&s, b"ab\0c"), Some("ab".to_owned()));
    assert_eq!(field_as_string(&s, b"\xffb\0c"), Some("\u{fffd}b".to_owned()));
    assert_eq!(field_as_string(&s, "\u{e9}\0x".as_bytes()), Some("\u{e9}".to_owned()));
    assert_eq!(field_as_string(&s, b"abc"), None);
    assert_eq!(field_as_string(&f, &[9, 9, 1, 1]), None);
}

/// A schema blob of one entry with one `u32` field.
fn blob() -> Vec<u8> {
    let mut out = vec![0, 1, 0];
    let mut e = vec![0u8; SCHEMA_WIRE_SIZE];
    e[0..2].copy_from_slice(&5u16.to_le_bytes());
    e[2..4].copy_from_slice(&4u16.to_le_bytes());
    e[4..6].copy_from_slice(&1u16.to_le_bytes());
    e[6] = b'c';
    let at = SCHEMA_WIRE_HEADER_SIZE;
    assert!(at + FIELD_WIRE_SIZE <= e.len());
    e[at] = b'n';
    e[at + 66..at + 68].copy_from_slice(&4u16.to_le_bytes());
    e[at + 68] = FieldType::U32 as u8;
    e[at + 69] = 1;
    out.extend_from_slice(&e);
    out
}

/// A packet of one entry.
fn packet(t: u64, v: u32) -> Vec<u8> {
    let mut out = Vec::new();
    out.extend_from_slice(&1u16.to_le_bytes());
    out.extend_from_slice(&0u16.to_le_bytes());
    out.extend_from_slice(&4u32.to_le_bytes());
    out.extend_from_slice(&[0; 8]);
    out.extend_from_slice(&5u16.to_le_bytes());
    out.extend_from_slice(&4u16.to_le_bytes());
    out.extend_from_slice(&0u32.to_le_bytes());
    out.extend_from_slice(&t.to_le_bytes());
    out.extend_from_slice(&v.to_le_bytes());
    out
}

#[test]
fn sessions_take_packets_in() {
    let mut store = MockStore::new();
    let mut capture = Some(Capture::default());
    let map = open_session(&blob(), &mut store).unwrap();
    assert_eq!(store.channels()[0].path, "c.n");
    assert_eq!(ingest_packet(&packet(10, 7), &map, &mut store, &mut capture), Ok(()));
    assert_eq!(number(store.sample_at(0, 10)), Some(7.0));
    assert_eq!(capture.as_ref().unwrap().stats().packets, 1);

    let bad = packet(10, 7)[..20].to_vec();
    assert_eq!(
        ingest_packet(&bad, &map, &mut store, &mut capture),
        Err(IngestError::Wire(WireError::Short { need: 32, got: 20 }))
    );
    assert_eq!(store.sample_count(0), 1);
    assert_eq!(capture.as_ref().unwrap().stats().packets, 1);

    reset_session(&mut store, &mut capture);
    assert!(store.channels().is_empty());
    assert!(!capture.as_ref().unwrap().has_data());
    assert!(matches!(
        open_session(&[1], &mut store),
        Err(IngestError::Wire(WireError::BadEndian(1)))
    ));
}

#[test]
fn capture_files_replace_what_is_there() {
    let mut store = MockStore::new();
    store.add_scalar("old");
    let mut capture = Capture::default();
    let file = LoadedCapture {
        schema: blob(),
        packets: vec![packet(1, 2), vec![1, 2, 3], packet(3, 4)],
    };
    match open_capture(&file, &mut store, &mut capture) {
        OpenOutcome::Loaded(c) => assert_eq!((c.packets, c.entries, c.skipped), (2, 2, 1)),
        other => panic!("{other:?}"),
    }
    assert_eq!(store.channels().len(), 1);
    assert_eq!(store.time_bounds(), Some((1, 3)));
    assert_eq!(capture.stats().packets, 2);
    assert_eq!(capture.schema(), Some(blob()));

    let bad = LoadedCapture { schema: vec![9], packets: vec![] };
    assert_eq!(
        open_capture(&bad, &mut store, &mut capture),
        OpenOutcome::BadSchema(WireError::BadEndian(9))
    );
    assert_eq!(store.channels().len(), 1);

    let mut twice = blob();
    let e = twice[3..].to_vec();
    twice.extend_from_slice(&e);
    twice[1] = 2;
    let dup = LoadedCapture { schema: twice, packets: vec![] };
    assert_eq!(
        open_capture(&dup, &mut store, &mut capture),
        OpenOutcome::BadMap(MapError::DuplicateSchema(5))
    );
}

#[test]
fn reads_go_on_until_all_is_there() {
    assert_eq!(after_read(0, 4, ReadEvent::Bytes(0)), ReadStep::Fail(IngestError::Closed));
    assert_eq!(after_read(1, 4, ReadEvent::Bytes(2)), ReadStep::More(3));
    assert_eq!(after_read(1, 4, ReadEvent::Bytes(3)), ReadStep::Done);
    let late = ReadEvent::Fault(ReadFault::TimedOut);
    assert_eq!(after_read(0, 4, late), ReadStep::Fail(IngestError::Io(ReadFault::TimedOut)));
    assert_eq!(after_read(2, 4, late), ReadStep::More(2));
    let other = ReadEvent::Fault(ReadFault::Other);
    assert_eq!(after_read(2, 4, other), ReadStep::Fail(IngestError::Io(ReadFault::Other)));

    assert_eq!(after_length(Ok(9)), LengthStep::Packet(9));
    assert_eq!(after_length(Err(IngestError::Io(ReadFault::TimedOut))), LengthStep::Idle);
    assert_eq!(after_length(Err(IngestError::Io(ReadFault::WouldBlock))), LengthStep::Idle);
    assert_eq!(
        after_length(Err(IngestError::Io(ReadFault::Interrupted))),
        LengthStep::End(IngestError::Io(ReadFault::Interrupted))
    );
    assert_eq!(after_length(Err(IngestError::Closed)), LengthStep::End(IngestError::Closed));
    assert_eq!(frame_length(&[0x78, 0x56, 0x34, 0x12]), 0x1234_5678);
}

#[test]
fn attempts_back_off() {
    let mut b = Backoff::new();
    let mut seen = vec![b.delay_ms()];
    for _ in 0..6 {
        b.failed();
        seen.push(b.delay_ms());
    }
    assert_eq!(seen, [250, 500, 1000, 2000, 4000, 5000, 5000]);
    b.connected();
    assert_eq!(b.delay_ms(), 250);

    let mut slept = 0;
    let mut chunks = vec![];
    while let Some(c) = sleep_chunk(250, slept) {
        chunks.push(c);
        slept += c;
    }
    assert_eq!(chunks, [100, 100, 50]);
}
