use btelem::btlm::{read_btlm, INDEX_MAGIC, VERSION};
use btelem::capture::{extract_meta, Capture, CaptureError, IoKind};
use btelem::clock::{suggested_filename, suggested_filename_with, utc_components};

/// Build a minimal valid packet with `entries` (id, ts, payload).
fn build_packet(entries: &[(u16, u64, &[u8])]) -> Vec<u8> {
    let mut out = Vec::new();
    let entry_count = entries.len() as u16;
    let payload_size: u32 = entries.iter().map(|(_, _, p)| p.len() as u32).sum();
    out.extend_from_slice(&entry_count.to_le_bytes());
    out.extend_from_slice(&0u16.to_le_bytes());
    out.extend_from_slice(&payload_size.to_le_bytes());
    out.extend_from_slice(&0u32.to_le_bytes());
    out.extend_from_slice(&0u32.to_le_bytes());
    let mut payload_off: u32 = 0;
    for (id, ts, p) in entries {
        out.extend_from_slice(&id.to_le_bytes());
        out.extend_from_slice(&(p.len() as u16).to_le_bytes());
        out.extend_from_slice(&payload_off.to_le_bytes());
        out.extend_from_slice(&ts.to_le_bytes());
        payload_off += p.len() as u32;
    }
    for (_, _, p) in entries {
        out.extend_from_slice(p);
    }
    out
}

#[test]
fn push_extracts_ts_range_and_counts() {
    let mut cap = Capture::default();
    cap.set_schema(b"DUMMYSCHEMA".to_vec());
    cap.push_packet(build_packet(&[(1, 100, &[0u8; 4]), (1, 200, &[0u8; 4])])).unwrap();
    cap.push_packet(build_packet(&[(2, 50, &[0u8; 8])])).unwrap();
    let s = cap.stats();
    assert_eq!(s.packets, 2);
    assert_eq!(s.packets_total, 2);
    assert_eq!(s.packets_dropped, 0);
    assert_eq!(s.ts_min, Some(50));
    assert_eq!(s.ts_max, Some(200));
    assert!(s.has_schema);
}

#[test]
fn ring_drops_oldest_at_cap() {
    let mut cap = Capture::with_capacity(128);
    cap.set_schema(b"S".to_vec());
    for i in 0..32u64 {
        cap.push_packet(build_packet(&[(1, i, &[0u8; 16])])).unwrap();
    }
    let s = cap.stats();
    assert!(s.bytes <= 128, "bytes={} > cap=128", s.bytes);
    assert_eq!(s.packets_total, 32);
    assert!(s.packets_dropped > 0);
    assert!(s.ts_min.unwrap() > 0);
}

#[test]
fn clear_resets_everything() {
    let mut cap = Capture::default();
    cap.set_schema(b"S".to_vec());
    cap.push_packet(build_packet(&[(1, 1, &[0u8; 4])])).unwrap();
    cap.clear();
    let s = cap.stats();
    assert_eq!(s.packets, 0);
    assert_eq!(s.bytes, 0);
    assert!(!s.has_schema);
    assert_eq!(cap.schema(), None);
}

#[test]
fn save_btlm_round_trip() {
    let mut cap = Capture::default();
    let schema_blob: Vec<u8> = (0..37).collect();
    cap.set_schema(schema_blob.clone());
    let p1 = build_packet(&[(1, 100, &[0xAA, 0xBB, 0xCC, 0xDD])]);
    let p2 = build_packet(&[(2, 200, b"hello!!!"), (3, 250, &[0u8; 2])]);
    cap.push_packet(p1.clone()).unwrap();
    cap.push_packet(p2.clone()).unwrap();

    let (bytes, r) = cap.save_btlm().unwrap();
    assert_eq!(r.packets, 2);
    assert_eq!(r.schema_bytes, 37);
    assert!(r.bytes > 10 + 37 + p1.len() as u64 + p2.len() as u64);
    assert_eq!(r.bytes, bytes.len() as u64);

    assert_eq!(&bytes[0..4], b"BTLM");
    let ver = u16::from_le_bytes([bytes[4], bytes[5]]);
    assert_eq!(ver, VERSION);
    let slen = u32::from_le_bytes(bytes[6..10].try_into().unwrap()) as usize;
    assert_eq!(slen, 37);
    assert_eq!(&bytes[10..10 + slen], schema_blob.as_slice());
    let mut off = 10 + slen;
    assert_eq!(&bytes[off..off + p1.len()], p1.as_slice());
    off += p1.len();
    assert_eq!(&bytes[off..off + p2.len()], p2.as_slice());

    let n = bytes.len();
    let footer_magic = u32::from_le_bytes(bytes[n - 4..n].try_into().unwrap());
    assert_eq!(footer_magic, INDEX_MAGIC);
    let count = u32::from_le_bytes(bytes[n - 8..n - 4].try_into().unwrap()) as usize;
    assert_eq!(count, 2);
    let index_off = u64::from_le_bytes(bytes[n - 16..n - 8].try_into().unwrap()) as usize;
    assert_eq!(index_off, n - 16 - 28 * 2);

    let ie_off = u64::from_le_bytes(bytes[index_off..index_off + 8].try_into().unwrap());
    assert_eq!(ie_off as usize, 10 + slen);
    let ie_tsmin = u64::from_le_bytes(bytes[index_off + 8..index_off + 16].try_into().unwrap());
    assert_eq!(ie_tsmin, 100);
}

#[test]
fn save_with_no_schema_errors() {
    let cap = Capture::default();
    match cap.save_btlm() {
        Err(CaptureError::NoSchema) => {}
        other => panic!("expected NoSchema, got {other:?}"),
    }
}

#[test]
fn set_schema_reports_diff() {
    let mut cap = Capture::default();
    assert!(!cap.set_schema(b"A".to_vec()));
    assert!(!cap.set_schema(b"A".to_vec()));
    assert!(cap.set_schema(b"B".to_vec()));
}

#[test]
fn read_btlm_round_trips_save_btlm() {
    let mut cap = Capture::default();
    let schema_blob = vec![0xAAu8; 40];
    cap.set_schema(schema_blob.clone());
    let p1 = build_packet(&[(1, 100, &[1u8; 4])]);
    let p2 = build_packet(&[(2, 200, b"hello!!!"), (3, 250, &[0u8; 2])]);
    cap.push_packet(p1.clone()).unwrap();
    cap.push_packet(p2.clone()).unwrap();
    let (file, _) = cap.save_btlm().unwrap();

    let loaded = read_btlm(&file).unwrap();
    assert_eq!(loaded.schema, schema_blob);
    assert_eq!(loaded.packets.len(), 2);
    assert_eq!(loaded.packets[0], p1);
    assert_eq!(loaded.packets[1], p2);
}

#[test]
fn read_btlm_rejects_bad_magic() {
    match read_btlm(b"NOPE\x01\x00\x00\x00\x00\x00") {
        Err(CaptureError::BadMagic) => {}
        other => panic!("expected BadMagic, got {other:?}"),
    }
}

#[test]
fn other_broken_files_are_named() {
    let mut cap = Capture::default();
    cap.set_schema(vec![7; 5]);
    cap.push_packet(build_packet(&[(1, 100, &[1u8; 4])])).unwrap();
    let (file, _) = cap.save_btlm().unwrap();

    let mut other = file.clone();
    other[4] = 9;
    assert_eq!(read_btlm(&other).err(), Some(CaptureError::UnsupportedVersion(9)));
    assert_eq!(read_btlm(b"BT").err(), Some(CaptureError::Io(IoKind::UnexpectedEof)));
    let mut cut = file.clone();
    cut.pop();
    assert!(read_btlm(&cut).is_err());
    let mut magic = file.clone();
    let n = magic.len();
    magic[n - 1] ^= 0xff;
    assert!(read_btlm(&magic).is_err());
}

#[test]
fn short_packets_are_refused() {
    let mut cap = Capture::default();
    assert_eq!(cap.push_packet(vec![0; 15]), Err(CaptureError::BadPacket(15)));
    let mut one = build_packet(&[(1, 5, &[])]);
    one.truncate(20);
    assert_eq!(cap.push_packet(one.clone()), Err(CaptureError::BadPacket(20)));
    assert_eq!(extract_meta(&one).err(), Some(CaptureError::BadPacket(20)));
    cap.offer(one);
    assert!(!cap.has_data());
    cap.offer(build_packet(&[(1, 5, &[])]));
    assert!(cap.has_data());
}

#[test]
fn ring_keeps_the_newest() {
    let size = build_packet(&[(1, 0, &[0u8; 16])]).len();
    let mut cap = Capture::with_capacity(size * 3 + 1);
    for i in 0..10u64 {
        cap.push_packet(build_packet(&[(1, i, &[0u8; 16])])).unwrap();
    }
    let s = cap.stats();
    assert_eq!((s.packets, s.packets_dropped), (3, 7));
    assert_eq!((s.ts_min, s.ts_max), (Some(7), Some(9)));
}

#[test]
fn clock_starts_once() {
    let mut cap = Capture::default();
    assert_eq!(cap.age(500), 0);
    cap.start_clock(100);
    cap.start_clock(300);
    assert_eq!(cap.age(500), 400);
    assert_eq!(cap.age(50), 0);
}

#[test]
fn dates_and_file_names() {
    let t = utc_components(0);
    assert_eq!((t.year, t.month, t.day, t.hour, t.minute, t.second), (1970, 1, 1, 0, 0, 0));
    let t = utc_components(951_827_696);
    assert_eq!((t.year, t.month, t.day, t.hour, t.minute, t.second), (2000, 2, 29, 12, 34, 56));
    assert_eq!(suggested_filename(951_827_696), suggested_filename_with("btelem", None, 951_827_696));
    assert_eq!(suggested_filename(951_827_696), "btelem-20000229-123456.btlm");
    assert_eq!(
        suggested_filename_with("run", Some("_a"), 951_827_696),
        "run-20000229-123456_a.btlm"
    );
}

#[test]
fn empty_schemas_do_not_differ() {
    let mut cap = Capture::default();
    assert!(!cap.set_schema(Vec::new()));
    assert!(!cap.set_schema(b"A".to_vec()));
    assert!(cap.set_schema(Vec::new()));
}
