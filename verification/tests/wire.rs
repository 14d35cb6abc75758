//! Schema and packet blobs, built by hand in the byte layout of the wire.

use btelem::schema::{FieldType, Schema};
use btelem::wire::{
    decode_packet, WireError, BITFIELD_WIRE_SIZE, ENUM_WIRE_SIZE, FIELD_WIRE_SIZE, MAX_FIELDS,
    MAX_SCHEMA_ENTRIES, SCHEMA_HEADER_SIZE, SCHEMA_WIRE_HEADER_SIZE, SCHEMA_WIRE_SIZE,
};

fn write_cstr(buf: &mut [u8], s: &str) {
    let bytes = s.as_bytes();
    let n = bytes.len().min(buf.len() - 1);
    buf[..n].copy_from_slice(&bytes[..n]);
}

fn build_schema_blob() -> Vec<u8> {
    let mut buf = Vec::new();
    buf.push(0); // little
    buf.extend_from_slice(&1u16.to_le_bytes()); // entry_count

    let mut entry = vec![0u8; SCHEMA_WIRE_SIZE];
    entry[0..2].copy_from_slice(&0u16.to_le_bytes());
    entry[2..4].copy_from_slice(&32u16.to_le_bytes());
    entry[4..6].copy_from_slice(&8u16.to_le_bytes());
    write_cstr(&mut entry[6..6 + 64], "counters");
    write_cstr(
        &mut entry[6 + 64..6 + 64 + 128],
        "Staggered uint32 counters",
    );

    let fpos = SCHEMA_WIRE_HEADER_SIZE;
    for i in 0..8u16 {
        let off = fpos + i as usize * FIELD_WIRE_SIZE;
        let name = format!("c{i}");
        write_cstr(&mut entry[off..off + 64], &name);
        entry[off + 64..off + 66].copy_from_slice(&(i * 4).to_le_bytes());
        entry[off + 66..off + 68].copy_from_slice(&4u16.to_le_bytes());
        entry[off + 68] = FieldType::U32 as u8;
        entry[off + 69] = 1;
    }
    buf.extend_from_slice(&entry);

    // enum section
    buf.extend_from_slice(&1u16.to_le_bytes());
    let mut e = vec![0u8; ENUM_WIRE_SIZE];
    e[0..2].copy_from_slice(&99u16.to_le_bytes());
    e[2..4].copy_from_slice(&0u16.to_le_bytes());
    e[4] = 3;
    let labels = ["idle", "run", "fault"];
    for (i, l) in labels.iter().enumerate() {
        let off = 5 + i * 32;
        write_cstr(&mut e[off..off + 32], l);
    }
    buf.extend_from_slice(&e);

    // bitfield section
    buf.extend_from_slice(&1u16.to_le_bytes());
    let mut b = vec![0u8; BITFIELD_WIRE_SIZE];
    b[0..2].copy_from_slice(&42u16.to_le_bytes());
    b[2..4].copy_from_slice(&0u16.to_le_bytes());
    b[4] = 2;
    let names_pos = 5usize;
    let starts_pos = names_pos + 32 * 32;
    let widths_pos = starts_pos + 32;
    write_cstr(&mut b[names_pos..names_pos + 32], "fault_a");
    write_cstr(&mut b[names_pos + 32..names_pos + 64], "fault_b");
    b[starts_pos] = 0;
    b[starts_pos + 1] = 1;
    b[widths_pos] = 1;
    b[widths_pos + 1] = 1;
    buf.extend_from_slice(&b);

    buf
}

#[test]
fn schema_round_trip_full() {
    let blob = build_schema_blob();
    let s = Schema::decode(&blob).expect("decode");

    assert_eq!(s.entries.len(), 1);
    let e = &s.entries[0];
    assert_eq!(e.id, 0);
    assert_eq!(e.name, "counters");
    assert_eq!(e.payload_size, 32);
    assert_eq!(e.fields.len(), 8);
    for (i, f) in e.fields.iter().enumerate() {
        assert_eq!(f.name, format!("c{i}"));
        assert_eq!(f.offset, (i as u16) * 4);
        assert_eq!(f.size, 4);
        assert_eq!(f.ty, FieldType::U32);
        assert_eq!(f.count, 1);
    }

    let labels = s.enum_labels(99, 0).expect("enum");
    assert_eq!(labels, &["idle", "run", "fault"]);

    let bf = s.bitfield(42, 0).expect("bitfield");
    assert_eq!(bf.bits.len(), 2);
    assert_eq!(bf.bits[0].name, "fault_a");
    assert_eq!(bf.bits[1].start, 1);
}

#[test]
fn schema_decode_rejects_bad_endian() {
    let mut blob = build_schema_blob();
    blob[0] = 1;
    assert!(Schema::decode(&blob).is_err());
}

#[test]
fn schema_decode_rejects_short() {
    assert!(Schema::decode(&[]).is_err());
    assert!(Schema::decode(&[0u8; SCHEMA_HEADER_SIZE - 1]).is_err());
}

fn build_packet() -> Vec<u8> {
    let entry_count = 2u16;
    let payload_size = 8u32;
    let mut buf = Vec::new();
    buf.extend_from_slice(&entry_count.to_le_bytes());
    buf.extend_from_slice(&0u16.to_le_bytes());
    buf.extend_from_slice(&payload_size.to_le_bytes());
    buf.extend_from_slice(&7u32.to_le_bytes());
    buf.extend_from_slice(&0u32.to_le_bytes());

    let entries = [
        (0u16, 0u32, 1_000u64, 0xdeadbeefu32),
        (0, 4, 2_000, 0xcafebabe),
    ];
    for (id, poff, ts, _) in entries {
        buf.extend_from_slice(&id.to_le_bytes());
        buf.extend_from_slice(&4u16.to_le_bytes());
        buf.extend_from_slice(&poff.to_le_bytes());
        buf.extend_from_slice(&ts.to_le_bytes());
    }
    for (_, _, _, v) in entries {
        buf.extend_from_slice(&v.to_le_bytes());
    }
    buf
}

#[test]
fn packet_round_trip() {
    let buf = build_packet();
    let pkt = decode_packet(&buf).expect("decode");
    assert_eq!(pkt.header.entry_count, 2);
    assert_eq!(pkt.header.dropped, 7);
    assert_eq!(pkt.entries.len(), 2);
    assert_eq!(pkt.entries[0].id, 0);
    assert_eq!(pkt.entries[0].timestamp, 1_000);
    assert_eq!(pkt.entries[0].payload, 0xdeadbeefu32.to_le_bytes());
    assert_eq!(pkt.entries[1].timestamp, 2_000);
    assert_eq!(pkt.entries[1].payload, 0xcafebabeu32.to_le_bytes());
}

#[test]
fn packet_oob_payload_rejected() {
    let mut buf = build_packet();
    let off = 16 + 16 + 4;
    buf[off..off + 4].copy_from_slice(&999u32.to_le_bytes());
    assert!(decode_packet(&buf).is_err());
}

#[test]
fn packet_short_buffer_does_not_panic() {
    let buf = build_packet();
    for n in 0..buf.len() {
        let _ = decode_packet(&buf[..n]);
    }
}

/// Bytes that look random.
fn noise(seed: u64, len: usize) -> Vec<u8> {
    let mut x = seed.wrapping_mul(0x9e37_79b9_7f4a_7c15) | 1;
    let mut out = Vec::new();
    for _ in 0..len {
        x ^= x << 13;
        x ^= x >> 7;
        x ^= x << 17;
        out.push((x >> 32) as u8);
    }
    out
}

#[test]
fn schema_decode_does_not_panic() {
    for n in 0..2_000u64 {
        let mut data = noise(n, (n % 97) as usize);
        if n % 2 == 0 && !data.is_empty() {
            data[0] = 0;
        }
        let _ = Schema::decode(&data);
    }
    let mut blob = build_schema_blob();
    for n in 0..2_000u64 {
        let at = (n as usize * 7919) % blob.len();
        let was = blob[at];
        blob[at] = noise(n, 1)[0];
        let _ = Schema::decode(&blob);
        blob[at] = was;
    }
}

#[test]
fn packet_decode_does_not_panic() {
    for n in 0..2_000u64 {
        let data = noise(n, (n % 131) as usize);
        let _ = decode_packet(&data);
    }
    let buf = build_packet();
    for n in 0..2_000u64 {
        let mut data = buf.clone();
        data[(n as usize * 7919) % buf.len()] = noise(n, 1)[0];
        let _ = decode_packet(&data);
    }
}

#[test]
fn short_buffers_say_what_is_needed() {
    assert_eq!(decode_packet(&[0; 3]).err(), Some(WireError::Short { need: 16, got: 3 }));
    let buf = build_packet();
    assert_eq!(
        decode_packet(&buf[..40]).err(),
        Some(WireError::Short { need: 48, got: 40 })
    );
    assert_eq!(
        decode_packet(&buf[..50]).err(),
        Some(WireError::Short { need: 56, got: 50 })
    );
    assert_eq!(Schema::decode(&[]).err(), Some(WireError::Short { need: 1, got: 0 }));
}

#[test]
fn payload_out_of_bounds_is_named() {
    let mut buf = build_packet();
    let off = 16 + 16 + 4;
    buf[off..off + 4].copy_from_slice(&999u32.to_le_bytes());
    assert_eq!(
        decode_packet(&buf).err(),
        Some(WireError::PayloadOob { offset: 999, size: 4, buf: 8 })
    );
}

#[test]
fn schema_errors_are_named() {
    let mut blob = build_schema_blob();
    blob[0] = 1;
    assert_eq!(Schema::decode(&blob).err(), Some(WireError::BadEndian(1)));

    let mut blob = build_schema_blob();
    let many = MAX_SCHEMA_ENTRIES as u16 + 1;
    blob[1..3].copy_from_slice(&many.to_le_bytes());
    assert_eq!(Schema::decode(&blob).err(), Some(WireError::TooManyEntries(many)));

    let mut blob = build_schema_blob();
    let fields = MAX_FIELDS as u16 + 1;
    blob[SCHEMA_HEADER_SIZE + 4..SCHEMA_HEADER_SIZE + 6].copy_from_slice(&fields.to_le_bytes());
    assert_eq!(Schema::decode(&blob).err(), Some(WireError::TooManyFields(fields)));

    let mut blob = build_schema_blob();
    blob[SCHEMA_HEADER_SIZE + 6] = 0xff;
    assert_eq!(Schema::decode(&blob).err(), Some(WireError::BadName));

    let mut blob = build_schema_blob();
    blob[SCHEMA_HEADER_SIZE + SCHEMA_WIRE_HEADER_SIZE + 68] = 200;
    assert_eq!(Schema::decode(&blob).err(), Some(WireError::UnknownType(200)));
}

#[test]
fn sections_after_the_entries_may_be_missing() {
    let blob = build_schema_blob();
    let s = Schema::decode(&blob[..SCHEMA_HEADER_SIZE + SCHEMA_WIRE_SIZE]).expect("decode");
    assert_eq!(s.entries.len(), 1);
    assert!(s.enums.is_empty());
    assert!(s.bitfields.is_empty());
    assert!(s.enum_labels(99, 0).is_none());
    assert!(s.bitfield(42, 0).is_none());
    assert_eq!(s.entry(0).map(|e| e.name.as_str()), Some("counters"));
    assert!(s.entry(1).is_none());
}
