use wpilog_reader::error::{DecodeError, DecodeFailure};
use wpilog_reader::parser::{
    parse_control_record, parse_finish_record, parse_set_metadata_record, parse_start_record,
    parse_string_with_len, parse_u32, parse_u64, parse_wpilog, parse_wpilog_located,
    parse_wpilog_record, parse_wpilog_records, parse_wpilog_records_located,
};
use wpilog_reader::types::{ControlRecord, Record};

fn put_text(out: &mut Vec<u8>, s: &str) {
    out.extend_from_slice(&(s.len() as u32).to_le_bytes());
    out.extend_from_slice(s.as_bytes());
}

fn log_header(extra: &str) -> Vec<u8> {
    let mut out = b"WPILOG".to_vec();
    out.push(0);
    out.push(1);
    put_text(&mut out, extra);
    out
}

/// Writes a record with the widths that `header` selects.
fn put_record(out: &mut Vec<u8>, header: u8, entry_id: u32, timestamp: u64, payload: &[u8]) {
    let id_width = (header & 3) as usize + 1;
    let size_width = ((header >> 2) & 3) as usize + 1;
    let time_width = ((header >> 4) & 7) as usize + 1;
    out.push(header);
    out.extend_from_slice(&entry_id.to_le_bytes()[..id_width]);
    out.extend_from_slice(&(payload.len() as u32).to_le_bytes()[..size_width]);
    out.extend_from_slice(&timestamp.to_le_bytes()[..time_width]);
    out.extend_from_slice(payload);
}

fn start_body(entry_id: u32, name: &str, typ: &str, metadata: &str) -> Vec<u8> {
    let mut p = vec![0u8];
    p.extend_from_slice(&entry_id.to_le_bytes());
    put_text(&mut p, name);
    put_text(&mut p, typ);
    put_text(&mut p, metadata);
    p
}

fn finish_body(entry_id: u32) -> Vec<u8> {
    let mut p = vec![1u8];
    p.extend_from_slice(&entry_id.to_le_bytes());
    p
}

fn set_metadata_body(entry_id: u32, metadata: &str) -> Vec<u8> {
    let mut p = vec![2u8];
    p.extend_from_slice(&entry_id.to_le_bytes());
    put_text(&mut p, metadata);
    p
}

#[test]
fn varint_reads_little_endian() {
    let bytes = [0x01u8, 0x02, 0x03, 0x04, 0x05, 0x06, 0x07, 0x08, 0x09];
    let (rest, v) = parse_u32(&bytes, 0).unwrap();
    assert_eq!(v, 0x01);
    assert_eq!(rest, &bytes[1..]);
    let (rest, v) = parse_u32(&bytes, 1).unwrap();
    assert_eq!(v, 0x0201);
    assert_eq!(rest, &bytes[2..]);
    let (rest, v) = parse_u32(&bytes, 3).unwrap();
    assert_eq!(v, 0x04030201);
    assert_eq!(rest, &bytes[4..]);
    let (rest, v) = parse_u64(&bytes, 7).unwrap();
    assert_eq!(v, 0x0807060504030201);
    assert_eq!(rest, &bytes[8..]);
    let (rest, v) = parse_u64(&bytes, 2).unwrap();
    assert_eq!(v, 0x030201);
    assert_eq!(rest, &bytes[3..]);
}

#[test]
fn varint_has_no_sign_extension() {
    let bytes = [0xffu8, 0xff, 0xff, 0xff, 0xff, 0xff, 0xff, 0xff];
    assert_eq!(parse_u32(&bytes, 0).unwrap().1, 0xff);
    assert_eq!(parse_u32(&bytes, 3).unwrap().1, u32::MAX);
    assert_eq!(parse_u64(&bytes, 0).unwrap().1, 0xff);
    assert_eq!(parse_u64(&bytes, 7).unwrap().1, u64::MAX);
}

#[test]
fn varint_truncated() {
    let bytes = [0x01u8, 0x02];
    assert_eq!(parse_u32(&bytes, 2).unwrap_err(), DecodeError::TruncatedInput);
    assert_eq!(parse_u64(&bytes, 7).unwrap_err(), DecodeError::TruncatedInput);
    assert_eq!(parse_u32(&[], 0).unwrap_err(), DecodeError::TruncatedInput);
    assert!(parse_u32(&bytes, 1).is_ok());
}

#[test]
fn length_prefixed_text() {
    let mut bytes = Vec::new();
    put_text(&mut bytes, "héllo");
    bytes.push(0x42);
    let (rest, s) = parse_string_with_len(&bytes).unwrap();
    assert_eq!(s, "héllo");
    assert_eq!(rest, &[0x42]);
    assert_eq!(parse_string_with_len(&bytes[..3]).unwrap_err(), DecodeError::TruncatedInput);
    assert_eq!(parse_string_with_len(&bytes[..6]).unwrap_err(), DecodeError::TruncatedInput);
    let bad = [1u8, 0, 0, 0, 0xff];
    assert_eq!(parse_string_with_len(&bad).unwrap_err(), DecodeError::InvalidUtf8);
    let empty = [0u8, 0, 0, 0];
    let (rest, s) = parse_string_with_len(&empty).unwrap();
    assert_eq!(s, "");
    assert!(rest.is_empty());
}

#[test]
fn decodes_a_small_log() {
    let mut bytes = log_header("hello");
    put_record(&mut bytes, 0x7f, 0, 10, &start_body(1, "speed", "int64", "{}"));
    put_record(&mut bytes, 0x7f, 1, 20, &7i64.to_le_bytes());
    put_record(&mut bytes, 0x7f, 0, 30, &set_metadata_body(1, "{\"unit\":\"m\"}"));
    put_record(&mut bytes, 0x7f, 0, 40, &finish_body(1));
    let (rest, log) = parse_wpilog(&bytes).unwrap();
    assert!(rest.is_empty());
    assert_eq!(log.major_version, 1);
    assert_eq!(log.minor_version, 0);
    assert_eq!(log.extra_header, "hello");
    assert_eq!(log.records.len(), 4);
    assert_eq!(log.records[0].entry_id, 0);
    assert_eq!(log.records[0].timestamp_us, 10);
    match log.records[0].data {
        Record::Control(ControlRecord::Start(s)) => {
            assert_eq!(s.entry_id, 1);
            assert_eq!(s.name, "speed");
            assert_eq!(s.typ, "int64");
            assert_eq!(s.metadata, "{}");
        }
        _ => panic!("expected a start record"),
    }
    assert_eq!(log.records[1].entry_id, 1);
    assert_eq!(log.records[1].timestamp_us, 20);
    match log.records[1].data {
        Record::Data(d) => assert_eq!(d.data, &7i64.to_le_bytes()),
        _ => panic!("expected a data record"),
    }
    match log.records[2].data {
        Record::Control(ControlRecord::SetMetadata(m)) => {
            assert_eq!(m.entry_id, 1);
            assert_eq!(m.metadata, "{\"unit\":\"m\"}");
        }
        _ => panic!("expected a set-metadata record"),
    }
    match log.records[3].data {
        Record::Control(ControlRecord::Finish(f)) => assert_eq!(f.entry_id, 1),
        _ => panic!("expected a finish record"),
    }
}

#[test]
fn empty_log_has_no_records() {
    let bytes = log_header("");
    let (rest, log) = parse_wpilog(&bytes).unwrap();
    assert!(rest.is_empty());
    assert_eq!(log.extra_header, "");
    assert!(log.records.is_empty());
}

#[test]
fn narrow_header_widths() {
    // selectors: entry id 1 byte, payload length 1 byte, timestamp 2 bytes
    let bytes = [0x10u8, 0x05, 0x02, 0x34, 0x12, 0xaa, 0xbb, 0xcc];
    let (rest, rec) = parse_wpilog_record(&bytes).unwrap();
    assert_eq!(rec.entry_id, 5);
    assert_eq!(rec.timestamp_us, 0x1234);
    match rec.data {
        Record::Data(d) => assert_eq!(d.data, &[0xaa, 0xbb]),
        _ => panic!("expected a data record"),
    }
    assert_eq!(rest, &[0xcc]);
}

#[test]
fn header_byte_selects_field_widths() {
    // For every header byte a record with an empty payload takes exactly
    // 1 + id width + size width + timestamp width bytes.
    for header in 0u16..=255 {
        let header = header as u8;
        let id_width = (header & 3) as usize + 1;
        let size_width = ((header >> 2) & 3) as usize + 1;
        let time_width = ((header >> 4) & 7) as usize + 1;
        assert!((1..=4).contains(&id_width));
        assert!((1..=4).contains(&size_width));
        assert!((1..=8).contains(&time_width));
        let mut bytes = vec![header];
        bytes.push(9);
        bytes.extend(std::iter::repeat(0).take(id_width - 1));
        bytes.extend(std::iter::repeat(0).take(size_width));
        bytes.extend(std::iter::repeat(0x01).take(time_width));
        let total = bytes.len();
        assert_eq!(total, 1 + id_width + size_width + time_width);
        bytes.extend_from_slice(&[0xee, 0xee]);
        let (rest, rec) = parse_wpilog_record(&bytes).unwrap();
        assert_eq!(rest.len(), 2);
        assert_eq!(rec.entry_id, 9);
        let mut expected: u64 = 0;
        for k in 0..time_width {
            expected |= 1u64 << (8 * k);
        }
        assert_eq!(rec.timestamp_us, expected);
        assert_eq!(parse_wpilog_record(&bytes[..total - 1]).unwrap_err(), DecodeError::TruncatedInput);
    }
}

#[test]
fn unused_header_bit_is_ignored() {
    let a = [0x00u8, 0x05, 0x00, 0x07];
    let b = [0x80u8, 0x05, 0x00, 0x07];
    let (_, ra) = parse_wpilog_record(&a).unwrap();
    let (_, rb) = parse_wpilog_record(&b).unwrap();
    assert_eq!(ra.entry_id, rb.entry_id);
    assert_eq!(ra.timestamp_us, rb.timestamp_us);
    assert_eq!(ra.timestamp_us, 7);
}

#[test]
fn round_trip_keeps_every_record() {
    let payloads: Vec<Vec<u8>> = vec![vec![], vec![1], vec![0; 300], (0u8..200).collect()];
    let headers = [0x7fu8, 0x00, 0x15, 0x2a, 0x4f, 0xff, 0x35];
    let mut expected: Vec<(u32, u64, Vec<u8>, bool)> = Vec::new();
    let mut bytes = log_header("round trip");
    let mut n: u64 = 0;
    for h in headers {
        for p in &payloads {
            let id_width = (h & 3) as u32 + 1;
            let size_width = ((h >> 2) & 3) as u32 + 1;
            let time_width = ((h >> 4) & 7) as u32 + 1;
            if (p.len() as u64) >= 1u64 << (8 * size_width) {
                continue;
            }
            n += 1;
            let entry_id = if id_width == 4 { 0xdead_beef } else { (1u32 << (8 * id_width)) - 1 };
            let timestamp = if time_width == 8 { u64::MAX - n } else { (1u64 << (8 * time_width)) - 1 };
            put_record(&mut bytes, h, entry_id, timestamp, p);
            expected.push((entry_id, timestamp, p.clone(), false));
        }
        let body = start_body(n as u32, "name", "double", "meta");
        if (body.len() as u64) < 1u64 << (8 * (((h >> 2) & 3) as u32 + 1)) {
            put_record(&mut bytes, h, 0, n, &body);
            expected.push((0, n, body, true));
        }
    }
    let (rest, log) = parse_wpilog(&bytes).unwrap();
    assert!(rest.is_empty());
    assert_eq!(log.records.len(), expected.len());
    for (rec, (entry_id, timestamp, payload, control)) in log.records.iter().zip(expected.iter()) {
        assert_eq!(rec.entry_id, *entry_id);
        assert_eq!(rec.timestamp_us, *timestamp);
        match rec.data {
            Record::Data(d) => {
                assert!(!control);
                assert_eq!(d.data, &payload[..]);
            }
            Record::Control(ControlRecord::Start(s)) => {
                assert!(control);
                assert_eq!(s.name, "name");
                assert_eq!(s.typ, "double");
                assert_eq!(s.metadata, "meta");
            }
            _ => panic!("unexpected record"),
        }
    }
}

#[test]
fn bad_magic() {
    let mut bytes = log_header("");
    bytes[0] = b'X';
    assert_eq!(parse_wpilog(&bytes).unwrap_err(), DecodeError::BadMagic);
    assert_eq!(parse_wpilog(b"WPIL").unwrap_err(), DecodeError::BadMagic);
    assert_eq!(parse_wpilog(&[]).unwrap_err(), DecodeError::BadMagic);
}

#[test]
fn unsupported_version() {
    let mut bytes = log_header("x");
    bytes[6] = 1;
    assert_eq!(parse_wpilog(&bytes).unwrap_err(), DecodeError::UnsupportedVersion);
    let mut bytes = log_header("x");
    bytes[7] = 2;
    assert_eq!(parse_wpilog(&bytes).unwrap_err(), DecodeError::UnsupportedVersion);
}

#[test]
fn truncated_header() {
    let bytes = log_header("abc");
    assert_eq!(parse_wpilog(&bytes[..6]).unwrap_err(), DecodeError::TruncatedInput);
    assert_eq!(parse_wpilog(&bytes[..7]).unwrap_err(), DecodeError::TruncatedInput);
    assert_eq!(parse_wpilog(&bytes[..10]).unwrap_err(), DecodeError::TruncatedInput);
    assert_eq!(parse_wpilog(&bytes[..bytes.len() - 1]).unwrap_err(), DecodeError::TruncatedInput);
}

#[test]
fn header_text_must_be_utf8() {
    let mut bytes = b"WPILOG".to_vec();
    bytes.extend_from_slice(&[0, 1, 1, 0, 0, 0, 0xff]);
    assert_eq!(parse_wpilog(&bytes).unwrap_err(), DecodeError::InvalidUtf8);
}

#[test]
fn trailing_bytes_after_the_last_record() {
    let mut bytes = log_header("");
    put_record(&mut bytes, 0x7f, 3, 1, &[1, 2, 3]);
    bytes.push(0x00);
    assert_eq!(parse_wpilog(&bytes).unwrap_err(), DecodeError::TrailingData);
    let mut bytes = log_header("");
    put_record(&mut bytes, 0x7f, 3, 1, &[1, 2, 3]);
    let cut = bytes.len() - 1;
    assert_eq!(parse_wpilog(&bytes[..cut]).unwrap_err(), DecodeError::TrailingData);
}

#[test]
fn unknown_control_tag() {
    let mut bytes = log_header("");
    put_record(&mut bytes, 0x7f, 0, 1, &[3, 0, 0, 0, 0]);
    assert_eq!(parse_wpilog(&bytes).unwrap_err(), DecodeError::UnknownControlTag);
    assert_eq!(parse_control_record(&[9]).unwrap_err(), DecodeError::UnknownControlTag);
    assert_eq!(parse_control_record(&[]).unwrap_err(), DecodeError::TruncatedInput);
}

#[test]
fn control_payload_must_be_used_up() {
    let mut body = finish_body(4);
    body.push(0);
    let mut bytes = Vec::new();
    put_record(&mut bytes, 0x7f, 0, 1, &body);
    assert_eq!(parse_wpilog_record(&bytes).unwrap_err(), DecodeError::TrailingData);
    let mut log = log_header("");
    log.extend_from_slice(&bytes);
    assert_eq!(parse_wpilog(&log).unwrap_err(), DecodeError::TrailingData);
}

#[test]
fn control_bodies() {
    let body = start_body(0x01020304, "a", "b", "c");
    match parse_start_record(&body[1..]).unwrap() {
        (rest, ControlRecord::Start(s)) => {
            assert!(rest.is_empty());
            assert_eq!(s.entry_id, 0x01020304);
            assert_eq!((s.name, s.typ, s.metadata), ("a", "b", "c"));
        }
        _ => panic!("expected a start record"),
    }
    let body = finish_body(77);
    match parse_finish_record(&body[1..]).unwrap() {
        (rest, ControlRecord::Finish(f)) => {
            assert!(rest.is_empty());
            assert_eq!(f.entry_id, 77);
        }
        _ => panic!("expected a finish record"),
    }
    let body = set_metadata_body(78, "m");
    match parse_set_metadata_record(&body[1..]).unwrap() {
        (rest, ControlRecord::SetMetadata(m)) => {
            assert!(rest.is_empty());
            assert_eq!(m.entry_id, 78);
            assert_eq!(m.metadata, "m");
        }
        _ => panic!("expected a set-metadata record"),
    }
    assert_eq!(parse_finish_record(&[1, 2, 3]).unwrap_err(), DecodeError::TruncatedInput);
    assert_eq!(parse_start_record(&start_body(1, "a", "b", "c")[1..8]).unwrap_err(), DecodeError::TruncatedInput);
}

#[test]
fn control_text_must_be_utf8() {
    let mut body = vec![2u8, 1, 0, 0, 0];
    body.extend_from_slice(&[2, 0, 0, 0, 0xc3, 0x28]);
    let mut bytes = log_header("");
    put_record(&mut bytes, 0x7f, 0, 1, &body);
    assert_eq!(parse_wpilog(&bytes).unwrap_err(), DecodeError::InvalidUtf8);
}

#[test]
fn record_list_alone() {
    let mut bytes = Vec::new();
    put_record(&mut bytes, 0x00, 1, 2, &[3]);
    put_record(&mut bytes, 0x00, 4, 5, &[]);
    let (rest, records) = parse_wpilog_records(&bytes).unwrap();
    assert!(rest.is_empty());
    assert_eq!(records.len(), 2);
    assert_eq!(records[1].entry_id, 4);
    assert_eq!(records[1].timestamp_us, 5);
    let (_, none) = parse_wpilog_records(&[]).unwrap();
    assert!(none.is_empty());
}

#[test]
fn payload_truncated() {
    let bytes = [0x00u8, 0x05, 0x03, 0x07, 0xaa, 0xbb];
    assert_eq!(parse_wpilog_record(&bytes).unwrap_err(), DecodeError::TruncatedInput);
}

fn failure(error: DecodeError, offset: usize) -> DecodeFailure {
    DecodeFailure { error, offset }
}

#[test]
fn failures_say_where_decoding_stopped() {
    let header = log_header("abc");
    assert_eq!(header.len(), 15);
    assert_eq!(parse_wpilog_located(b"NOPE").unwrap_err(), failure(DecodeError::BadMagic, 0));
    assert_eq!(parse_wpilog_located(&header[..7]).unwrap_err(), failure(DecodeError::TruncatedInput, 6));
    assert_eq!(parse_wpilog_located(&header[..6]).unwrap_err(), failure(DecodeError::TruncatedInput, 6));
    assert_eq!(parse_wpilog_located(&header[..13]).unwrap_err(), failure(DecodeError::TruncatedInput, 8));
    let mut version = header.clone();
    version[7] = 3;
    assert_eq!(parse_wpilog_located(&version).unwrap_err(), failure(DecodeError::UnsupportedVersion, 6));

    let mut bytes = header.clone();
    put_record(&mut bytes, 0x00, 1, 1, &[1, 2]);
    let second = bytes.len();
    put_record(&mut bytes, 0x7f, 2, 2, &[3]);
    let third = bytes.len();
    assert!(parse_wpilog_located(&bytes).is_ok());
    let mut unknown = bytes.clone();
    put_record(&mut unknown, 0x7f, 0, 3, &[7]);
    put_record(&mut unknown, 0x7f, 2, 4, &[3]);
    assert_eq!(parse_wpilog_located(&unknown).unwrap_err(), failure(DecodeError::UnknownControlTag, third));
    assert_eq!(
        parse_wpilog_located(&bytes[..third - 1]).unwrap_err(),
        failure(DecodeError::TrailingData, second)
    );
    assert_eq!(
        parse_wpilog_located(&bytes[..second + 1]).unwrap_err(),
        failure(DecodeError::TrailingData, second)
    );
    assert_eq!(
        parse_wpilog_records_located(&bytes[15..third - 1]).unwrap_err(),
        failure(DecodeError::TrailingData, second - 15)
    );
    let (rest, records) = parse_wpilog_records_located(&bytes[15..]).unwrap();
    assert!(rest.is_empty());
    assert_eq!(records.len(), 2);
}
