use wpilog_reader::error::DecodeError;
use wpilog_reader::types::{
    decimal_text, ControlRecord, DataRecord, FinishRecord, MetadataEntry, Record,
    SetMetadataRecord, StartRecord, ValueKind, WpiLog, WpiRecord,
};

fn start<'a>(ts: u64, id: u32, name: &'a str, typ: &'a str, metadata: &'a str) -> WpiRecord<'a> {
    WpiRecord {
        entry_id: 0,
        timestamp_us: ts,
        data: Record::Control(ControlRecord::Start(StartRecord { entry_id: id, name, typ, metadata })),
    }
}

fn finish<'a>(ts: u64, id: u32) -> WpiRecord<'a> {
    WpiRecord {
        entry_id: 0,
        timestamp_us: ts,
        data: Record::Control(ControlRecord::Finish(FinishRecord { entry_id: id })),
    }
}

fn set_metadata<'a>(ts: u64, id: u32, metadata: &'a str) -> WpiRecord<'a> {
    WpiRecord {
        entry_id: 0,
        timestamp_us: ts,
        data: Record::Control(ControlRecord::SetMetadata(SetMetadataRecord { entry_id: id, metadata })),
    }
}

fn sample<'a>(ts: u64, id: u32, data: &'a [u8]) -> WpiRecord<'a> {
    WpiRecord { entry_id: id, timestamp_us: ts, data: Record::Data(DataRecord { data }) }
}

fn log_of<'a>(records: Vec<WpiRecord<'a>>) -> WpiLog<'a> {
    WpiLog { major_version: 1, minor_version: 0, extra_header: "", records }
}

fn entry<'a>(name: &'a str, typ: &'a str, count: usize, shape: Option<(usize, usize)>) -> MetadataEntry<'a> {
    MetadataEntry {
        entry_id: 1,
        name,
        typ,
        kind: ValueKind::from_tag(typ),
        metadata: "",
        entry_count: count,
        all_same_length: shape,
        finished: false,
        start_time: 0,
        end_time: 0,
    }
}

#[test]
fn duplicate_start_is_an_error() {
    let log = log_of(vec![start(1, 5, "a", "int64", ""), start(2, 5, "a", "int64", "")]);
    assert_eq!(log.get_entry_metadata().unwrap_err(), DecodeError::DuplicateEntryId);
}

#[test]
fn duplicate_start_after_finish_is_still_an_error() {
    let log = log_of(vec![
        start(1, 5, "a", "int64", ""),
        start(1, 6, "b", "int64", ""),
        finish(2, 5),
        start(3, 5, "c", "double", ""),
        sample(4, 6, &[0; 8]),
    ]);
    assert_eq!(log.get_entry_metadata().unwrap_err(), DecodeError::DuplicateEntryId);
}

#[test]
fn array_shape_clears_on_first_mismatch() {
    let a = [0u8; 16];
    let b = [0u8; 24];
    let two = log_of(vec![start(0, 1, "xs", "int64[]", ""), sample(1, 1, &a), sample(2, 1, &a)]);
    let entries = two.get_entry_metadata().unwrap();
    assert_eq!(entries.len(), 1);
    assert_eq!(entries[0].all_same_length, Some((2, 8)));
    assert_eq!(entries[0].entry_count, 2);

    let three = log_of(vec![
        start(0, 1, "xs", "int64[]", ""),
        sample(1, 1, &a),
        sample(2, 1, &a),
        sample(3, 1, &b),
    ]);
    let entries = three.get_entry_metadata().unwrap();
    assert_eq!(entries[0].all_same_length, None);
    assert_eq!(entries[0].entry_count, 3);

    let back = log_of(vec![
        start(0, 1, "xs", "int64[]", ""),
        sample(1, 1, &a),
        sample(2, 1, &b),
        sample(3, 1, &a),
        sample(4, 1, &a),
    ]);
    let entries = back.get_entry_metadata().unwrap();
    assert_eq!(entries[0].all_same_length, None);
    assert_eq!(entries[0].entry_count, 4);
}

#[test]
fn shapes_by_type() {
    let data = [0u8; 16];
    let types = [
        ("boolean[]", Some((16, 1))),
        ("int64[]", Some((2, 8))),
        ("float[]", Some((4, 4))),
        ("double[]", Some((2, 8))),
        ("string[]", None),
        ("boolean", None),
        ("int64", None),
        ("float", None),
        ("double", None),
        ("string", None),
        ("raw", None),
        ("other[]", None),
    ];
    for (typ, shape) in types {
        let log = log_of(vec![start(0, 1, "e", typ, ""), sample(1, 1, &data)]);
        let entries = log.get_entry_metadata().unwrap();
        assert_eq!(entries[0].all_same_length, shape, "{}", typ);
        assert_eq!(entries[0].kind, ValueKind::from_tag(typ));
    }
}

#[test]
fn shape_counts_whole_elements() {
    // 20 bytes hold two whole int64 elements; 23 bytes too
    let a = [0u8; 20];
    let b = [0u8; 23];
    let c = [0u8; 24];
    let log = log_of(vec![start(0, 1, "xs", "int64[]", ""), sample(1, 1, &a), sample(2, 1, &b)]);
    assert_eq!(log.get_entry_metadata().unwrap()[0].all_same_length, Some((2, 8)));
    let log = log_of(vec![start(0, 1, "xs", "int64[]", ""), sample(1, 1, &a), sample(2, 1, &c)]);
    assert_eq!(log.get_entry_metadata().unwrap()[0].all_same_length, None);
}

#[test]
fn descriptor_fields() {
    let log = log_of(vec![
        start(5, 1, "speed", "double", "m0"),
        start(6, 2, "name", "string", "{}"),
        sample(10, 1, &[0; 8]),
        set_metadata(11, 1, "m1"),
        sample(12, 2, b"x"),
        sample(20, 1, &[0; 8]),
        set_metadata(21, 1, "m2"),
        finish(22, 1),
        sample(30, 1, &[0; 8]),
    ]);
    let entries = log.get_entry_metadata().unwrap();
    assert_eq!(entries.len(), 2);
    let e = &entries[0];
    assert_eq!(e.entry_id, 1);
    assert_eq!(e.name, "speed");
    assert_eq!(e.typ, "double");
    assert_eq!(e.kind, ValueKind::Double);
    assert_eq!(e.metadata, "m2");
    assert_eq!(e.entry_count, 3);
    assert!(e.finished);
    assert_eq!(e.start_time, 10);
    assert_eq!(e.end_time, 30);
    assert_eq!(e.all_same_length, None);
    let e = &entries[1];
    assert_eq!(e.entry_id, 2);
    assert_eq!(e.metadata, "{}");
    assert_eq!(e.entry_count, 1);
    assert!(!e.finished);
    assert_eq!(e.start_time, 12);
    assert_eq!(e.end_time, 12);
}

#[test]
fn unknown_entries_are_passed_over() {
    let log = log_of(vec![
        sample(1, 9, &[1]),
        set_metadata(2, 9, "m"),
        finish(3, 9),
        start(4, 1, "a", "boolean", "orig"),
        sample(5, 9, &[1]),
    ]);
    let entries = log.get_entry_metadata().unwrap();
    assert_eq!(entries.len(), 1);
    assert_eq!(entries[0].entry_count, 0);
    assert_eq!(entries[0].metadata, "orig");
    assert!(!entries[0].finished);
    assert_eq!(entries[0].start_time, 0);
    assert_eq!(entries[0].end_time, 0);
}

#[test]
fn records_before_start_do_not_count() {
    let log = log_of(vec![sample(1, 1, &[1]), start(2, 1, "a", "boolean", ""), sample(3, 1, &[0])]);
    let entries = log.get_entry_metadata().unwrap();
    assert_eq!(entries[0].entry_count, 1);
    assert_eq!(entries[0].start_time, 3);
}

#[test]
fn descriptors_come_in_start_order() {
    let log = log_of(vec![
        start(1, 30, "c", "int64", ""),
        start(2, 10, "a", "int64", ""),
        start(3, 20, "b", "int64", ""),
    ]);
    let entries = log.get_entry_metadata().unwrap();
    let ids: Vec<u32> = entries.iter().map(|e| e.entry_id).collect();
    assert_eq!(ids, vec![30, 10, 20]);
    assert!(log_of(vec![]).get_entry_metadata().unwrap().is_empty());
}

#[test]
fn is_array_looks_at_the_tag() {
    assert!(entry("a", "int64[]", 0, None).is_array());
    assert!(entry("a", "string[]", 0, None).is_array());
    assert!(entry("a", "anything[]", 0, None).is_array());
    assert!(entry("a", "[]", 0, None).is_array());
    assert!(!entry("a", "int64", 0, None).is_array());
    assert!(!entry("a", "", 0, None).is_array());
    assert!(!entry("a", "]", 0, None).is_array());
    assert!(!entry("a", "[] ", 0, None).is_array());
}

#[test]
fn expansion_needs_more_than_sixteen_samples() {
    assert!(!entry("a", "int64[]", 16, Some((3, 8))).should_expand());
    assert!(entry("a", "int64[]", 17, Some((3, 8))).should_expand());
    assert!(!entry("a", "int64[]", 100, None).should_expand());
    assert!(!entry("a", "int64", 100, Some((3, 8))).should_expand());
    assert!(!entry("a", "int64[]", 0, Some((3, 8))).should_expand());
}

#[test]
fn field_count_is_one_or_slots_plus_one() {
    assert_eq!(entry("a", "int64", 50, None).field_count(), 1);
    assert_eq!(entry("a", "int64[]", 16, Some((3, 8))).field_count(), 1);
    assert_eq!(entry("a", "int64[]", 17, Some((3, 8))).field_count(), 4);
    assert_eq!(entry("a", "int64[]", 17, Some((0, 8))).field_count(), 1);
    assert_eq!(entry("a", "boolean[]", 17, Some((12, 1))).field_count(), 13);
    assert_eq!(entry("a", "string[]", 99, None).field_count(), 1);
}

#[test]
fn field_names() {
    assert_eq!(entry("speed", "double", 50, None).fields(), vec!["speed".to_string()]);
    assert_eq!(entry("xs", "int64[]", 3, Some((2, 8))).fields(), vec!["xs".to_string()]);
    assert_eq!(
        entry("xs", "int64[]", 17, Some((3, 8))).fields(),
        vec!["xs/len".to_string(), "xs/[0]".to_string(), "xs/[1]".to_string(), "xs/[2]".to_string()]
    );
    assert_eq!(entry("xs", "int64[]", 17, Some((0, 8))).fields(), vec!["xs/len".to_string()]);
    let wide = entry("w", "boolean[]", 20, Some((12, 1))).fields();
    assert_eq!(wide.len(), 13);
    assert_eq!(wide[11], "w/[10]");
    assert_eq!(wide[12], "w/[11]");
}

#[test]
fn field_names_match_field_count() {
    for (count, shape) in [(0, None), (17, Some((5, 4))), (17, Some((0, 4))), (3, Some((5, 4)))] {
        let e = entry("n", "float[]", count, shape);
        assert_eq!(e.fields().len(), e.field_count());
    }
}

#[test]
fn decimal_numbers() {
    assert_eq!(decimal_text(0), "0");
    assert_eq!(decimal_text(7), "7");
    assert_eq!(decimal_text(10), "10");
    assert_eq!(decimal_text(109), "109");
    assert_eq!(decimal_text(12345678), "12345678");
    assert_eq!(decimal_text(usize::MAX), usize::MAX.to_string());
}
