use wpilog_reader::error::DecodeError;
use wpilog_reader::table::Cell;
use wpilog_reader::types::{
    ControlRecord, DataRecord, DataType, FinishRecord, Record, SetMetadataRecord, StartRecord,
    ValueKind, WpiLog, WpiRecord,
};
use wpilog_reader::utils::{reorganize, sort, OrganizedLog};

fn r_start<'a>(ts: u64, id: u32, name: &'a str, typ: &'a str, metadata: &'a str) -> WpiRecord<'a> {
    WpiRecord {
        entry_id: 0,
        timestamp_us: ts,
        data: Record::Control(ControlRecord::Start(StartRecord { entry_id: id, name, typ, metadata })),
    }
}

fn r_meta<'a>(ts: u64, id: u32, metadata: &'a str) -> WpiRecord<'a> {
    WpiRecord {
        entry_id: 0,
        timestamp_us: ts,
        data: Record::Control(ControlRecord::SetMetadata(SetMetadataRecord { entry_id: id, metadata })),
    }
}

fn r_finish<'a>(ts: u64, id: u32) -> WpiRecord<'a> {
    WpiRecord {
        entry_id: 0,
        timestamp_us: ts,
        data: Record::Control(ControlRecord::Finish(FinishRecord { entry_id: id })),
    }
}

fn r_data<'a>(ts: u64, id: u32, data: &'a [u8]) -> WpiRecord<'a> {
    WpiRecord { entry_id: id, timestamp_us: ts, data: Record::Data(DataRecord { data }) }
}

fn r_log<'a>(records: Vec<WpiRecord<'a>>) -> WpiLog<'a> {
    WpiLog { major_version: 1, minor_version: 0, extra_header: "", records }
}

fn ints(cells: &[Cell]) -> Vec<i64> {
    cells
        .iter()
        .map(|c| match c {
            Cell::Value(DataType::Int64(v)) => *v,
            _ => panic!("expected an int64"),
        })
        .collect()
}

fn lengths(cells: &[Cell]) -> Vec<usize> {
    cells
        .iter()
        .map(|c| match c {
            Cell::List(vs) => vs.len(),
            Cell::TextList(ts) => ts.len(),
            _ => panic!("expected a list"),
        })
        .collect()
}

#[test]
fn reorganize_groups_samples_by_entry() {
    let one = 1i64.to_le_bytes();
    let two = 2i64.to_le_bytes();
    let three = 3i64.to_le_bytes();
    let log = r_log(vec![
        r_data(5, 1, &one),
        r_start(10, 1, "n", "int64", "m0"),
        r_start(10, 2, "flags", "boolean[]", ""),
        r_data(20, 1, &two),
        r_data(21, 2, &[1, 0, 1]),
        r_meta(22, 1, "m1"),
        r_data(23, 3, &[9]),
        r_data(19, 1, &three),
        r_finish(30, 1),
        r_data(31, 2, &[1]),
        r_meta(40, 1, "m2"),
        r_meta(41, 7, "ignored"),
    ]);
    let organized = reorganize(&log).unwrap();
    assert_eq!(organized.sessioned_data.len(), 2);
    let n = &organized.sessioned_data[0];
    assert_eq!(n.entry_id, 1);
    assert_eq!(n.name, "n");
    assert_eq!(n.typ, "int64");
    assert_eq!(n.kind, ValueKind::Int64);
    assert_eq!(n.metadata, "m2");
    assert_eq!(n.max_len, None);
    assert_eq!(n.timestamps, vec![5, 20, 19]);
    assert_eq!(ints(&n.data), vec![1, 2, 3]);
    let flags = &organized.sessioned_data[1];
    assert_eq!(flags.entry_id, 2);
    assert_eq!(flags.metadata, "");
    assert_eq!(flags.max_len, Some(3));
    assert_eq!(flags.timestamps, vec![21, 31]);
    assert_eq!(lengths(&flags.data), vec![3, 1]);
}

#[test]
fn reorganize_of_nothing() {
    assert!(reorganize(&r_log(vec![])).unwrap().sessioned_data.is_empty());
    let only_data = [1u8];
    let log = r_log(vec![r_data(1, 1, &only_data)]);
    assert!(reorganize(&log).unwrap().sessioned_data.is_empty());
}

#[test]
fn reorganize_text_arrays_track_the_longest() {
    let a = [2u8, 0, 0, 0, 1, 0, 0, 0, b'x', 0, 0, 0, 0];
    let b = [0u8, 0, 0, 0];
    let log = r_log(vec![r_start(0, 1, "names", "string[]", ""), r_data(1, 1, &b), r_data(2, 1, &a), r_data(3, 1, &b)]);
    let organized = reorganize(&log).unwrap();
    let e = &organized.sessioned_data[0];
    assert_eq!(e.max_len, Some(2));
    assert_eq!(lengths(&e.data), vec![0, 2, 0]);
    match &e.data[1] {
        Cell::TextList(ts) => assert_eq!(ts, &vec!["x", ""]),
        _ => panic!("expected a text list"),
    }
}

#[test]
fn reorganize_fails_on_a_sample_that_does_not_decode() {
    let log = r_log(vec![r_start(0, 1, "n", "int64", ""), r_data(1, 1, &[0; 8]), r_data(2, 1, &[0; 7])]);
    assert_eq!(reorganize(&log).unwrap_err(), DecodeError::TruncatedInput);
    let log = r_log(vec![r_start(0, 1, "xs", "double[]", ""), r_data(1, 1, &[0; 9])]);
    assert_eq!(reorganize(&log).unwrap_err(), DecodeError::ArrayLengthMismatch);
    let log = r_log(vec![r_start(0, 1, "s", "string", ""), r_data(1, 1, &[0xff])]);
    assert_eq!(reorganize(&log).unwrap_err(), DecodeError::InvalidUtf8);
    let log = r_log(vec![r_start(0, 1, "s", "blob", ""), r_data(1, 1, &[0xff])]);
    assert!(reorganize(&log).is_ok());
}

#[test]
fn sort_orders_the_samples_of_each_entry() {
    let payloads: Vec<[u8; 8]> = (0..6i64).map(|v| v.to_le_bytes()).collect();
    let log = r_log(vec![
        r_start(0, 1, "n", "int64", ""),
        r_start(0, 2, "m", "int64", ""),
        r_data(30, 1, &payloads[0]),
        r_data(10, 1, &payloads[1]),
        r_data(30, 1, &payloads[2]),
        r_data(20, 1, &payloads[3]),
        r_data(10, 1, &payloads[4]),
        r_data(7, 2, &payloads[5]),
    ]);
    let mut organized = reorganize(&log).unwrap();
    sort(&mut organized);
    let n = &organized.sessioned_data[0];
    assert_eq!(n.timestamps, vec![10, 10, 20, 30, 30]);
    assert_eq!(ints(&n.data), vec![1, 4, 3, 0, 2]);
    assert_eq!(n.name, "n");
    let m = &organized.sessioned_data[1];
    assert_eq!(m.timestamps, vec![7]);
    assert_eq!(ints(&m.data), vec![5]);
    let mut empty = OrganizedLog { sessioned_data: vec![] };
    sort(&mut empty);
    assert!(empty.sessioned_data.is_empty());
}

#[test]
fn sort_keeps_lists_with_their_timestamps() {
    let log = r_log(vec![
        r_start(0, 1, "flags", "boolean[]", ""),
        r_data(9, 1, &[1, 1, 1]),
        r_data(3, 1, &[1]),
        r_data(6, 1, &[1, 1]),
    ]);
    let mut organized = reorganize(&log).unwrap();
    sort(&mut organized);
    let e = &organized.sessioned_data[0];
    assert_eq!(e.timestamps, vec![3, 6, 9]);
    assert_eq!(lengths(&e.data), vec![1, 2, 3]);
    assert_eq!(e.max_len, Some(3));
}
