use wpilog_reader::periods::{find_by_name, get_enabled_periods, log_max_timestamp, log_min_timestamp};
use wpilog_reader::types::{
    ControlRecord, DataRecord, FinishRecord, MetadataEntry, Record, StartRecord, WpiLog, WpiRecord,
};

fn p_start<'a>(ts: u64, id: u32, name: &'a str, typ: &'a str) -> WpiRecord<'a> {
    WpiRecord {
        entry_id: 0,
        timestamp_us: ts,
        data: Record::Control(ControlRecord::Start(StartRecord { entry_id: id, name, typ, metadata: "" })),
    }
}

fn p_finish<'a>(ts: u64, id: u32) -> WpiRecord<'a> {
    WpiRecord {
        entry_id: 0,
        timestamp_us: ts,
        data: Record::Control(ControlRecord::Finish(FinishRecord { entry_id: id })),
    }
}

const TRUE: [u8; 1] = [1];
const FALSE: [u8; 1] = [0];

fn p_bool<'a>(ts: u64, id: u32, value: bool) -> WpiRecord<'a> {
    let data: &'static [u8] = if value { &TRUE } else { &FALSE };
    WpiRecord { entry_id: id, timestamp_us: ts, data: Record::Data(DataRecord { data }) }
}

fn p_raw<'a>(ts: u64, id: u32, data: &'a [u8]) -> WpiRecord<'a> {
    WpiRecord { entry_id: id, timestamp_us: ts, data: Record::Data(DataRecord { data }) }
}

fn p_log<'a>(records: Vec<WpiRecord<'a>>) -> WpiLog<'a> {
    WpiLog { major_version: 1, minor_version: 0, extra_header: "", records }
}

fn periods_of(log: &WpiLog) -> Option<Vec<(u64, u64)>> {
    let metadata: Vec<MetadataEntry> = log.get_entry_metadata().unwrap();
    get_enabled_periods(log, &metadata, "DS:enabled")
}

#[test]
fn enabled_periods_of_the_example() {
    let log = p_log(vec![
        p_start(0, 1, "DS:enabled", "boolean"),
        p_bool(100, 1, true),
        p_bool(200, 1, false),
        p_bool(300, 1, true),
        p_finish(500, 1),
    ]);
    assert_eq!(periods_of(&log), Some(vec![(100, 200), (300, 500)]));
}

#[test]
fn no_channel_gives_none() {
    let log = p_log(vec![p_start(0, 1, "other", "boolean"), p_bool(100, 1, true)]);
    assert_eq!(periods_of(&log), None);
    assert_eq!(periods_of(&p_log(vec![])), None);
}

#[test]
fn channel_without_samples_gives_no_period() {
    let log = p_log(vec![p_start(0, 1, "DS:enabled", "boolean"), p_start(1, 2, "x", "int64")]);
    assert_eq!(periods_of(&log), Some(vec![]));
}

#[test]
fn false_without_open_span_changes_nothing() {
    let log = p_log(vec![
        p_start(0, 1, "DS:enabled", "boolean"),
        p_bool(10, 1, false),
        p_bool(20, 1, true),
        p_bool(30, 1, false),
        p_bool(40, 1, false),
    ]);
    assert_eq!(periods_of(&log), Some(vec![(20, 30)]));
}

#[test]
fn false_closes_the_span_opened_last_that_is_still_open() {
    let log = p_log(vec![
        p_start(0, 1, "DS:enabled", "boolean"),
        p_bool(1, 1, true),
        p_bool(2, 1, true),
        p_bool(3, 1, false),
        p_bool(4, 1, false),
        p_bool(5, 1, true),
        p_finish(9, 1),
    ]);
    assert_eq!(periods_of(&log), Some(vec![(1, 4), (2, 3), (5, 9)]));
}

#[test]
fn other_bytes_count_as_false() {
    let two = [2u8];
    let log = p_log(vec![
        p_start(0, 1, "DS:enabled", "boolean"),
        p_bool(10, 1, true),
        p_raw(20, 1, &two),
        p_finish(99, 1),
    ]);
    assert_eq!(periods_of(&log), Some(vec![(10, 20)]));
}

#[test]
fn empty_samples_and_other_entries_are_passed_over() {
    let log = p_log(vec![
        p_start(0, 1, "DS:enabled", "boolean"),
        p_start(0, 2, "other", "boolean"),
        p_bool(10, 1, true),
        p_raw(15, 1, &[]),
        p_bool(16, 2, false),
        p_bool(20, 1, false),
        p_bool(30, 2, true),
    ]);
    assert_eq!(periods_of(&log), Some(vec![(10, 20)]));
}

#[test]
fn first_descriptor_of_the_name_counts() {
    let log = p_log(vec![p_bool(10, 1, true), p_bool(20, 2, true), p_bool(30, 1, false), p_finish(70, 1)]);
    let a = p_log(vec![p_start(0, 1, "DS:enabled", "boolean")]).get_entry_metadata().unwrap();
    let b = p_log(vec![p_start(0, 2, "DS:enabled", "boolean")]).get_entry_metadata().unwrap();
    let both = vec![a[0], b[0]];
    assert_eq!(get_enabled_periods(&log, &both, "DS:enabled"), Some(vec![(10, 30)]));
    let swapped = vec![b[0], a[0]];
    assert_eq!(get_enabled_periods(&log, &swapped, "DS:enabled"), Some(vec![(20, 70)]));
    assert_eq!(find_by_name(&both, "DS:enabled"), Some(0));
    assert_eq!(find_by_name(&both, "DS:enable"), None);
    assert_eq!(find_by_name(&vec![], "DS:enabled"), None);
}

#[test]
fn log_bounds() {
    let log = p_log(vec![p_bool(30, 1, true), p_finish(7, 1), p_bool(90, 1, true), p_bool(8, 1, true)]);
    assert_eq!(log_min_timestamp(&log.records), 7);
    assert_eq!(log_max_timestamp(&log.records), 90);
    let one = p_log(vec![p_bool(30, 1, true)]);
    assert_eq!(log_min_timestamp(&one.records), 30);
    assert_eq!(log_max_timestamp(&one.records), 30);
    let none = p_log(vec![]);
    assert_eq!(log_min_timestamp(&none.records), 0);
    assert_eq!(log_max_timestamp(&none.records), 0);
}
