use wpilog_reader::sorting::stable_order;
use wpilog_reader::types::{
    ControlRecord, DataRecord, FinishRecord, Record, SetMetadataRecord, StartRecord, WpiLog,
    WpiRecord,
};

fn s_start<'a>(ts: u64, id: u32) -> WpiRecord<'a> {
    WpiRecord {
        entry_id: 0,
        timestamp_us: ts,
        data: Record::Control(ControlRecord::Start(StartRecord { entry_id: id, name: "n", typ: "int64", metadata: "" })),
    }
}

fn s_finish<'a>(ts: u64, id: u32) -> WpiRecord<'a> {
    WpiRecord {
        entry_id: 0,
        timestamp_us: ts,
        data: Record::Control(ControlRecord::Finish(FinishRecord { entry_id: id })),
    }
}

fn s_meta<'a>(ts: u64, id: u32) -> WpiRecord<'a> {
    WpiRecord {
        entry_id: 0,
        timestamp_us: ts,
        data: Record::Control(ControlRecord::SetMetadata(SetMetadataRecord { entry_id: id, metadata: "m" })),
    }
}

fn s_data<'a>(ts: u64, id: u32, data: &'a [u8]) -> WpiRecord<'a> {
    WpiRecord { entry_id: id, timestamp_us: ts, data: Record::Data(DataRecord { data }) }
}

/// A short name for a record: class letter, timestamp and entry id.
fn label(r: &WpiRecord) -> String {
    match r.data {
        Record::Control(ControlRecord::Start(s)) => format!("S{}:{}", r.timestamp_us, s.entry_id),
        Record::Control(ControlRecord::SetMetadata(m)) => format!("M{}:{}", r.timestamp_us, m.entry_id),
        Record::Control(ControlRecord::Finish(f)) => format!("F{}:{}", r.timestamp_us, f.entry_id),
        Record::Data(d) => format!("D{}:{}:{}", r.timestamp_us, r.entry_id, d.data.len()),
    }
}

fn labels(log: &WpiLog) -> Vec<String> {
    log.records.iter().map(label).collect()
}

#[test]
fn sort_orders_by_timestamp_then_class() {
    let payload = [0u8; 3];
    let mut log = WpiLog {
        major_version: 1,
        minor_version: 0,
        extra_header: "h",
        records: vec![
            s_data(20, 1, &payload),
            s_finish(20, 1),
            s_data(10, 1, &payload[..1]),
            s_meta(20, 1),
            s_start(20, 2),
            s_start(5, 1),
            s_data(20, 2, &payload[..2]),
            s_finish(10, 7),
        ],
    };
    log.sort();
    assert_eq!(
        labels(&log),
        vec!["S5:1", "F10:7", "D10:1:1", "S20:2", "M20:1", "F20:1", "D20:1:3", "D20:2:2"]
    );
    assert_eq!(log.major_version, 1);
    assert_eq!(log.minor_version, 0);
    assert_eq!(log.extra_header, "h");
}

#[test]
fn sort_keeps_equal_records_in_order() {
    let a = [0u8; 1];
    let b = [0u8; 2];
    let c = [0u8; 3];
    let mut log = WpiLog {
        major_version: 1,
        minor_version: 0,
        extra_header: "",
        records: vec![s_data(7, 1, &a), s_data(7, 2, &b), s_data(7, 1, &c), s_data(3, 4, &a)],
    };
    log.sort();
    assert_eq!(labels(&log), vec!["D3:4:1", "D7:1:1", "D7:2:2", "D7:1:3"]);
}

#[test]
fn sort_keeps_every_record() {
    let payload = [0u8; 4];
    let mut records = Vec::new();
    for i in 0..50u64 {
        let ts = (i * 37) % 11;
        records.push(match i % 4 {
            0 => s_start(ts, i as u32),
            1 => s_meta(ts, i as u32),
            2 => s_finish(ts, i as u32),
            _ => s_data(ts, i as u32, &payload[..(i % 3) as usize]),
        });
    }
    let mut log = WpiLog { major_version: 1, minor_version: 0, extra_header: "", records };
    let mut before = labels(&log);
    log.sort();
    let after = labels(&log);
    for pair in log.records.windows(2) {
        assert!(pair[0].timestamp_us <= pair[1].timestamp_us);
    }
    let mut sorted_after = after.clone();
    before.sort();
    sorted_after.sort();
    assert_eq!(before, sorted_after);
    let again = {
        log.sort();
        labels(&log)
    };
    assert_eq!(after, again);
}

#[test]
fn sort_of_nothing() {
    let mut log = WpiLog { major_version: 1, minor_version: 0, extra_header: "", records: vec![] };
    log.sort();
    assert!(log.records.is_empty());
}

#[test]
fn stable_order_lists_positions_by_key() {
    let keys = vec![(5u64, 3u8), (1, 3), (5, 0), (1, 3), (0, 9)];
    assert_eq!(stable_order(&keys), vec![4, 1, 3, 2, 0]);
    assert_eq!(stable_order(&vec![]), Vec::<usize>::new());
    assert_eq!(stable_order(&vec![(9u64, 9u8)]), vec![0]);
    assert_eq!(stable_order(&vec![(2, 0), (2, 0), (2, 0)]), vec![0, 1, 2]);
    assert_eq!(stable_order(&vec![(3, 0), (2, 0), (1, 0)]), vec![2, 1, 0]);
}
