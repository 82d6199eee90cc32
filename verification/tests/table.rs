use wpilog_reader::error::DecodeError;
use wpilog_reader::table::{
    blank_row, build_rows, column_names, decode_sample, export_data, find_owner, insert_data_into_row,
    start_indices, state_before_timestamp, total_columns, Cell, Row,
};
use wpilog_reader::types::{
    ControlRecord, DataRecord, DataType, FinishRecord, MetadataEntry, Record, StartRecord,
    ValueKind, WpiLog, WpiRecord,
};

fn t_start<'a>(ts: u64, id: u32, name: &'a str, typ: &'a str) -> WpiRecord<'a> {
    WpiRecord {
        entry_id: 0,
        timestamp_us: ts,
        data: Record::Control(ControlRecord::Start(StartRecord { entry_id: id, name, typ, metadata: "" })),
    }
}

fn t_finish<'a>(ts: u64, id: u32) -> WpiRecord<'a> {
    WpiRecord {
        entry_id: 0,
        timestamp_us: ts,
        data: Record::Control(ControlRecord::Finish(FinishRecord { entry_id: id })),
    }
}

fn t_data<'a>(ts: u64, id: u32, data: &'a [u8]) -> WpiRecord<'a> {
    WpiRecord { entry_id: id, timestamp_us: ts, data: Record::Data(DataRecord { data }) }
}

fn t_log<'a>(records: Vec<WpiRecord<'a>>) -> WpiLog<'a> {
    WpiLog { major_version: 1, minor_version: 0, extra_header: "", records }
}

fn t_entry<'a>(id: u32, name: &'a str, typ: &'a str, count: usize, shape: Option<(usize, usize)>) -> MetadataEntry<'a> {
    MetadataEntry {
        entry_id: id,
        name,
        typ,
        kind: ValueKind::from_tag(typ),
        metadata: "",
        entry_count: count,
        all_same_length: shape,
        finished: false,
        start_time: 0,
        end_time: 0,
    }
}

/// A cell as short text, for comparing rows.
fn show(cell: &Option<Cell>) -> String {
    match cell {
        None => "-".to_string(),
        Some(Cell::Length(n)) => format!("len={}", n),
        Some(Cell::Value(v)) => show_value(v),
        Some(Cell::List(vs)) => format!("[{}]", vs.iter().map(show_value).collect::<Vec<_>>().join(",")),
        Some(Cell::TextList(ts)) => format!("{:?}", ts),
    }
}

fn show_value(v: &DataType) -> String {
    match v {
        DataType::Raw(b) => format!("raw{:?}", b),
        DataType::Boolean(b) => format!("{}", b),
        DataType::Int64(i) => format!("{}", i),
        DataType::Float(bits) => format!("{}f", f32::from_bits(*bits)),
        DataType::Double(bits) => format!("{}d", f64::from_bits(*bits)),
        DataType::String(s) => format!("{:?}", s),
    }
}

fn show_row(row: &Row) -> String {
    let cells: Vec<String> = row.cells.iter().map(show).collect();
    format!("{}|{}", row.timestamp_us, cells.join(" "))
}

fn show_rows(rows: &[Row]) -> Vec<String> {
    rows.iter().map(show_row).collect()
}

#[test]
fn windowed_export_of_the_example() {
    let log = t_log(vec![
        t_start(0, 1, "DS:enabled", "boolean"),
        t_data(100, 1, &[1]),
        t_data(200, 1, &[0]),
        t_data(300, 1, &[1]),
        t_finish(500, 1),
    ]);
    let metadata = log.get_entry_metadata().unwrap();
    let rows = export_data(&log.records, &metadata, 50, 250).unwrap();
    assert_eq!(show_rows(&rows), vec!["50|-", "100|true", "200|false"]);
}

#[test]
fn seed_row_holds_the_state_before_the_window() {
    let a = 1i64.to_le_bytes();
    let b = 2i64.to_le_bytes();
    let c = 3i64.to_le_bytes();
    let log = t_log(vec![
        t_start(0, 1, "flag", "boolean"),
        t_start(0, 2, "n", "int64"),
        t_start(0, 3, "s", "string"),
        t_data(10, 2, &a),
        t_data(20, 1, &[1]),
        t_data(30, 2, &b),
        t_data(40, 2, &c),
        t_data(40, 3, b"late"),
        t_data(60, 1, &[0]),
    ]);
    let metadata = log.get_entry_metadata().unwrap();
    let rows = export_data(&log.records, &metadata, 40, 50).unwrap();
    assert_eq!(show_rows(&rows), vec!["40|true 2 -", "40|- 3 \"late\""]);
    let rows = export_data(&log.records, &metadata, 41, 100).unwrap();
    assert_eq!(show_rows(&rows), vec!["41|true 3 \"late\"", "60|false - -"]);
    let state = state_before_timestamp(&log.records, &metadata, 40);
    assert_eq!(state, vec![Some(4), Some(5), None]);
    let state = state_before_timestamp(&log.records, &metadata, 0);
    assert_eq!(state, vec![None, None, None]);
    let state = state_before_timestamp(&log.records, &metadata, u64::MAX);
    assert_eq!(state, vec![Some(8), Some(6), Some(7)]);
}

#[test]
fn window_before_the_log_is_stamped_at_the_first_timestamp() {
    let log = t_log(vec![t_start(100, 1, "flag", "boolean"), t_data(150, 1, &[1])]);
    let metadata = log.get_entry_metadata().unwrap();
    let rows = export_data(&log.records, &metadata, 20, 200).unwrap();
    assert_eq!(show_rows(&rows), vec!["100|-", "150|true"]);
    let rows = export_data(&log.records, &metadata, 20, 30).unwrap();
    assert_eq!(show_rows(&rows), vec!["100|-"]);
    let rows = export_data(&log.records, &metadata, 100, 150).unwrap();
    assert_eq!(show_rows(&rows), vec!["100|-", "150|true"]);
}

#[test]
fn window_bounds_are_inclusive() {
    let log = t_log(vec![
        t_start(0, 1, "flag", "boolean"),
        t_data(10, 1, &[1]),
        t_data(20, 1, &[0]),
        t_data(30, 1, &[1]),
    ]);
    let metadata = log.get_entry_metadata().unwrap();
    let rows = export_data(&log.records, &metadata, 10, 30).unwrap();
    assert_eq!(show_rows(&rows), vec!["10|-", "10|true", "20|false", "30|true"]);
    let rows = export_data(&log.records, &metadata, 11, 29).unwrap();
    assert_eq!(show_rows(&rows), vec!["11|true", "20|false"]);
    let rows = export_data(&log.records, &metadata, 25, 5).unwrap();
    assert_eq!(show_rows(&rows), vec!["25|false"]);
}

#[test]
fn rows_merge_by_timestamp() {
    let one = 1i64.to_le_bytes();
    let two = 2i64.to_le_bytes();
    let half = 0.5f64.to_le_bytes();
    let log = t_log(vec![
        t_start(0, 1, "n", "int64"),
        t_start(0, 2, "x", "double"),
        t_data(10, 1, &one),
        t_data(10, 2, &half),
        t_data(10, 1, &two),
        t_data(20, 2, &half),
        t_data(30, 9, &one),
        t_data(30, 1, &one),
    ]);
    let metadata = log.get_entry_metadata().unwrap();
    let rows = log.export_rows(&metadata).unwrap();
    assert_eq!(show_rows(&rows), vec!["10|2 0.5d", "20|- 0.5d", "30|1 -"]);
    let same = build_rows(&log.records, &metadata, 0, u64::MAX).unwrap();
    assert_eq!(show_rows(&same), show_rows(&rows));
}

#[test]
fn export_of_a_log_without_samples() {
    let log = t_log(vec![t_start(0, 1, "n", "int64")]);
    let metadata = log.get_entry_metadata().unwrap();
    assert!(log.export_rows(&metadata).unwrap().is_empty());
    let rows = export_data(&log.records, &metadata, 5, 9).unwrap();
    assert_eq!(show_rows(&rows), vec!["5|-"]);
    let nothing = t_log(vec![]);
    let rows = export_data(&nothing.records, &vec![], 5, 9).unwrap();
    assert_eq!(show_rows(&rows), vec!["5|"]);
}

#[test]
fn arrays_expand_after_sixteen_samples() {
    let mut payloads: Vec<Vec<u8>> = Vec::new();
    for i in 0..17i64 {
        let mut p = Vec::new();
        p.extend_from_slice(&i.to_le_bytes());
        p.extend_from_slice(&(-i).to_le_bytes());
        payloads.push(p);
    }
    let mut records = vec![t_start(0, 1, "flag", "boolean"), t_start(0, 2, "xs", "int64[]"), t_start(0, 3, "n", "int64")];
    for (i, p) in payloads.iter().enumerate() {
        records.push(t_data(100 + i as u64, 2, p));
    }
    let log = t_log(records);
    let metadata = log.get_entry_metadata().unwrap();
    assert_eq!(metadata[1].all_same_length, Some((2, 8)));
    assert!(metadata[1].should_expand());
    assert_eq!(total_columns(&metadata), 5);
    assert_eq!(start_indices(&metadata), vec![0, 1, 4]);
    let rows = log.export_rows(&metadata).unwrap();
    assert_eq!(rows.len(), 17);
    assert_eq!(show_row(&rows[0]), "100|- len=2 0 0 -");
    assert_eq!(show_row(&rows[16]), "116|- len=2 16 -16 -");

    let sixteen = t_log(log.records[..log.records.len() - 1].to_vec());
    let metadata = sixteen.get_entry_metadata().unwrap();
    assert!(!metadata[1].should_expand());
    assert_eq!(total_columns(&metadata), 3);
    let rows = sixteen.export_rows(&metadata).unwrap();
    assert_eq!(show_row(&rows[3]), "103|- [3,-3] -");
}

#[test]
fn expanded_sample_of_another_length_is_an_error() {
    let entry = t_entry(1, "xs", "float[]", 17, Some((2, 4)));
    let mut row = blank_row(4);
    assert_eq!(
        insert_data_into_row(&[0; 12], &entry, &mut row, 1).unwrap_err(),
        DecodeError::ArrayLengthMismatch
    );
    assert!(row.iter().all(|c| c.is_none()));
    assert_eq!(
        insert_data_into_row(&[0; 4], &entry, &mut row, 1).unwrap_err(),
        DecodeError::ArrayLengthMismatch
    );
    assert_eq!(
        insert_data_into_row(&[0; 7], &entry, &mut row, 1).unwrap_err(),
        DecodeError::ArrayLengthMismatch
    );
    insert_data_into_row(&[0, 0, 0x80, 0x3f, 0, 0, 0, 0x40], &entry, &mut row, 1).unwrap();
    let cells: Vec<String> = row.iter().map(show).collect();
    assert_eq!(cells, vec!["-", "len=2", "1f", "2f"]);
}

#[test]
fn insert_overwrites_only_its_group() {
    let entry = t_entry(1, "n", "int64", 1, None);
    let mut row = blank_row(3);
    let seven = 7i64.to_le_bytes();
    let eight = 8i64.to_le_bytes();
    insert_data_into_row(&seven, &entry, &mut row, 0).unwrap();
    insert_data_into_row(&eight, &entry, &mut row, 2).unwrap();
    insert_data_into_row(&eight, &entry, &mut row, 0).unwrap();
    let cells: Vec<String> = row.iter().map(show).collect();
    assert_eq!(cells, vec!["8", "-", "8"]);
    assert_eq!(insert_data_into_row(&[1, 2], &entry, &mut row, 1).unwrap_err(), DecodeError::TruncatedInput);
    let cells: Vec<String> = row.iter().map(show).collect();
    assert_eq!(cells, vec!["8", "-", "8"]);
}

#[test]
fn samples_decode_by_the_kind_of_their_entry() {
    let cases: Vec<(&str, Vec<u8>, &str)> = vec![
        ("boolean", vec![1], "true"),
        ("boolean", vec![5], "false"),
        ("int64", (-3i64).to_le_bytes().to_vec(), "-3"),
        ("float", 0.25f32.to_le_bytes().to_vec(), "0.25f"),
        ("double", 1e10f64.to_le_bytes().to_vec(), "10000000000d"),
        ("string", b"abc".to_vec(), "\"abc\""),
        ("boolean[]", vec![1, 0], "[true,false]"),
        ("float[]", vec![], "[]"),
        ("string[]", vec![1, 0, 0, 0, 1, 0, 0, 0, b'z'], "[\"z\"]"),
        ("mystery", vec![1, 2], "raw[1, 2]"),
    ];
    for (typ, payload, expected) in &cases {
        let entry = t_entry(1, "e", typ, 3, None);
        let cells = decode_sample(&entry, payload).unwrap();
        assert_eq!(cells.len(), 1);
        assert_eq!(&show(&cells[0]), expected, "{}", typ);
    }
}

#[test]
fn a_sample_that_does_not_decode_fails_the_export() {
    let ok = 1i64.to_le_bytes();
    let log = t_log(vec![t_start(0, 1, "n", "int64"), t_data(10, 1, &ok), t_data(20, 1, &[1, 2, 3])]);
    let metadata = log.get_entry_metadata().unwrap();
    assert_eq!(log.export_rows(&metadata).unwrap_err(), DecodeError::TruncatedInput);
    assert_eq!(export_data(&log.records, &metadata, 0, 15).unwrap().len(), 2);
    assert_eq!(export_data(&log.records, &metadata, 21, 30).unwrap_err(), DecodeError::TruncatedInput);
    let log = t_log(vec![t_start(0, 1, "s", "string"), t_data(10, 1, &[0xff])]);
    let metadata = log.get_entry_metadata().unwrap();
    assert_eq!(log.export_rows(&metadata).unwrap_err(), DecodeError::InvalidUtf8);
}

#[test]
fn owner_is_the_first_descriptor_of_the_entry() {
    let metadata = vec![
        t_entry(4, "a", "int64", 0, None),
        t_entry(2, "b", "int64", 0, None),
        t_entry(4, "c", "int64", 0, None),
    ];
    assert_eq!(find_owner(&metadata, 4), Some(0));
    assert_eq!(find_owner(&metadata, 2), Some(1));
    assert_eq!(find_owner(&metadata, 3), None);
    assert_eq!(find_owner(&vec![], 3), None);
}

#[test]
fn column_layout() {
    let metadata = vec![
        t_entry(1, "a", "int64", 50, None),
        t_entry(2, "b", "double[]", 50, Some((3, 8))),
        t_entry(3, "c", "double[]", 5, Some((3, 8))),
        t_entry(4, "d", "boolean[]", 17, Some((0, 1))),
        t_entry(5, "e", "string[]", 17, None),
    ];
    assert_eq!(start_indices(&metadata), vec![0, 1, 5, 6, 7]);
    assert_eq!(total_columns(&metadata), 8);
    let names: usize = metadata.iter().map(|e| e.fields().len()).sum();
    assert_eq!(names, 8);
    assert_eq!(total_columns(&vec![]), 0);
    assert!(start_indices(&vec![]).is_empty());
    assert_eq!(blank_row(3).len(), 3);
    assert!(blank_row(0).is_empty());
}

#[test]
fn column_names_follow_the_layout() {
    let metadata = vec![
        t_entry(1, "a", "int64", 50, None),
        t_entry(2, "b", "double[]", 50, Some((2, 8))),
        t_entry(3, "c", "string[]", 50, None),
    ];
    assert_eq!(column_names(&metadata), vec!["a", "b/len", "b/[0]", "b/[1]", "c"]);
    assert_eq!(column_names(&metadata).len(), total_columns(&metadata));
    assert!(column_names(&vec![]).is_empty());
}
