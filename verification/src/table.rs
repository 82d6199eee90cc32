//! The timeline table: one row per timestamp, one column group per entry.
//!
//! A row holds its timestamp and the cells of all column groups, in the
//! order of the descriptors; the timestamp is no cell. A cell that no
//! sample filled is `None`.

use vstd::prelude::*;
use crate::error::DecodeError;
use crate::parser::{
    fails_with, parse_array, parse_array_ref_with_len, parse_boolean, parse_double, parse_float,
    parse_int64, parse_string_full, spec_array, spec_boolean, spec_double, spec_float, spec_int64,
    spec_string_array, spec_string_full,
};
use crate::periods::{log_min_timestamp, min_timestamp};
use crate::types::{
    DataType, DataValue, EntryView, MetadataEntry, PayloadView, Record, RecordView, ScalarKind,
    ValueKind, WpiLog, WpiRecord, entries_view, field_names, records_view, strings_view,
    texts_view, values_view,
};

verus! {

/// One cell of the table.
#[derive(Debug, Clone)]
pub enum Cell<'a> {
    /// A scalar sample, or one element of an expanded array.
    Value(DataType<'a>),
    /// The element count of an expanded array sample.
    Length(usize),
    /// A whole fixed-width array sample that is not expanded.
    List(Vec<DataType<'a>>),
    /// A whole text array sample.
    TextList(Vec<&'a str>),
}

pub enum CellView {
    Value(DataValue),
    Length(nat),
    List(Seq<DataValue>),
    TextList(Seq<Seq<u8>>),
}

impl<'a> View for Cell<'a> {
    type V = CellView;

    open spec fn view(&self) -> CellView {
        match *self {
            Cell::Value(v) => CellView::Value(v@),
            Cell::Length(n) => CellView::Length(n as nat),
            Cell::List(vs) => CellView::List(values_view(vs@)),
            Cell::TextList(ts) => CellView::TextList(texts_view(ts@)),
        }
    }
}

/// One row: a timestamp in microseconds and the cells of every column.
#[derive(Debug, Clone)]
pub struct Row<'a> {
    pub timestamp_us: u64,
    pub cells: Vec<Option<Cell<'a>>>,
}

#[verifier::ext_equal]
pub struct RowView {
    pub timestamp_us: u64,
    pub cells: Seq<Option<CellView>>,
}

/// The view of one optional cell.
pub open spec fn cell_view<'a>(c: Option<Cell<'a>>) -> Option<CellView> {
    match c {
        Some(cell) => Some(cell@),
        None => None,
    }
}

/// The views of a run of optional cells, in order.
pub open spec fn cells_view<'a>(cs: Seq<Option<Cell<'a>>>) -> Seq<Option<CellView>> {
    cs.map_values(|c: Option<Cell<'a>>| cell_view(c))
}

impl<'a> View for Row<'a> {
    type V = RowView;

    open spec fn view(&self) -> RowView {
        RowView { timestamp_us: self.timestamp_us, cells: cells_view(self.cells@) }
    }
}

/// The views of a run of rows, in order.
pub open spec fn rows_view<'a>(rows: Seq<Row<'a>>) -> Seq<RowView> {
    rows.map_values(|r: Row<'a>| r@)
}

impl ValueKind {
    /// The element type, for the fixed-width array kinds.
    pub open spec fn spec_element(self) -> Option<ScalarKind> {
        match self {
            ValueKind::BooleanArray => Some(ScalarKind::Boolean),
            ValueKind::Int64Array => Some(ScalarKind::Int64),
            ValueKind::FloatArray => Some(ScalarKind::Float),
            ValueKind::DoubleArray => Some(ScalarKind::Double),
            _ => None,
        }
    }

    /// The element type, for the fixed-width array kinds.
    #[verifier::when_used_as_spec(spec_element)]
    pub fn element(self) -> (r: Option<ScalarKind>)
        ensures
            r == self.spec_element(),
    {
        match self {
            ValueKind::BooleanArray => Some(ScalarKind::Boolean),
            ValueKind::Int64Array => Some(ScalarKind::Int64),
            ValueKind::FloatArray => Some(ScalarKind::Float),
            ValueKind::DoubleArray => Some(ScalarKind::Double),
            _ => None,
        }
    }
}

/// The cells of a fixed-width array sample with the elements `vs`: when
/// the entry is expanded, the element count and then one cell per element,
/// and an error if the count is not the one the descriptor holds; else the
/// whole list in one cell.
pub open spec fn array_cells(e: EntryView, vs: Seq<DataValue>) -> Result<
    Seq<Option<CellView>>,
    DecodeError,
> {
    if e.should_expand() {
        if vs.len() != e.all_same_length.unwrap().0 {
            Err(DecodeError::ArrayLengthMismatch)
        } else {
            Ok(
                seq![Some(CellView::Length(vs.len()))] + vs.map_values(
                    |v: DataValue| Some(CellView::Value(v)),
                ),
            )
        }
    } else {
        Ok(seq![Some(CellView::List(vs))])
    }
}

/// The cell that a payload of the given kind decodes to, before any
/// expansion into columns: a scalar, a list of scalars or a list of texts.
pub open spec fn spec_value(kind: ValueKind, payload: Seq<u8>) -> Result<CellView, DecodeError> {
    match kind {
        ValueKind::Boolean => match spec_boolean(payload) {
            Ok(p) => Ok(CellView::Value(DataValue::Boolean(p.0))),
            Err(x) => Err(x),
        },
        ValueKind::Int64 => match spec_int64(payload) {
            Ok(p) => Ok(CellView::Value(DataValue::Int64(p.0))),
            Err(x) => Err(x),
        },
        ValueKind::Float => match spec_float(payload) {
            Ok(p) => Ok(CellView::Value(DataValue::Float(p.0))),
            Err(x) => Err(x),
        },
        ValueKind::Double => match spec_double(payload) {
            Ok(p) => Ok(CellView::Value(DataValue::Double(p.0))),
            Err(x) => Err(x),
        },
        ValueKind::Text => match spec_string_full(payload) {
            Ok(p) => Ok(CellView::Value(DataValue::Text(p.0))),
            Err(x) => Err(x),
        },
        ValueKind::TextArray => match spec_string_array(payload) {
            Ok(p) => Ok(CellView::TextList(p.0)),
            Err(x) => Err(x),
        },
        ValueKind::Opaque => Ok(CellView::Value(DataValue::Raw(payload))),
        _ => match spec_array(kind.spec_element().unwrap(), payload) {
            Ok(p) => Ok(CellView::List(p.0)),
            Err(x) => Err(x),
        },
    }
}

/// The cells that a sample with the given payload puts into the column
/// group of the entry `e`: its value, spread over the columns when it is
/// a list and the entry is expanded.
pub open spec fn sample_cells(e: EntryView, payload: Seq<u8>) -> Result<
    Seq<Option<CellView>>,
    DecodeError,
> {
    match spec_value(e.kind, payload) {
        Err(x) => Err(x),
        Ok(CellView::List(vs)) => array_cells(e, vs),
        Ok(cell) => Ok(seq![Some(cell)]),
    }
}

/// `row` with the run `cells` written over it from position `start` on.
pub open spec fn place(
    row: Seq<Option<CellView>>,
    start: int,
    cells: Seq<Option<CellView>>,
) -> Seq<Option<CellView>> {
    Seq::new(
        row.len(),
        |i: int|
            if start <= i < start + cells.len() {
                cells[i - start]
            } else {
                row[i]
            },
    )
}

/// A sample never yields more cells than its entry has columns.
pub proof fn lemma_sample_cells_fit(e: EntryView, payload: Seq<u8>)
    ensures
        sample_cells(e, payload) matches Ok(cells) ==> 1 <= cells.len() <= e.field_count(),
{
}

/// Decodes a payload by the kind of its entry.
pub fn decode_value<'a>(kind: ValueKind, data: &'a [u8]) -> (r: Result<Cell<'a>, DecodeError>)
    ensures
        match spec_value(kind, data@) {
            Ok(cell) => r matches Ok(c) && c@ == cell,
            Err(e) => fails_with(r, e),
        },
{
    match kind {
        ValueKind::Boolean => Ok(Cell::Value(DataType::Boolean(parse_boolean(data)?.1))),
        ValueKind::Int64 => Ok(Cell::Value(DataType::Int64(parse_int64(data)?.1))),
        ValueKind::Float => Ok(Cell::Value(DataType::Float(parse_float(data)?.1))),
        ValueKind::Double => Ok(Cell::Value(DataType::Double(parse_double(data)?.1))),
        ValueKind::Text => Ok(Cell::Value(DataType::String(parse_string_full(data)?.1))),
        ValueKind::TextArray => Ok(Cell::TextList(parse_array_ref_with_len(data)?.1)),
        ValueKind::Opaque => Ok(Cell::Value(DataType::Raw(data))),
        _ => {
            let element = match kind.element() {
                Some(k) => k,
                None => {
                    return Err(DecodeError::ArrayLengthMismatch);
                },
            };
            Ok(Cell::List(parse_array(element, data)?.1))
        },
    }
}

/// Decodes one sample into the cells of its entry's column group.
pub fn decode_sample<'a>(entry: &MetadataEntry<'a>, data: &'a [u8]) -> (r: Result<
    Vec<Option<Cell<'a>>>,
    DecodeError,
>)
    ensures
        match sample_cells(entry@, data@) {
            Ok(cells) => r matches Ok(v) && cells_view(v@) == cells,
            Err(e) => fails_with(r, e),
        },
{
    let mut out: Vec<Option<Cell<'a>>> = Vec::new();
    match decode_value(entry.kind, data)? {
        Cell::List(values) => {
            if entry.should_expand() {
                let slots = match entry.all_same_length {
                    Some(shape) => shape.0,
                    None => 0,
                };
                if values.len() != slots {
                    return Err(DecodeError::ArrayLengthMismatch);
                }
                out.push(Some(Cell::Length(values.len())));
                let mut k: usize = 0;
                while k < values.len()
                    invariant
                        k <= values@.len(),
                        out@.len() == k + 1,
                        cell_view(out@[0]) == Some(CellView::Length(values@.len() as nat)),
                        forall|j: int|
                            0 <= j < k ==> cell_view(#[trigger] out@[j + 1]) == Some(
                                CellView::Value(values@[j]@),
                            ),
                    decreases values@.len() - k,
                {
                    out.push(Some(Cell::Value(values[k])));
                    k = k + 1;
                }
                proof {
                    let vs = values_view(values@);
                    let expected = seq![Some(CellView::Length(vs.len()))] + vs.map_values(
                        |v: DataValue| Some(CellView::Value(v)),
                    );
                    assert(cells_view(out@).len() == expected.len());
                    assert forall|j: int| 0 <= j < expected.len() implies cells_view(out@)[j]
                        == expected[j] by {
                        if j > 0 {
                            assert(cell_view(out@[(j - 1) + 1]) == Some(
                                CellView::Value(values@[j - 1]@),
                            ));
                        }
                    }
                    assert(cells_view(out@) =~= expected);
                }
            } else {
                out.push(Some(Cell::List(values)));
                assert(cells_view(out@) =~= seq![cell_view(out@[0])]);
            }
        },
        cell => {
            out.push(Some(cell));
            assert(cells_view(out@) =~= seq![cell_view(out@[0])]);
        },
    }
    Ok(out)
}

/// Number of columns that the descriptors before position `i` take.
pub open spec fn columns_before(es: Seq<EntryView>, i: int) -> nat
    decreases i,
{
    if i <= 0 {
        0
    } else {
        columns_before(es, i - 1) + es[i - 1].field_count()
    }
}

/// Number of columns of the table, the timestamp not counted.
pub open spec fn column_count(es: Seq<EntryView>) -> nat {
    columns_before(es, es.len() as int)
}

/// Column groups lie one after the other inside the table.
pub proof fn lemma_columns_fit(es: Seq<EntryView>, i: int)
    requires
        0 <= i < es.len(),
    ensures
        columns_before(es, i) + es[i].field_count() <= column_count(es),
    decreases es.len() - i,
{
    if i + 1 < es.len() {
        lemma_columns_fit(es, i + 1);
    }
}

/// A row of `width` empty cells.
pub open spec fn blank_cells(width: nat) -> Seq<Option<CellView>> {
    Seq::new(width, |i: int| None::<CellView>)
}

/// Descriptor `i` is the first one of entry `id`.
pub open spec fn is_owner(es: Seq<EntryView>, id: u32, i: int) -> bool {
    &&& 0 <= i < es.len()
    &&& es[i].entry_id == id
    &&& forall|k: int| 0 <= k < i ==> (#[trigger] es[k]).entry_id != id
}

/// The first descriptor of entry `id`, if there is one.
pub open spec fn owner(es: Seq<EntryView>, id: u32) -> Option<int> {
    if exists|i: int| is_owner(es, id, i) {
        Some(choose|i: int| is_owner(es, id, i))
    } else {
        None
    }
}

/// The position of the first descriptor of entry `id`.
pub fn find_owner<'a>(metadata: &Vec<MetadataEntry<'a>>, id: u32) -> (r: Option<usize>)
    ensures
        match owner(entries_view(metadata@), id) {
            Some(i) => r matches Some(k) && k as int == i && i < metadata@.len(),
            None => r is None,
        },
{
    let ghost es = entries_view(metadata@);
    let mut i: usize = 0;
    while i < metadata.len()
        invariant
            i <= metadata@.len(),
            es == entries_view(metadata@),
            forall|k: int| 0 <= k < i ==> (#[trigger] es[k]).entry_id != id,
        decreases metadata@.len() - i,
    {
        assert(es[i as int] == metadata@[i as int]@);
        if metadata[i].entry_id == id {
            proof {
                assert(is_owner(es, id, i as int));
                let c = choose|c: int| is_owner(es, id, c);
                assert(c == i) by {
                    if c < i {
                        assert(es[c].entry_id != id);
                    }
                    if c > i {
                        assert(es[i as int].entry_id != id);
                    }
                }
            }
            return Some(i);
        }
        i = i + 1;
    }
    proof {
        assert forall|c: int| !is_owner(es, id, c) by {
            if 0 <= c < es.len() {
                assert(es[c].entry_id != id);
            }
        }
    }
    None
}

/// For each descriptor the column at which its group starts.
pub fn start_indices<'a>(metadata: &Vec<MetadataEntry<'a>>) -> (r: Vec<usize>)
    requires
        column_count(entries_view(metadata@)) <= usize::MAX,
    ensures
        r@.len() == metadata@.len(),
        forall|i: int|
            0 <= i < r@.len() ==> #[trigger] r@[i] == columns_before(entries_view(metadata@), i),
{
    let ghost es = entries_view(metadata@);
    let mut out: Vec<usize> = Vec::new();
    let mut next: usize = 0;
    let mut i: usize = 0;
    while i < metadata.len()
        invariant
            i <= metadata@.len(),
            es == entries_view(metadata@),
            column_count(es) <= usize::MAX,
            out@.len() == i,
            next == columns_before(es, i as int),
            forall|k: int| 0 <= k < i ==> #[trigger] out@[k] == columns_before(es, k),
        decreases metadata@.len() - i,
    {
        proof {
            lemma_columns_fit(es, i as int);
            assert(es[i as int] == metadata@[i as int]@);
        }
        out.push(next);
        next = next + metadata[i].field_count();
        i = i + 1;
    }
    out
}

/// Number of columns of the table, the timestamp not counted.
pub fn total_columns<'a>(metadata: &Vec<MetadataEntry<'a>>) -> (r: usize)
    requires
        column_count(entries_view(metadata@)) <= usize::MAX,
    ensures
        r == column_count(entries_view(metadata@)),
{
    let ghost es = entries_view(metadata@);
    let mut total: usize = 0;
    let mut i: usize = 0;
    while i < metadata.len()
        invariant
            i <= metadata@.len(),
            es == entries_view(metadata@),
            column_count(es) <= usize::MAX,
            total == columns_before(es, i as int),
        decreases metadata@.len() - i,
    {
        proof {
            lemma_columns_fit(es, i as int);
            assert(es[i as int] == metadata@[i as int]@);
        }
        total = total + metadata[i].field_count();
        i = i + 1;
    }
    total
}

/// A row of `width` empty cells.
pub fn blank_row<'a>(width: usize) -> (r: Vec<Option<Cell<'a>>>)
    ensures
        cells_view(r@) == blank_cells(width as nat),
{
    let mut out: Vec<Option<Cell<'a>>> = Vec::new();
    let mut i: usize = 0;
    while i < width
        invariant
            i <= width,
            out@.len() == i,
            forall|k: int| 0 <= k < i ==> #[trigger] out@[k] is None,
        decreases width - i,
    {
        out.push(None);
        i = i + 1;
    }
    assert(cells_view(out@) =~= blank_cells(width as nat));
    out
}

/// Decodes one sample of `metadata` and writes its cells into `row`, from
/// column `start` on. When the sample does not decode, `row` stays as it is.
pub fn insert_data_into_row<'a>(
    data: &'a [u8],
    metadata: &MetadataEntry<'a>,
    row: &mut Vec<Option<Cell<'a>>>,
    start: usize,
) -> (r: Result<(), DecodeError>)
    requires
        start + metadata@.field_count() <= old(row)@.len(),
    ensures
        match sample_cells(metadata@, data@) {
            Ok(cells) => r is Ok && cells_view(final(row)@) == place(
                cells_view(old(row)@),
                start as int,
                cells,
            ),
            Err(e) => fails_with(r, e) && final(row)@ == old(row)@,
        },
{
    let mut cells = decode_sample(metadata, data)?;
    let ghost wanted = cells_view(cells@);
    let ghost before = cells_view(row@);
    let width = row.len();
    proof {
        lemma_sample_cells_fit(metadata@, data@);
    }
    while cells.len() > 0
        invariant
            row@.len() == width,
            cells@.len() <= wanted.len(),
            start + wanted.len() <= row@.len(),
            row@.len() == before.len(),
            cells_view(cells@) == wanted.take(cells@.len() as int),
            forall|i: int|
                0 <= i < row@.len() ==> cell_view(#[trigger] row@[i]) == if start + cells@.len()
                    <= i < start + wanted.len() {
                    wanted[i - start]
                } else {
                    before[i]
                },
        decreases cells@.len(),
    {
        let ghost n = cells@.len();
        let ghost prior = cells@;
        let cell = cells.pop().unwrap();
        proof {
            assert(cells_view(prior)[n - 1] == cell_view(cell));
            assert(cells_view(cells@) =~= wanted.take(cells@.len() as int));
        }
        row.set(start + cells.len(), cell);
    }
    proof {
        assert(cells_view(row@) =~= place(before, start as int, wanted));
    }
    Ok(())
}

/// The table under construction: the finished rows and the row that
/// records of the current timestamp are still filling.
#[verifier::ext_equal]
pub struct Assembly {
    pub rows: Seq<RowView>,
    pub pending: Option<RowView>,
}

/// The table after one more record. Only a data record inside
/// `from..=to` whose entry has a descriptor counts. It fills the pending
/// row if that row has its timestamp; else the pending row is finished and
/// a blank row is begun for it.
pub open spec fn step_rows(
    state: Result<Assembly, DecodeError>,
    r: RecordView,
    es: Seq<EntryView>,
    from: u64,
    to: u64,
) -> Result<Assembly, DecodeError> {
    match state {
        Err(e) => Err(e),
        Ok(a) => match r.data {
            PayloadView::Control(_) => Ok(a),
            PayloadView::Data(d) => if !(from <= r.timestamp_us <= to) {
                Ok(a)
            } else {
                match owner(es, r.entry_id) {
                    None => Ok(a),
                    Some(i) => match sample_cells(es[i], d) {
                        Err(e) => Err(e),
                        Ok(cells) => Ok(fill(a, r.timestamp_us, columns_before(es, i) as int, cells, column_count(es))),
                    },
                }
            },
        },
    }
}

/// The table after a sample at `timestamp` put `cells` at column `start`.
pub open spec fn fill(
    a: Assembly,
    timestamp: u64,
    start: int,
    cells: Seq<Option<CellView>>,
    width: nat,
) -> Assembly {
    match a.pending {
        Some(p) => if p.timestamp_us == timestamp {
            Assembly {
                rows: a.rows,
                pending: Some(
                    RowView { timestamp_us: timestamp, cells: place(p.cells, start, cells) },
                ),
            }
        } else {
            Assembly {
                rows: a.rows.push(p),
                pending: Some(
                    RowView {
                        timestamp_us: timestamp,
                        cells: place(blank_cells(width), start, cells),
                    },
                ),
            }
        },
        None => Assembly {
            rows: a.rows,
            pending: Some(
                RowView { timestamp_us: timestamp, cells: place(blank_cells(width), start, cells) },
            ),
        },
    }
}

/// The table after all of `rs`, taken in order; the first sample that
/// does not decode is the error.
pub open spec fn fold_rows(rs: Seq<RecordView>, es: Seq<EntryView>, from: u64, to: u64) -> Result<
    Assembly,
    DecodeError,
>
    decreases rs.len(),
{
    if rs.len() == 0 {
        Ok(Assembly { rows: Seq::empty(), pending: None })
    } else {
        step_rows(fold_rows(rs.drop_last(), es, from, to), rs.last(), es, from, to)
    }
}

/// The rows for the samples inside `from..=to`: one row per run of
/// samples that share a timestamp, in log order.
pub open spec fn table_rows(rs: Seq<RecordView>, es: Seq<EntryView>, from: u64, to: u64) -> Result<
    Seq<RowView>,
    DecodeError,
> {
    match fold_rows(rs, es, from, to) {
        Err(e) => Err(e),
        Ok(a) => match a.pending {
            Some(p) => Ok(a.rows.push(p)),
            None => Ok(a.rows),
        },
    }
}

/// Once a prefix of the records fails, every longer prefix fails alike.
pub proof fn lemma_fold_rows_error_stays(
    rs: Seq<RecordView>,
    es: Seq<EntryView>,
    from: u64,
    to: u64,
    n: int,
)
    requires
        0 <= n <= rs.len(),
        fold_rows(rs.take(n), es, from, to) is Err,
    ensures
        fold_rows(rs, es, from, to) == fold_rows(rs.take(n), es, from, to),
    decreases rs.len() - n,
{
    if n == rs.len() {
        assert(rs.take(n) =~= rs);
    } else {
        let next = rs.take(n + 1);
        assert(next.drop_last() =~= rs.take(n));
        lemma_fold_rows_error_stays(rs, es, from, to, n + 1);
    }
}

/// The table that the builder's variables stand for.
pub open spec fn assembly_of<'a>(
    rows: Seq<Row<'a>>,
    current: Seq<Option<Cell<'a>>>,
    current_timestamp: u64,
    has_current: bool,
) -> Assembly {
    Assembly {
        rows: rows_view(rows),
        pending: if has_current {
            Some(RowView { timestamp_us: current_timestamp, cells: cells_view(current) })
        } else {
            None
        },
    }
}

/// Finishes the pending row, if there is one, and begins a blank one.
fn flush_row<'a>(
    rows: &mut Vec<Row<'a>>,
    current: &mut Vec<Option<Cell<'a>>>,
    current_timestamp: u64,
    has_current: bool,
    width: usize,
)
    requires
        old(current)@.len() == width,
        !has_current ==> cells_view(old(current)@) == blank_cells(width as nat),
    ensures
        final(current)@.len() == width,
        cells_view(final(current)@) == blank_cells(width as nat),
        rows_view(final(rows)@) == if has_current {
            rows_view(old(rows)@).push(
                RowView { timestamp_us: current_timestamp, cells: cells_view(old(current)@) },
            )
        } else {
            rows_view(old(rows)@)
        },
{
    if has_current {
        let mut finished = blank_row(width);
        std::mem::swap(&mut finished, current);
        let row = Row { timestamp_us: current_timestamp, cells: finished };
        proof {
            assert(rows_view(rows@.push(row)) =~= rows_view(rows@).push(row@));
            assert(cells_view(current@).len() == current@.len());
        }
        rows.push(row);
    }
}

/// Builds the rows for the samples inside `from..=to`.
pub fn build_rows<'a>(
    records: &Vec<WpiRecord<'a>>,
    metadata: &Vec<MetadataEntry<'a>>,
    from: u64,
    to: u64,
) -> (r: Result<Vec<Row<'a>>, DecodeError>)
    requires
        column_count(entries_view(metadata@)) <= usize::MAX,
    ensures
        match table_rows(records_view(records@), entries_view(metadata@), from, to) {
            Ok(rows) => r matches Ok(v) && rows_view(v@) == rows,
            Err(e) => fails_with(r, e),
        },
{
    let ghost rs = records_view(records@);
    let ghost es = entries_view(metadata@);
    let starts = start_indices(metadata);
    let width = total_columns(metadata);
    let mut rows: Vec<Row<'a>> = Vec::new();
    let mut current: Vec<Option<Cell<'a>>> = blank_row(width);
    let mut current_timestamp: u64 = 0;
    let mut has_current = false;
    let mut i: usize = 0;
    proof {
        assert(rs.take(0) =~= Seq::<RecordView>::empty());
        assert(rows_view(rows@) =~= Seq::<RowView>::empty());
        assert(cells_view(current@).len() == current@.len());
    }
    while i < records.len()
        invariant
            i <= records@.len(),
            rs == records_view(records@),
            es == entries_view(metadata@),
            width == column_count(es),
            starts@.len() == metadata@.len(),
            forall|k: int| 0 <= k < starts@.len() ==> #[trigger] starts@[k] == columns_before(es, k),
            current@.len() == width,
            !has_current ==> cells_view(current@) == blank_cells(width as nat),
            fold_rows(rs.take(i as int), es, from, to) == Ok::<Assembly, DecodeError>(
                assembly_of(rows@, current@, current_timestamp, has_current),
            ),
        decreases records@.len() - i,
    {
        let ghost before = assembly_of(rows@, current@, current_timestamp, has_current);
        proof {
            let next = rs.take(i + 1);
            assert(next.drop_last() =~= rs.take(i as int));
            assert(next.last() == records@[i as int]@);
            assert(fold_rows(next, es, from, to) == step_rows(
                Ok(before),
                records@[i as int]@,
                es,
                from,
                to,
            ));
        }
        let record = &records[i];
        match record.data {
            Record::Control(_) => {},
            Record::Data(d) => {
                if from <= record.timestamp_us && record.timestamp_us <= to {
                    match find_owner(metadata, record.entry_id) {
                        None => {},
                        Some(index) => {
                            proof {
                                lemma_columns_fit(es, index as int);
                                assert(es[index as int] == metadata@[index as int]@);
                            }
                            let carried = has_current && current_timestamp == record.timestamp_us;
                            if !carried {
                                flush_row(
                                    &mut rows,
                                    &mut current,
                                    current_timestamp,
                                    has_current,
                                    width,
                                );
                            }
                            match insert_data_into_row(
                                d.data,
                                &metadata[index],
                                &mut current,
                                starts[index],
                            ) {
                                Err(e) => {
                                    proof {
                                        lemma_fold_rows_error_stays(rs, es, from, to, i + 1);
                                    }
                                    return Err(e);
                                },
                                Ok(()) => {
                                    has_current = true;
                                    current_timestamp = record.timestamp_us;
                                    proof {
                                        let cells = sample_cells(es[index as int], d.data@).unwrap();
                                        let after = assembly_of(
                                            rows@,
                                            current@,
                                            current_timestamp,
                                            has_current,
                                        );
                                        assert(cells_view(current@).len() == current@.len());
                                        assert(after =~= fill(
                                            before,
                                            record.timestamp_us,
                                            columns_before(es, index as int) as int,
                                            cells,
                                            column_count(es),
                                        ));
                                    }
                                },
                            }
                        },
                    }
                }
            },
        }
        i = i + 1;
    }
    proof {
        assert(rs.take(i as int) =~= rs);
    }
    flush_row(&mut rows, &mut current, current_timestamp, has_current, width);
    Ok(rows)
}

impl<'a> WpiLog<'a> {
    /// The table of the whole log: one row per run of samples that share a
    /// timestamp, for the entries that have a descriptor.
    pub fn export_rows(&self, metadata: &Vec<MetadataEntry<'a>>) -> (r: Result<
        Vec<Row<'a>>,
        DecodeError,
    >)
        requires
            column_count(entries_view(metadata@)) <= usize::MAX,
        ensures
            match table_rows(self@.records, entries_view(metadata@), 0, u64::MAX) {
                Ok(rows) => r matches Ok(v) && rows_view(v@) == rows,
                Err(e) => fails_with(r, e),
            },
    {
        build_rows(&self.records, metadata, 0, u64::MAX)
    }
}

/// The record `r` is a sample before `limit` that belongs to descriptor `i`.
pub open spec fn is_prior_sample(r: RecordView, es: Seq<EntryView>, i: int, limit: u64) -> bool {
    r.data is Data && r.timestamp_us < limit && owner(es, r.entry_id) == Some(i)
}

/// Among the first `n` records, the position of the last sample before
/// `limit` that belongs to descriptor `i`.
pub open spec fn latest_before(
    rs: Seq<RecordView>,
    es: Seq<EntryView>,
    i: int,
    limit: u64,
    n: int,
) -> Option<int>
    decreases n,
{
    if n <= 0 {
        None
    } else if is_prior_sample(rs[n - 1], es, i, limit) {
        Some(n - 1)
    } else {
        latest_before(rs, es, i, limit, n - 1)
    }
}

/// For each descriptor, the position of its last sample before `limit`.
pub open spec fn snapshot(rs: Seq<RecordView>, es: Seq<EntryView>, limit: u64) -> Seq<Option<int>> {
    Seq::new(es.len(), |i: int| latest_before(rs, es, i, limit, rs.len() as int))
}

/// The positions held in `state`, as integers.
pub open spec fn snapshot_view(state: Seq<Option<usize>>) -> Seq<Option<int>> {
    state.map_values(
        |p: Option<usize>|
            match p {
                Some(k) => Some(k as int),
                None => None,
            },
    )
}

/// What a snapshot holds is the position of a data record.
pub proof fn lemma_latest_is_sample(
    rs: Seq<RecordView>,
    es: Seq<EntryView>,
    i: int,
    limit: u64,
    n: int,
)
    requires
        n <= rs.len(),
    ensures
        latest_before(rs, es, i, limit, n) matches Some(k) ==> 0 <= k < n && rs[k].data is Data,
    decreases n,
{
    if n > 0 && !is_prior_sample(rs[n - 1], es, i, limit) {
        lemma_latest_is_sample(rs, es, i, limit, n - 1);
    }
}

/// The state just before `ts`: for each descriptor the position in
/// `log` of its last sample with a timestamp below `ts`, if it has one.
pub fn state_before_timestamp<'a>(
    log: &Vec<WpiRecord<'a>>,
    metadata: &Vec<MetadataEntry<'a>>,
    ts: u64,
) -> (state: Vec<Option<usize>>)
    ensures
        snapshot_view(state@) == snapshot(records_view(log@), entries_view(metadata@), ts),
{
    let ghost rs = records_view(log@);
    let ghost es = entries_view(metadata@);
    let mut state: Vec<Option<usize>> = Vec::new();
    let mut j: usize = 0;
    while j < metadata.len()
        invariant
            j <= metadata@.len(),
            state@.len() == j,
            forall|k: int| 0 <= k < j ==> #[trigger] state@[k] is None,
        decreases metadata@.len() - j,
    {
        state.push(None);
        j = j + 1;
    }
    let mut n: usize = 0;
    while n < log.len()
        invariant
            n <= log@.len(),
            rs == records_view(log@),
            es == entries_view(metadata@),
            state@.len() == metadata@.len(),
            forall|i: int|
                0 <= i < state@.len() ==> snapshot_view(state@)[i] == latest_before(
                    rs,
                    es,
                    i,
                    ts,
                    n as int,
                ),
        decreases log@.len() - n,
    {
        let record = &log[n];
        assert(rs[n as int] == log@[n as int]@);
        let ghost before = state@;
        match record.data {
            Record::Data(_) => {
                if record.timestamp_us < ts {
                    match find_owner(metadata, record.entry_id) {
                        Some(index) => {
                            state.set(index, Some(n));
                        },
                        None => {},
                    }
                }
            },
            Record::Control(_) => {},
        }
        proof {
            assert forall|i: int| 0 <= i < state@.len() implies snapshot_view(state@)[i]
                == latest_before(rs, es, i, ts, n + 1) by {
                assert(snapshot_view(before)[i] == latest_before(rs, es, i, ts, n as int));
            }
        }
        n = n + 1;
    }
    assert(snapshot_view(state@) =~= snapshot(rs, es, ts));
    state
}

/// The cells of the seed row after the first `n` descriptors put in the
/// sample that `snap` holds for them.
pub open spec fn seed_fold(
    rs: Seq<RecordView>,
    es: Seq<EntryView>,
    snap: Seq<Option<int>>,
    n: int,
) -> Result<Seq<Option<CellView>>, DecodeError>
    decreases n,
{
    if n <= 0 {
        Ok(blank_cells(column_count(es)))
    } else {
        match seed_fold(rs, es, snap, n - 1) {
            Err(e) => Err(e),
            Ok(row) => match snap[n - 1] {
                None => Ok(row),
                Some(k) => match rs[k].data {
                    PayloadView::Control(_) => Ok(row),
                    PayloadView::Data(d) => match sample_cells(es[n - 1], d) {
                        Err(e) => Err(e),
                        Ok(cells) => Ok(place(row, columns_before(es, n - 1) as int, cells)),
                    },
                },
            },
        }
    }
}

/// The timestamp of the seed row: the start of the window, or the log's
/// smallest timestamp when the window starts before the log does.
pub open spec fn seed_timestamp(rs: Seq<RecordView>, start: u64) -> u64 {
    if start < min_timestamp(rs) {
        min_timestamp(rs)
    } else {
        start
    }
}

/// The rows of a windowed export: the seed row, which holds for each
/// entry its last sample before `start`, then the rows for the samples
/// inside `start..=end`.
pub open spec fn windowed_rows(rs: Seq<RecordView>, es: Seq<EntryView>, start: u64, end: u64) -> Result<
    Seq<RowView>,
    DecodeError,
> {
    match seed_fold(rs, es, snapshot(rs, es, start), es.len() as int) {
        Err(e) => Err(e),
        Ok(cells) => match table_rows(rs, es, start, end) {
            Err(e) => Err(e),
            Ok(rows) => Ok(
                seq![RowView { timestamp_us: seed_timestamp(rs, start), cells }] + rows,
            ),
        },
    }
}

/// Once the seed row fails at some descriptor, it fails.
pub proof fn lemma_seed_error_stays(
    rs: Seq<RecordView>,
    es: Seq<EntryView>,
    snap: Seq<Option<int>>,
    n: int,
    m: int,
)
    requires
        0 <= n <= m,
        seed_fold(rs, es, snap, n) is Err,
    ensures
        seed_fold(rs, es, snap, m) == seed_fold(rs, es, snap, n),
    decreases m - n,
{
    if n < m {
        lemma_seed_error_stays(rs, es, snap, n, m - 1);
    }
}

/// Builds the windowed table for `start..=end`.
pub fn export_data<'a>(
    log: &Vec<WpiRecord<'a>>,
    metadata: &Vec<MetadataEntry<'a>>,
    start: u64,
    end: u64,
) -> (r: Result<Vec<Row<'a>>, DecodeError>)
    requires
        column_count(entries_view(metadata@)) <= usize::MAX,
    ensures
        match windowed_rows(records_view(log@), entries_view(metadata@), start, end) {
            Ok(rows) => r matches Ok(v) && rows_view(v@) == rows,
            Err(e) => fails_with(r, e),
        },
{
    let ghost rs = records_view(log@);
    let ghost es = entries_view(metadata@);
    let starts = start_indices(metadata);
    let width = total_columns(metadata);
    let state = state_before_timestamp(log, metadata, start);
    let ghost snap = snapshot(rs, es, start);
    assert(state@.len() == snapshot_view(state@).len());
    let mut seed: Vec<Option<Cell<'a>>> = blank_row(width);
    let mut i: usize = 0;
    assert(cells_view(seed@).len() == seed@.len());
    while i < metadata.len()
        invariant
            i <= metadata@.len(),
            rs == records_view(log@),
            es == entries_view(metadata@),
            snap == snapshot(rs, es, start),
            snapshot_view(state@) == snap,
            state@.len() == metadata@.len(),
            width == column_count(es),
            starts@.len() == metadata@.len(),
            forall|k: int| 0 <= k < starts@.len() ==> #[trigger] starts@[k] == columns_before(es, k),
            seed@.len() == width,
            seed_fold(rs, es, snap, i as int) == Ok::<Seq<Option<CellView>>, DecodeError>(
                cells_view(seed@),
            ),
        decreases metadata@.len() - i,
    {
        proof {
            lemma_columns_fit(es, i as int);
            assert(es[i as int] == metadata@[i as int]@);
            assert(snapshot_view(state@)[i as int] == snap[i as int]);
            lemma_latest_is_sample(rs, es, i as int, start, rs.len() as int);
        }
        match state[i] {
            None => {},
            Some(k) => {
                assert(snap[i as int] == Some(k as int));
                assert(rs[k as int] == log@[k as int]@);
                match log[k].data {
                    Record::Control(_) => {},
                    Record::Data(d) => {
                        match insert_data_into_row(d.data, &metadata[i], &mut seed, starts[i]) {
                            Err(e) => {
                                proof {
                                    lemma_seed_error_stays(
                                        rs,
                                        es,
                                        snap,
                                        i + 1,
                                        es.len() as int,
                                    );
                                }
                                return Err(e);
                            },
                            Ok(()) => {
                                assert(cells_view(seed@).len() == seed@.len());
                            },
                        }
                    },
                }
            },
        }
        i = i + 1;
    }
    let min = log_min_timestamp(log);
    let seed_time = if start < min {
        min
    } else {
        start
    };
    let first = Row { timestamp_us: seed_time, cells: seed };
    let mut rows: Vec<Row<'a>> = Vec::new();
    rows.push(first);
    let mut body = build_rows(log, metadata, start, end)?;
    let ghost head = rows@;
    let ghost rest = body@;
    rows.append(&mut body);
    proof {
        assert(rows@ =~= head + rest);
        assert(rows_view(rows@) =~= seq![first@] + rows_view(rest));
    }
    Ok(rows)
}

/// The column names of the first `n` descriptors, one after the other.
pub open spec fn names_before<'a>(metadata: Seq<MetadataEntry<'a>>, n: int) -> Seq<Seq<char>>
    decreases n,
{
    if n <= 0 {
        Seq::empty()
    } else {
        names_before(metadata, n - 1) + entry_names(metadata[n - 1])
    }
}

/// The column names of one descriptor.
pub open spec fn entry_names<'a>(entry: MetadataEntry<'a>) -> Seq<Seq<char>> {
    field_names(
        entry.name@,
        entry@.should_expand(),
        match entry@.all_same_length {
            Some(shape) => shape.0,
            None => 0,
        },
    )
}

/// A descriptor has one name per column.
pub proof fn lemma_names_fit<'a>(metadata: Seq<MetadataEntry<'a>>, n: int)
    requires
        0 <= n <= metadata.len(),
    ensures
        names_before(metadata, n).len() == columns_before(entries_view(metadata), n),
    decreases n,
{
    if n > 0 {
        lemma_names_fit(metadata, n - 1);
        assert(entries_view(metadata)[n - 1] == metadata[n - 1]@);
    }
}

/// The name of every column of the table, the timestamp column not
/// counted: as many names as a row has cells.
pub fn column_names<'a>(metadata: &Vec<MetadataEntry<'a>>) -> (names: Vec<String>)
    ensures
        strings_view(names@) == names_before(metadata@, metadata@.len() as int),
        names@.len() == column_count(entries_view(metadata@)),
{
    let mut names: Vec<String> = Vec::new();
    let mut i: usize = 0;
    assert(strings_view(names@) =~= Seq::<Seq<char>>::empty());
    while i < metadata.len()
        invariant
            i <= metadata@.len(),
            strings_view(names@) == names_before(metadata@, i as int),
        decreases metadata@.len() - i,
    {
        let mut fields = metadata[i].fields();
        let ghost head = names@;
        let ghost more = fields@;
        names.append(&mut fields);
        proof {
            assert(names@ =~= head + more);
            assert(strings_view(names@) =~= strings_view(head) + strings_view(more));
        }
        i = i + 1;
    }
    proof {
        lemma_names_fit(metadata@, metadata@.len() as int);
        assert(strings_view(names@).len() == names@.len());
    }
    names
}

/// The rows are well-formed for a table of `width` columns over the
/// window `from..=to`: every row has all the columns, lies inside the
/// window, and has another timestamp than the row before it.
pub open spec fn rows_ok(rows: Seq<RowView>, width: nat, from: u64, to: u64) -> bool {
    &&& forall|i: int|
        0 <= i < rows.len() ==> (#[trigger] rows[i]).cells.len() == width && from
            <= rows[i].timestamp_us <= to
    &&& forall|i: int|
        0 < i < rows.len() ==> (#[trigger] rows[i]).timestamp_us != rows[i - 1].timestamp_us
}

/// The table under construction is well-formed: its rows are, with the
/// pending row as the last of them.
pub open spec fn assembly_ok(a: Assembly, width: nat, from: u64, to: u64) -> bool {
    match a.pending {
        Some(p) => rows_ok(a.rows.push(p), width, from, to),
        None => a.rows.len() == 0,
    }
}

/// Filling a sample into a well-formed table keeps it well-formed.
pub proof fn lemma_fill_ok(
    a: Assembly,
    timestamp: u64,
    start: int,
    cells: Seq<Option<CellView>>,
    width: nat,
    from: u64,
    to: u64,
)
    requires
        assembly_ok(a, width, from, to),
        from <= timestamp <= to,
    ensures
        assembly_ok(fill(a, timestamp, start, cells, width), width, from, to),
{
    let b = fill(a, timestamp, start, cells, width);
    let after = b.rows.push(b.pending.unwrap());
    match a.pending {
        Some(p) => {
            let before = a.rows.push(p);
            if p.timestamp_us == timestamp {
                assert forall|i: int| 0 <= i < after.len() implies (#[trigger] after[i]).cells.len()
                    == width && from <= after[i].timestamp_us <= to by {
                    assert(before[i].cells.len() == width);
                }
                assert forall|i: int| 0 < i < after.len() implies (#[trigger] after[i]).timestamp_us
                    != after[i - 1].timestamp_us by {
                    assert(before[i].timestamp_us != before[i - 1].timestamp_us);
                }
            } else {
                assert forall|i: int| 0 <= i < after.len() implies (#[trigger] after[i]).cells.len()
                    == width && from <= after[i].timestamp_us <= to by {
                    if i < before.len() {
                        assert(before[i].cells.len() == width);
                    }
                }
                assert forall|i: int| 0 < i < after.len() implies (#[trigger] after[i]).timestamp_us
                    != after[i - 1].timestamp_us by {
                    if i < before.len() {
                        assert(before[i].timestamp_us != before[i - 1].timestamp_us);
                    }
                }
            }
        },
        None => {},
    }
}

/// The table stays well-formed record after record.
pub proof fn lemma_fold_rows_ok(rs: Seq<RecordView>, es: Seq<EntryView>, from: u64, to: u64)
    ensures
        fold_rows(rs, es, from, to) matches Ok(a) ==> assembly_ok(a, column_count(es), from, to),
    decreases rs.len(),
{
    if rs.len() > 0 {
        lemma_fold_rows_ok(rs.drop_last(), es, from, to);
        let r = rs.last();
        match fold_rows(rs.drop_last(), es, from, to) {
            Err(_) => {},
            Ok(a) => match r.data {
                PayloadView::Control(_) => {},
                PayloadView::Data(d) => if from <= r.timestamp_us <= to {
                    match owner(es, r.entry_id) {
                        None => {},
                        Some(i) => match sample_cells(es[i], d) {
                            Err(_) => {},
                            Ok(cells) => {
                                lemma_fill_ok(
                                    a,
                                    r.timestamp_us,
                                    columns_before(es, i) as int,
                                    cells,
                                    column_count(es),
                                    from,
                                    to,
                                );
                            },
                        },
                    }
                },
            },
        }
    }
}

/// Every row of a table has all the columns and lies inside the window,
/// and no two rows in a row share a timestamp.
pub proof fn lemma_table_rows_ok(rs: Seq<RecordView>, es: Seq<EntryView>, from: u64, to: u64)
    ensures
        table_rows(rs, es, from, to) matches Ok(rows) ==> rows_ok(
            rows,
            column_count(es),
            from,
            to,
        ),
{
    lemma_fold_rows_ok(rs, es, from, to);
}

/// The seed row has all the columns.
pub proof fn lemma_seed_row_width(
    rs: Seq<RecordView>,
    es: Seq<EntryView>,
    snap: Seq<Option<int>>,
    n: int,
)
    ensures
        seed_fold(rs, es, snap, n) matches Ok(cells) ==> cells.len() == column_count(es),
    decreases n,
{
    if n > 0 {
        lemma_seed_row_width(rs, es, snap, n - 1);
    }
}

/// A windowed export is the seed row followed by a well-formed table:
/// every row has all the columns, and those after the seed row lie inside
/// the window.
pub proof fn lemma_windowed_rows_ok(rs: Seq<RecordView>, es: Seq<EntryView>, start: u64, end: u64)
    ensures
        windowed_rows(rs, es, start, end) matches Ok(rows) ==> rows.len() >= 1
            && rows[0].timestamp_us == seed_timestamp(rs, start) && rows_ok(
            rows.skip(1),
            column_count(es),
            start,
            end,
        ) && forall|i: int| 0 <= i < rows.len() ==> (#[trigger] rows[i]).cells.len() == column_count(es),
{
    lemma_seed_row_width(rs, es, snapshot(rs, es, start), es.len() as int);
    lemma_table_rows_ok(rs, es, start, end);
    match windowed_rows(rs, es, start, end) {
        Ok(rows) => {
            let body = table_rows(rs, es, start, end).unwrap();
            assert(rows.skip(1) =~= body);
            assert forall|i: int| 0 <= i < rows.len() implies (#[trigger] rows[i]).cells.len()
                == column_count(es) by {
                if i > 0 {
                    assert(rows[i] == body[i - 1]);
                }
            }
        },
        Err(_) => {},
    }
}

} // verus!
