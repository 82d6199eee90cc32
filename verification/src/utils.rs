//! A log regrouped by entry: for each entry its samples, decoded, with
//! their timestamps.

use vstd::prelude::*;
use vstd::string::*;
use crate::error::DecodeError;
use crate::parser::fails_with;
use crate::sorting::{SortKey, arranged, is_stable_order, positions, stable_order};
use crate::table::{Cell, CellView, decode_value, spec_value};
use crate::types::{
    ControlRecord, ControlView, PayloadView, Record, RecordView, ValueKind, WpiLog, WpiRecord,
    kind_of_tag, records_view,
};

verus! {

/// One entry with all its samples: `data[i]` was logged at
/// `timestamps[i]`.
#[derive(Debug, Clone)]
pub struct DataEntry<'a> {
    pub entry_id: u32,
    pub name: &'a str,
    pub typ: &'a str,
    /// The kind that `typ` resolves to.
    pub kind: ValueKind,
    pub metadata: &'a str,
    /// The largest element count among the array samples, if there is one.
    pub max_len: Option<usize>,
    pub timestamps: Vec<u64>,
    pub data: Vec<Cell<'a>>,
}

/// A log regrouped by entry, the entries in the order of their `Start`
/// records.
#[derive(Debug, Clone)]
pub struct OrganizedLog<'a> {
    pub sessioned_data: Vec<DataEntry<'a>>,
}

#[verifier::ext_equal]
pub struct DataEntryView {
    pub entry_id: u32,
    pub name: Seq<u8>,
    pub typ: Seq<u8>,
    pub kind: ValueKind,
    pub metadata: Seq<u8>,
    pub max_len: Option<nat>,
    pub timestamps: Seq<u64>,
    pub data: Seq<CellView>,
}

/// The views of a run of cells, in order.
pub open spec fn samples_view<'a>(cs: Seq<Cell<'a>>) -> Seq<CellView> {
    cs.map_values(|c: Cell<'a>| c@)
}

impl<'a> View for DataEntry<'a> {
    type V = DataEntryView;

    open spec fn view(&self) -> DataEntryView {
        DataEntryView {
            entry_id: self.entry_id,
            name: self.name.spec_bytes(),
            typ: self.typ.spec_bytes(),
            kind: self.kind,
            metadata: self.metadata.spec_bytes(),
            max_len: match self.max_len {
                Some(n) => Some(n as nat),
                None => None,
            },
            timestamps: self.timestamps@,
            data: samples_view(self.data@),
        }
    }
}

/// The views of a run of entries, in order.
pub open spec fn organized_view<'a>(es: Seq<DataEntry<'a>>) -> Seq<DataEntryView> {
    es.map_values(|e: DataEntry<'a>| e@)
}

/// What is known of an entry before its samples are gathered.
#[derive(Debug, Clone, Copy)]
pub struct EntryHead<'a> {
    pub entry_id: u32,
    pub name: &'a str,
    pub typ: &'a str,
    pub kind: ValueKind,
    pub metadata: &'a str,
}

impl<'a> View for EntryHead<'a> {
    type V = DataEntryView;

    open spec fn view(&self) -> DataEntryView {
        DataEntryView {
            entry_id: self.entry_id,
            name: self.name.spec_bytes(),
            typ: self.typ.spec_bytes(),
            kind: self.kind,
            metadata: self.metadata.spec_bytes(),
            max_len: None,
            timestamps: Seq::empty(),
            data: Seq::empty(),
        }
    }
}

/// The views of a run of heads, in order.
pub open spec fn heads_view<'a>(hs: Seq<EntryHead<'a>>) -> Seq<DataEntryView> {
    hs.map_values(|h: EntryHead<'a>| h@)
}

/// One entry without samples for each `Start` record of `rs`, in order.
pub open spec fn opened(rs: Seq<RecordView>) -> Seq<DataEntryView>
    decreases rs.len(),
{
    if rs.len() == 0 {
        Seq::empty()
    } else {
        match rs.last().data {
            PayloadView::Control(ControlView::Start(s)) => opened(rs.drop_last()).push(
                DataEntryView {
                    entry_id: s.entry_id,
                    name: s.name,
                    typ: s.typ,
                    kind: kind_of_tag(s.typ),
                    metadata: s.metadata,
                    max_len: None,
                    timestamps: Seq::empty(),
                    data: Seq::empty(),
                },
            ),
            _ => opened(rs.drop_last()),
        }
    }
}

/// The entry after the record `r`: a `SetMetadata` for the entry replaces
/// its metadata.
pub open spec fn relabel(e: DataEntryView, r: RecordView) -> DataEntryView {
    match r.data {
        PayloadView::Control(ControlView::SetMetadata(m)) => if e.entry_id == m.entry_id {
            DataEntryView { metadata: m.metadata, ..e }
        } else {
            e
        },
        _ => e,
    }
}

/// The entry after every `SetMetadata` record of `rs`, in order.
pub open spec fn labelled(rs: Seq<RecordView>, e: DataEntryView) -> DataEntryView
    decreases rs.len(),
{
    if rs.len() == 0 {
        e
    } else {
        relabel(labelled(rs.drop_last(), e), rs.last())
    }
}

/// The largest element count after one more sample.
pub open spec fn grown(max_len: Option<nat>, cell: CellView) -> Option<nat> {
    let before = match max_len {
        Some(n) => n,
        None => 0,
    };
    match cell {
        CellView::List(vs) => Some(if vs.len() > before { vs.len() } else { before }),
        CellView::TextList(ts) => Some(if ts.len() > before { ts.len() } else { before }),
        _ => max_len,
    }
}

/// The entry after the record `r`: a data record of the entry is decoded
/// by the entry's kind and appended with its timestamp.
pub open spec fn add_sample(e: DataEntryView, r: RecordView) -> Result<DataEntryView, DecodeError> {
    match r.data {
        PayloadView::Data(d) => if e.entry_id == r.entry_id {
            match spec_value(e.kind, d) {
                Err(x) => Err(x),
                Ok(cell) => Ok(
                    DataEntryView {
                        max_len: grown(e.max_len, cell),
                        timestamps: e.timestamps.push(r.timestamp_us),
                        data: e.data.push(cell),
                        ..e
                    },
                ),
            }
        } else {
            Ok(e)
        },
        PayloadView::Control(_) => Ok(e),
    }
}

/// The entry after every data record of `rs`, in order; the first sample
/// that does not decode is the error.
pub open spec fn gathered(rs: Seq<RecordView>, e: DataEntryView) -> Result<
    DataEntryView,
    DecodeError,
>
    decreases rs.len(),
{
    if rs.len() == 0 {
        Ok(e)
    } else {
        match gathered(rs.drop_last(), e) {
            Err(x) => Err(x),
            Ok(so_far) => add_sample(so_far, rs.last()),
        }
    }
}

/// The first `n` entries, each with its metadata set and its samples
/// gathered; the first entry that fails gives the error.
pub open spec fn organized_prefix(rs: Seq<RecordView>, heads: Seq<DataEntryView>, n: int) -> Result<
    Seq<DataEntryView>,
    DecodeError,
>
    decreases n,
{
    if n <= 0 {
        Ok(Seq::empty())
    } else {
        match organized_prefix(rs, heads, n - 1) {
            Err(x) => Err(x),
            Ok(done) => match gathered(rs, labelled(rs, heads[n - 1])) {
                Err(x) => Err(x),
                Ok(e) => Ok(done.push(e)),
            },
        }
    }
}

/// The log regrouped: one entry per `Start` record, carrying the metadata
/// of the last `SetMetadata` for it and all samples of its entry id.
pub open spec fn organized(rs: Seq<RecordView>) -> Result<Seq<DataEntryView>, DecodeError> {
    organized_prefix(rs, opened(rs), opened(rs).len() as int)
}

/// Once the first entries fail, so does the whole.
pub proof fn lemma_organized_error_stays(
    rs: Seq<RecordView>,
    heads: Seq<DataEntryView>,
    n: int,
    m: int,
)
    requires
        0 <= n <= m,
        organized_prefix(rs, heads, n) is Err,
    ensures
        organized_prefix(rs, heads, m) == organized_prefix(rs, heads, n),
    decreases m - n,
{
    if n < m {
        lemma_organized_error_stays(rs, heads, n, m - 1);
    }
}

/// Once a prefix of the records fails for an entry, every longer one does.
pub proof fn lemma_gathered_error_stays(rs: Seq<RecordView>, e: DataEntryView, n: int)
    requires
        0 <= n <= rs.len(),
        gathered(rs.take(n), e) is Err,
    ensures
        gathered(rs, e) == gathered(rs.take(n), e),
    decreases rs.len() - n,
{
    if n == rs.len() {
        assert(rs.take(n) =~= rs);
    } else {
        let next = rs.take(n + 1);
        assert(next.drop_last() =~= rs.take(n));
        lemma_gathered_error_stays(rs, e, n + 1);
    }
}

/// The entries that the `Start` records open, without samples.
fn open_entries<'a>(records: &Vec<WpiRecord<'a>>) -> (heads: Vec<EntryHead<'a>>)
    ensures
        heads_view(heads@) == opened(records_view(records@)),
{
    let ghost rs = records_view(records@);
    let mut heads: Vec<EntryHead<'a>> = Vec::new();
    let mut i: usize = 0;
    proof {
        assert(rs.take(0) =~= Seq::<RecordView>::empty());
        assert(heads_view(heads@) =~= Seq::<DataEntryView>::empty());
    }
    while i < records.len()
        invariant
            i <= records@.len(),
            rs == records_view(records@),
            heads_view(heads@) == opened(rs.take(i as int)),
        decreases records@.len() - i,
    {
        proof {
            let next = rs.take(i + 1);
            assert(next.drop_last() =~= rs.take(i as int));
            assert(next.last() == records@[i as int]@);
        }
        match records[i].data {
            Record::Control(ControlRecord::Start(start)) => {
                let head = EntryHead {
                    entry_id: start.entry_id,
                    name: start.name,
                    typ: start.typ,
                    kind: ValueKind::from_tag(start.typ),
                    metadata: start.metadata,
                };
                proof {
                    assert(heads_view(heads@.push(head)) =~= heads_view(heads@).push(head@));
                }
                heads.push(head);
            },
            _ => {},
        }
        i = i + 1;
    }
    assert(rs.take(i as int) =~= rs);
    heads
}

/// The head with the metadata that the `SetMetadata` records give it.
fn label_entry<'a>(records: &Vec<WpiRecord<'a>>, head: EntryHead<'a>) -> (out: EntryHead<'a>)
    ensures
        out@ == labelled(records_view(records@), head@),
{
    let ghost rs = records_view(records@);
    let mut out = head;
    let mut i: usize = 0;
    assert(rs.take(0) =~= Seq::<RecordView>::empty());
    while i < records.len()
        invariant
            i <= records@.len(),
            rs == records_view(records@),
            out@ == labelled(rs.take(i as int), head@),
        decreases records@.len() - i,
    {
        proof {
            let next = rs.take(i + 1);
            assert(next.drop_last() =~= rs.take(i as int));
            assert(next.last() == records@[i as int]@);
        }
        match records[i].data {
            Record::Control(ControlRecord::SetMetadata(m)) => {
                if out.entry_id == m.entry_id {
                    out = EntryHead { metadata: m.metadata, ..out };
                }
            },
            _ => {},
        }
        i = i + 1;
    }
    assert(rs.take(i as int) =~= rs);
    out
}

/// The number of elements of an array sample.
fn list_len<'a>(cell: &Cell<'a>) -> (n: Option<usize>)
    ensures
        match cell@ {
            CellView::List(vs) => n == Some(vs.len() as usize) && vs.len() <= usize::MAX,
            CellView::TextList(ts) => n == Some(ts.len() as usize) && ts.len() <= usize::MAX,
            _ => n is None,
        },
{
    match cell {
        Cell::List(vs) => Some(vs.len()),
        Cell::TextList(ts) => Some(ts.len()),
        _ => None,
    }
}

/// The entry of `head` with all its samples.
fn gather_entry<'a>(records: &Vec<WpiRecord<'a>>, head: EntryHead<'a>) -> (r: Result<
    DataEntry<'a>,
    DecodeError,
>)
    ensures
        match gathered(records_view(records@), head@) {
            Ok(e) => r matches Ok(entry) && entry@ == e && entry.timestamps@.len()
                == entry.data@.len(),
            Err(x) => fails_with(r, x),
        },
{
    let ghost rs = records_view(records@);
    let mut max_len: Option<usize> = None;
    let mut timestamps: Vec<u64> = Vec::new();
    let mut data: Vec<Cell<'a>> = Vec::new();
    let mut i: usize = 0;
    proof {
        assert(rs.take(0) =~= Seq::<RecordView>::empty());
        assert(samples_view(data@) =~= Seq::<CellView>::empty());
    }
    while i < records.len()
        invariant
            i <= records@.len(),
            rs == records_view(records@),
            timestamps@.len() == data@.len(),
            gathered(rs.take(i as int), head@) == Ok::<DataEntryView, DecodeError>(
                DataEntryView {
                    max_len: match max_len {
                        Some(n) => Some(n as nat),
                        None => None,
                    },
                    timestamps: timestamps@,
                    data: samples_view(data@),
                    ..head@
                },
            ),
        decreases records@.len() - i,
    {
        proof {
            let next = rs.take(i + 1);
            assert(next.drop_last() =~= rs.take(i as int));
            assert(next.last() == records@[i as int]@);
        }
        let record = &records[i];
        match record.data {
            Record::Data(d) => {
                if record.entry_id == head.entry_id {
                    match decode_value(head.kind, d.data) {
                        Err(e) => {
                            proof {
                                lemma_gathered_error_stays(rs, head@, i + 1);
                            }
                            return Err(e);
                        },
                        Ok(cell) => {
                            match list_len(&cell) {
                                Some(n) => {
                                    let before = match max_len {
                                        Some(m) => m,
                                        None => 0,
                                    };
                                    max_len = Some(if n > before { n } else { before });
                                },
                                None => {},
                            }
                            proof {
                                assert(samples_view(data@.push(cell)) =~= samples_view(data@).push(
                                    cell@,
                                ));
                            }
                            timestamps.push(record.timestamp_us);
                            data.push(cell);
                        },
                    }
                }
            },
            Record::Control(_) => {},
        }
        i = i + 1;
    }
    assert(rs.take(i as int) =~= rs);
    Ok(
        DataEntry {
            entry_id: head.entry_id,
            name: head.name,
            typ: head.typ,
            kind: head.kind,
            metadata: head.metadata,
            max_len,
            timestamps,
            data,
        },
    )
}

/// Regroups a log by entry: one entry per `Start` record, with the
/// metadata of the last `SetMetadata` for it, and every data record of its
/// entry id decoded by its type, in log order. Fails with the error of the
/// first sample that does not decode.
pub fn reorganize<'a>(input: &WpiLog<'a>) -> (r: Result<OrganizedLog<'a>, DecodeError>)
    ensures
        match organized(input@.records) {
            Ok(es) => r matches Ok(log) && organized_view(log.sessioned_data@) == es
                && is_balanced(log.sessioned_data@),
            Err(x) => fails_with(r, x),
        },
{
    let ghost rs = records_view(input.records@);
    let heads = open_entries(&input.records);
    let ghost hs = heads_view(heads@);
    let mut entries: Vec<DataEntry<'a>> = Vec::new();
    let mut j: usize = 0;
    assert(organized_view(entries@) =~= Seq::<DataEntryView>::empty());
    while j < heads.len()
        invariant
            j <= heads@.len(),
            rs == records_view(input.records@),
            hs == heads_view(heads@),
            hs == opened(rs),
            organized_prefix(rs, hs, j as int) == Ok::<Seq<DataEntryView>, DecodeError>(
                organized_view(entries@),
            ),
            forall|i: int|
                0 <= i < entries@.len() ==> (#[trigger] entries@[i]).timestamps@.len()
                    == entries@[i].data@.len(),
        decreases heads@.len() - j,
    {
        assert(hs[j as int] == heads@[j as int]@);
        let head = label_entry(&input.records, heads[j]);
        match gather_entry(&input.records, head) {
            Err(e) => {
                proof {
                    lemma_organized_error_stays(rs, hs, j + 1, hs.len() as int);
                }
                return Err(e);
            },
            Ok(entry) => {
                proof {
                    assert(organized_view(entries@.push(entry)) =~= organized_view(entries@).push(
                        entry@,
                    ));
                }
                entries.push(entry);
            },
        }
        j = j + 1;
    }
    Ok(OrganizedLog { sessioned_data: entries })
}

/// The sort keys of an entry's samples: the timestamps alone.
pub open spec fn time_keys(timestamps: Seq<u64>) -> Seq<SortKey> {
    timestamps.map_values(|t: u64| (t, 0u8))
}

/// `after` is `before` with its samples in ascending order of timestamp,
/// samples of one timestamp in the order they had.
pub open spec fn is_sorted_entry(before: DataEntryView, after: DataEntryView) -> bool {
    &&& after.entry_id == before.entry_id
    &&& after.name == before.name
    &&& after.typ == before.typ
    &&& after.kind == before.kind
    &&& after.metadata == before.metadata
    &&& after.max_len == before.max_len
    &&& exists|order: Seq<int>|
        is_stable_order(time_keys(before.timestamps), order) && arranged(
            before.timestamps,
            order,
            after.timestamps,
        ) && arranged(before.data, order, after.data)
}

/// Every entry has as many timestamps as samples.
pub open spec fn is_balanced<'a>(es: Seq<DataEntry<'a>>) -> bool {
    forall|i: int|
        0 <= i < es.len() ==> (#[trigger] es[i]).timestamps@.len() == es[i].data@.len()
}

/// The items of `data`, each in a slot of its own.
fn into_slots<'a>(data: Vec<Cell<'a>>) -> (slots: Vec<Option<Cell<'a>>>)
    ensures
        slots@.len() == data@.len(),
        forall|i: int| 0 <= i < slots@.len() ==> #[trigger] slots@[i] == Some(data@[i]),
{
    let ghost items = data@;
    let mut data = data;
    let mut reversed: Vec<Cell<'a>> = Vec::new();
    while data.len() > 0
        invariant
            data@.len() + reversed@.len() == items.len(),
            forall|i: int| 0 <= i < data@.len() ==> data@[i] == items[i],
            forall|k: int|
                0 <= k < reversed@.len() ==> #[trigger] reversed@[k] == items[items.len() - 1 - k],
        decreases data@.len(),
    {
        let cell = data.pop().unwrap();
        reversed.push(cell);
    }
    let ghost back = reversed@;
    let mut slots: Vec<Option<Cell<'a>>> = Vec::new();
    while reversed.len() > 0
        invariant
            back.len() == items.len(),
            reversed@.len() + slots@.len() == items.len(),
            forall|k: int| 0 <= k < back.len() ==> #[trigger] back[k] == items[items.len() - 1 - k],
            forall|k: int| 0 <= k < reversed@.len() ==> reversed@[k] == back[k],
            forall|i: int| 0 <= i < slots@.len() ==> #[trigger] slots@[i] == Some(items[i]),
        decreases reversed@.len(),
    {
        let ghost k = reversed@.len() - 1;
        let cell = reversed.pop().unwrap();
        assert(cell == back[k]);
        slots.push(Some(cell));
    }
    slots
}

/// The items of `data` in the order that `order` lists.
fn arrange<'a>(data: Vec<Cell<'a>>, order: &Vec<usize>) -> (out: Vec<Cell<'a>>)
    requires
        order@.len() == data@.len(),
        forall|i: int| 0 <= i < order@.len() ==> #[trigger] order@[i] < data@.len(),
        forall|i: int, j: int|
            0 <= i < j < order@.len() ==> #[trigger] order@[i] != #[trigger] order@[j],
    ensures
        out@.len() == data@.len(),
        forall|i: int| 0 <= i < out@.len() ==> #[trigger] out@[i] == data@[order@[i] as int],
{
    let ghost items = data@;
    let mut slots = into_slots(data);
    let mut out: Vec<Cell<'a>> = Vec::new();
    let mut i: usize = 0;
    while i < order.len()
        invariant
            i <= order@.len(),
            order@.len() == items.len(),
            slots@.len() == items.len(),
            out@.len() == i,
            forall|k: int| 0 <= k < order@.len() ==> #[trigger] order@[k] < items.len(),
            forall|a: int, b: int|
                0 <= a < b < order@.len() ==> #[trigger] order@[a] != #[trigger] order@[b],
            forall|q: int|
                0 <= q < slots@.len() && (forall|t: int| 0 <= t < i ==> order@[t] != q)
                    ==> #[trigger] slots@[q] == Some(items[q]),
            forall|t: int| 0 <= t < i ==> #[trigger] out@[t] == items[order@[t] as int],
        decreases order@.len() - i,
    {
        let p = order[i];
        let ghost before = slots@;
        assert(before[p as int] == Some(items[p as int])) by {
            assert forall|t: int| 0 <= t < i implies order@[t] != p by {
                assert(order@[t] != order@[i as int]);
            }
        }
        slots.push(None);
        let taken = slots.swap_remove(p);
        proof {
            assert(slots@.len() == items.len());
            assert(taken == Some(items[p as int]));
            assert forall|q: int|
                0 <= q < slots@.len() && (forall|t: int|
                    0 <= t < i + 1 ==> order@[t] != q) implies #[trigger] slots@[q] == Some(
                items[q],
            ) by {
                assert(order@[i as int] != q);
                assert(slots@[q] == before[q]);
                assert forall|t: int| 0 <= t < i implies order@[t] != q by {}
            }
        }
        match taken {
            Some(cell) => {
                out.push(cell);
            },
            None => {
                out.push(Cell::Length(0));
            },
        }
        i = i + 1;
    }
    out
}

/// The entry with its samples in ascending order of timestamp.
fn sort_entry<'a>(entry: DataEntry<'a>) -> (out: DataEntry<'a>)
    requires
        entry.timestamps@.len() == entry.data@.len(),
    ensures
        is_sorted_entry(entry@, out@),
        out.timestamps@.len() == out.data@.len(),
{
    let DataEntry { entry_id, name, typ, kind, metadata, max_len, timestamps, data } = entry;
    let mut keys: Vec<SortKey> = Vec::new();
    let mut i: usize = 0;
    while i < timestamps.len()
        invariant
            i <= timestamps@.len(),
            keys@.len() == i,
            forall|k: int| 0 <= k < i ==> keys@[k] == (timestamps@[k], 0u8),
        decreases timestamps@.len() - i,
    {
        keys.push((timestamps[i], 0));
        i = i + 1;
    }
    assert(keys@ =~= time_keys(timestamps@));
    let order = stable_order(&keys);
    let ghost ps = positions(order@);
    proof {
        assert forall|a: int| 0 <= a < order@.len() implies #[trigger] order@[a] < data@.len() by {
            assert(ps[a] == order@[a] as int);
        }
        assert forall|a: int, b: int| 0 <= a < b < order@.len() implies #[trigger] order@[a]
            != #[trigger] order@[b] by {
            assert(ps[a] == order@[a] as int);
            assert(ps[b] == order@[b] as int);
            assert(crate::sorting::comes_before(keys@, ps[a], ps[b]));
        }
    }
    let mut sorted_timestamps: Vec<u64> = Vec::new();
    let mut j: usize = 0;
    while j < order.len()
        invariant
            j <= order@.len(),
            order@.len() == timestamps@.len(),
            sorted_timestamps@.len() == j,
            forall|k: int| 0 <= k < order@.len() ==> #[trigger] order@[k] < timestamps@.len(),
            forall|k: int|
                0 <= k < j ==> #[trigger] sorted_timestamps@[k] == timestamps@[order@[k] as int],
        decreases order@.len() - j,
    {
        sorted_timestamps.push(timestamps[order[j]]);
        j = j + 1;
    }
    let ghost old_data = data@;
    let sorted_data = arrange(data, &order);
    let out = DataEntry {
        entry_id,
        name,
        typ,
        kind,
        metadata,
        max_len,
        timestamps: sorted_timestamps,
        data: sorted_data,
    };
    proof {
        assert(arranged(timestamps@, ps, sorted_timestamps@)) by {
            assert forall|k: int| 0 <= k < sorted_timestamps@.len() implies sorted_timestamps@[k]
                == timestamps@[#[trigger] ps[k]] by {
                assert(ps[k] == order@[k] as int);
            }
        }
        assert(arranged(samples_view(old_data), ps, samples_view(sorted_data@))) by {
            assert forall|k: int| 0 <= k < sorted_data@.len() implies samples_view(
                sorted_data@,
            )[k] == samples_view(old_data)[#[trigger] ps[k]] by {
                assert(ps[k] == order@[k] as int);
                assert(sorted_data@[k] == old_data[order@[k] as int]);
            }
        }
        assert(entry@.timestamps == timestamps@);
        assert(entry@.data == samples_view(old_data));
        assert(out@.timestamps == sorted_timestamps@);
        assert(out@.data == samples_view(sorted_data@));
        assert(is_stable_order(time_keys(entry@.timestamps), ps));
        assert(arranged(entry@.timestamps, ps, out@.timestamps));
        assert(arranged(entry@.data, ps, out@.data));
        assert(out@.max_len == entry@.max_len);
    }
    out
}

/// Sorts the samples of every entry by ascending timestamp; samples of
/// one timestamp keep their order.
pub fn sort<'a>(log: &mut OrganizedLog<'a>)
    requires
        is_balanced(old(log).sessioned_data@),
    ensures
        final(log).sessioned_data@.len() == old(log).sessioned_data@.len(),
        forall|i: int|
            0 <= i < final(log).sessioned_data@.len() ==> is_sorted_entry(
                old(log).sessioned_data@[i]@,
                (#[trigger] final(log).sessioned_data@[i])@,
            ),
        is_balanced(final(log).sessioned_data@),
{
    let ghost items = log.sessioned_data@;
    let mut pending: Vec<DataEntry<'a>> = Vec::new();
    std::mem::swap(&mut pending, &mut log.sessioned_data);
    let mut reversed: Vec<DataEntry<'a>> = Vec::new();
    while pending.len() > 0
        invariant
            pending@.len() + reversed@.len() == items.len(),
            forall|i: int| 0 <= i < pending@.len() ==> pending@[i] == items[i],
            forall|i: int|
                0 <= i < items.len() ==> (#[trigger] items[i]).timestamps@.len()
                    == items[i].data@.len(),
            forall|k: int|
                0 <= k < reversed@.len() ==> is_sorted_entry(
                    items[items.len() - 1 - k]@,
                    (#[trigger] reversed@[k])@,
                ) && reversed@[k].timestamps@.len() == reversed@[k].data@.len(),
        decreases pending@.len(),
    {
        let ghost n = pending@.len() - 1;
        let entry = pending.pop().unwrap();
        assert(entry == items[n]);
        let sorted = sort_entry(entry);
        reversed.push(sorted);
    }
    let ghost back = reversed@;
    let mut entries: Vec<DataEntry<'a>> = Vec::new();
    while reversed.len() > 0
        invariant
            back.len() == items.len(),
            reversed@.len() + entries@.len() == items.len(),
            forall|k: int| 0 <= k < reversed@.len() ==> reversed@[k] == back[k],
            forall|k: int|
                0 <= k < back.len() ==> is_sorted_entry(
                    items[items.len() - 1 - k]@,
                    (#[trigger] back[k])@,
                ) && back[k].timestamps@.len() == back[k].data@.len(),
            forall|i: int|
                0 <= i < entries@.len() ==> is_sorted_entry(
                    items[i]@,
                    (#[trigger] entries@[i])@,
                ) && entries@[i].timestamps@.len() == entries@[i].data@.len(),
        decreases reversed@.len(),
    {
        let ghost k = reversed@.len() - 1;
        let entry = reversed.pop().unwrap();
        assert(entry == back[k]);
        entries.push(entry);
    }
    log.sessioned_data = entries;
}

} // verus!
