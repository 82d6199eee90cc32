//! Enabled periods: the spans during which a boolean channel was true.

use vstd::prelude::*;
use vstd::string::*;
use crate::types::{
    EntryView, MetadataEntry, PayloadView, Record, RecordView, WpiLog, WpiRecord, bytes_eq,
    entries_view, records_view,
};

verus! {

/// A span under construction: where it opened and, once known, where it
/// closed.
pub type Span = (Option<u64>, Option<u64>);

/// Position `j` holds the span that was opened last among those still open.
pub open spec fn is_last_open(spans: Seq<Span>, j: int) -> bool {
    &&& 0 <= j < spans.len()
    &&& spans[j].1 is None
    &&& forall|k: int| j < k < spans.len() ==> (#[trigger] spans[k]).1 is Some
}

/// The spans after a `false` sample at `ts`: the span opened last among
/// those still open gets `ts` as its end; with none open nothing changes.
pub open spec fn close_span(spans: Seq<Span>, ts: u64) -> Seq<Span> {
    if exists|j: int| is_last_open(spans, j) {
        let j = choose|j: int| is_last_open(spans, j);
        spans.update(j, (spans[j].0, Some(ts)))
    } else {
        spans
    }
}

/// The spans after the record `r`. Only a non-empty data record of entry
/// `id` counts: a first byte of 1 opens a span, any other value closes one.
pub open spec fn step_spans(spans: Seq<Span>, r: RecordView, id: u32) -> Seq<Span> {
    match r.data {
        PayloadView::Data(d) => if r.entry_id == id && d.len() > 0 {
            if d[0] == 1 {
                spans.push((Some(r.timestamp_us), None))
            } else {
                close_span(spans, r.timestamp_us)
            }
        } else {
            spans
        },
        PayloadView::Control(_) => spans,
    }
}

/// The spans after all of `rs`, taken in order.
pub open spec fn fold_spans(rs: Seq<RecordView>, id: u32) -> Seq<Span>
    decreases rs.len(),
{
    if rs.len() == 0 {
        Seq::empty()
    } else {
        step_spans(fold_spans(rs.drop_last(), id), rs.last(), id)
    }
}

/// The smallest timestamp of `rs`; 0 when there is no record.
pub open spec fn min_timestamp(rs: Seq<RecordView>) -> u64
    decreases rs.len(),
{
    if rs.len() == 0 {
        0
    } else if rs.len() == 1 {
        rs[0].timestamp_us
    } else {
        let m = min_timestamp(rs.drop_last());
        if rs.last().timestamp_us < m {
            rs.last().timestamp_us
        } else {
            m
        }
    }
}

/// The largest timestamp of `rs`; 0 when there is no record.
pub open spec fn max_timestamp(rs: Seq<RecordView>) -> u64
    decreases rs.len(),
{
    if rs.len() == 0 {
        0
    } else {
        let m = max_timestamp(rs.drop_last());
        if rs.last().timestamp_us > m {
            rs.last().timestamp_us
        } else {
            m
        }
    }
}

/// A span with a missing start put at `min` and a missing end at `max`.
pub open spec fn clamp_span(span: Span, min: u64, max: u64) -> (u64, u64) {
    (
        match span.0 {
            Some(t) => t,
            None => min,
        },
        match span.1 {
            Some(t) => t,
            None => max,
        },
    )
}

/// The first descriptor called `name` (as UTF-8 bytes), if there is one.
pub open spec fn first_named(es: Seq<EntryView>, name: Seq<u8>) -> Option<int> {
    if exists|i: int| is_first_named(es, name, i) {
        Some(choose|i: int| is_first_named(es, name, i))
    } else {
        None
    }
}

/// Descriptor `i` is called `name` and none before it is.
pub open spec fn is_first_named(es: Seq<EntryView>, name: Seq<u8>, i: int) -> bool {
    &&& 0 <= i < es.len()
    &&& es[i].name == name
    &&& forall|k: int| 0 <= k < i ==> (#[trigger] es[k]).name != name
}

/// The enabled periods of entry `id` over the records `rs`.
pub open spec fn enabled_spans(rs: Seq<RecordView>, id: u32) -> Seq<(u64, u64)> {
    fold_spans(rs, id).map_values(
        |s: Span| clamp_span(s, min_timestamp(rs), max_timestamp(rs)),
    )
}

/// The smallest timestamp in the log; 0 for a log without records.
pub fn log_min_timestamp<'a>(records: &Vec<WpiRecord<'a>>) -> (m: u64)
    ensures
        m == min_timestamp(records_view(records@)),
{
    let ghost rs = records_view(records@);
    if records.len() == 0 {
        return 0;
    }
    let mut m = records[0].timestamp_us;
    let mut i: usize = 1;
    assert(rs.take(1).len() == 1);
    assert(rs.take(1)[0] == rs[0]);
    while i < records.len()
        invariant
            1 <= i <= records@.len(),
            rs == records_view(records@),
            m == min_timestamp(rs.take(i as int)),
        decreases records@.len() - i,
    {
        proof {
            let next = rs.take(i + 1);
            assert(next.drop_last() =~= rs.take(i as int));
            assert(next.last() == records@[i as int]@);
        }
        if records[i].timestamp_us < m {
            m = records[i].timestamp_us;
        }
        i = i + 1;
    }
    assert(rs.take(i as int) =~= rs);
    m
}

/// The largest timestamp in the log; 0 for a log without records.
pub fn log_max_timestamp<'a>(records: &Vec<WpiRecord<'a>>) -> (m: u64)
    ensures
        m == max_timestamp(records_view(records@)),
{
    let ghost rs = records_view(records@);
    let mut m: u64 = 0;
    let mut i: usize = 0;
    assert(rs.take(0) =~= Seq::<RecordView>::empty());
    while i < records.len()
        invariant
            i <= records@.len(),
            rs == records_view(records@),
            m == max_timestamp(rs.take(i as int)),
        decreases records@.len() - i,
    {
        proof {
            let next = rs.take(i + 1);
            assert(next.drop_last() =~= rs.take(i as int));
            assert(next.last() == records@[i as int]@);
        }
        if records[i].timestamp_us > m {
            m = records[i].timestamp_us;
        }
        i = i + 1;
    }
    assert(rs.take(i as int) =~= rs);
    m
}

/// Gives the span opened last among those still open the end `ts`.
fn close_last_open(spans: &mut Vec<Span>, ts: u64)
    ensures
        final(spans)@ == close_span(old(spans)@, ts),
{
    let mut j: usize = spans.len();
    while j > 0
        invariant
            j <= spans@.len(),
            spans@ == old(spans)@,
            forall|k: int| j <= k < spans@.len() ==> (#[trigger] spans@[k]).1 is Some,
        decreases j,
    {
        j = j - 1;
        let span = spans[j];
        if span.1.is_none() {
            proof {
                assert(is_last_open(spans@, j as int));
                let c = choose|c: int| is_last_open(spans@, c);
                assert(c == j) by {
                    if c < j {
                        assert(spans@[j as int].1 is Some);
                    }
                    if c > j {
                        assert(spans@[c].1 is Some);
                    }
                }
            }
            spans.set(j, (span.0, Some(ts)));
            return ;
        }
    }
    proof {
        assert forall|c: int| !is_last_open(spans@, c) by {
            if 0 <= c < spans@.len() {
                assert(spans@[c].1 is Some);
            }
        }
    }
}

/// The position of the first descriptor called `name`.
pub fn find_by_name<'a>(metadata: &Vec<MetadataEntry<'a>>, name: &str) -> (r: Option<usize>)
    ensures
        match first_named(entries_view(metadata@), name.spec_bytes()) {
            Some(i) => r matches Some(k) && k as int == i && i < metadata@.len(),
            None => r is None,
        },
{
    let ghost es = entries_view(metadata@);
    let ghost wanted = name.spec_bytes();
    let mut i: usize = 0;
    while i < metadata.len()
        invariant
            i <= metadata@.len(),
            es == entries_view(metadata@),
            wanted == name.spec_bytes(),
            forall|k: int| 0 <= k < i ==> (#[trigger] es[k]).name != wanted,
        decreases metadata@.len() - i,
    {
        if bytes_eq(metadata[i].name.as_bytes(), name.as_bytes()) {
            proof {
                assert(es[i as int] == metadata@[i as int]@);
                assert(is_first_named(es, wanted, i as int));
                let c = choose|c: int| is_first_named(es, wanted, c);
                assert(c == i) by {
                    if c < i {
                        assert(es[c].name != wanted);
                    }
                    if c > i {
                        assert(es[i as int].name != wanted);
                    }
                }
            }
            return Some(i);
        }
        assert(es[i as int] == metadata@[i as int]@);
        i = i + 1;
    }
    proof {
        assert forall|c: int| !is_first_named(es, wanted, c) by {
            if 0 <= c < es.len() {
                assert(es[c].name != wanted);
            }
        }
    }
    None
}

/// The periods during which the channel called `channel` was true:
/// `None` when no descriptor has that name, else one `(start, end)` pair
/// per `true` sample, in log order. A span that no `false` sample closed
/// ends at the log's largest timestamp.
pub fn get_enabled_periods<'a>(
    log: &WpiLog<'a>,
    metadata: &Vec<MetadataEntry<'a>>,
    channel: &str,
) -> (r: Option<Vec<(u64, u64)>>)
    ensures
        match first_named(entries_view(metadata@), channel.spec_bytes()) {
            Some(i) => r matches Some(v) && v@ == enabled_spans(
                log@.records,
                metadata@[i].entry_id,
            ),
            None => r is None,
        },
{
    let index = match find_by_name(metadata, channel) {
        Some(i) => i,
        None => {
            return None;
        },
    };
    let id = metadata[index].entry_id;
    let min = log_min_timestamp(&log.records);
    let max = log_max_timestamp(&log.records);
    let ghost rs = records_view(log.records@);
    let mut spans: Vec<Span> = Vec::new();
    let mut i: usize = 0;
    assert(rs.take(0) =~= Seq::<RecordView>::empty());
    while i < log.records.len()
        invariant
            i <= log.records@.len(),
            rs == records_view(log.records@),
            spans@ == fold_spans(rs.take(i as int), id),
        decreases log.records@.len() - i,
    {
        proof {
            let next = rs.take(i + 1);
            assert(next.drop_last() =~= rs.take(i as int));
            assert(next.last() == log.records@[i as int]@);
        }
        let record = &log.records[i];
        match record.data {
            Record::Data(d) => {
                if record.entry_id == id && d.data.len() > 0 {
                    if d.data[0] == 1 {
                        spans.push((Some(record.timestamp_us), None));
                    } else {
                        close_last_open(&mut spans, record.timestamp_us);
                    }
                }
            },
            Record::Control(_) => {},
        }
        i = i + 1;
    }
    assert(rs.take(i as int) =~= rs);
    let mut periods: Vec<(u64, u64)> = Vec::new();
    let mut k: usize = 0;
    while k < spans.len()
        invariant
            k <= spans@.len(),
            periods@.len() == k,
            forall|j: int| 0 <= j < k ==> periods@[j] == clamp_span(spans@[j], min, max),
        decreases spans@.len() - k,
    {
        let span = spans[k];
        let start = match span.0 {
            Some(t) => t,
            None => min,
        };
        let end = match span.1 {
            Some(t) => t,
            None => max,
        };
        periods.push((start, end));
        k = k + 1;
    }
    assert(periods@ =~= enabled_spans(rs, id));
    Some(periods)
}

/// Closing a span changes no start and removes no span.
pub proof fn lemma_close_keeps_starts(spans: Seq<Span>, ts: u64)
    ensures
        close_span(spans, ts).len() == spans.len(),
        forall|i: int| 0 <= i < spans.len() ==> (#[trigger] close_span(spans, ts)[i]).0 == spans[i].0,
{
}

/// Every span has the timestamp of the `true` sample that opened it as
/// its start; a start is never missing.
pub proof fn lemma_spans_have_starts(rs: Seq<RecordView>, id: u32)
    ensures
        forall|i: int| 0 <= i < fold_spans(rs, id).len() ==> (#[trigger] fold_spans(rs, id)[i]).0 is Some,
    decreases rs.len(),
{
    if rs.len() > 0 {
        lemma_spans_have_starts(rs.drop_last(), id);
        let before = fold_spans(rs.drop_last(), id);
        lemma_close_keeps_starts(before, rs.last().timestamp_us);
    }
}

} // verus!
