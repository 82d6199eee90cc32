//! The decoded WPILOG data model and its mathematical views.
//!
//! Decoded values borrow from the input buffer. In the views a text field
//! is its UTF-8 byte string and a payload is its byte sequence.

use vstd::prelude::*;
use vstd::string::*;
use crate::error::DecodeError;

verus! {

/// A decoded log: version, free-text header and the records in file order.
#[derive(Debug, Clone)]
pub struct WpiLog<'a> {
    pub major_version: u8,
    pub minor_version: u8,
    pub extra_header: &'a str,
    pub records: Vec<WpiRecord<'a>>,
}

/// One record: the entry it belongs to, its timestamp and what it carries.
#[derive(Debug, Clone, Copy)]
pub struct WpiRecord<'a> {
    pub entry_id: u32,
    pub timestamp_us: u64,
    pub data: Record<'a>,
}

#[derive(Debug, Clone, Copy)]
pub enum Record<'a> {
    Data(DataRecord<'a>),
    Control(ControlRecord<'a>),
}

/// The uninterpreted payload of a data record.
#[derive(Debug, Clone, Copy)]
pub struct DataRecord<'a> {
    pub data: &'a [u8],
}

#[derive(Debug, Clone, Copy)]
pub enum ControlRecord<'a> {
    Start(StartRecord<'a>),
    Finish(FinishRecord),
    SetMetadata(SetMetadataRecord<'a>),
}

#[derive(Debug, Clone, Copy)]
pub struct StartRecord<'a> {
    pub entry_id: u32,
    pub name: &'a str,
    pub typ: &'a str,
    pub metadata: &'a str,
}

#[derive(Debug, Clone, Copy)]
pub struct FinishRecord {
    pub entry_id: u32,
}

#[derive(Debug, Clone, Copy)]
pub struct SetMetadataRecord<'a> {
    pub entry_id: u32,
    pub metadata: &'a str,
}

pub struct StartView {
    pub entry_id: u32,
    pub name: Seq<u8>,
    pub typ: Seq<u8>,
    pub metadata: Seq<u8>,
}

pub struct SetMetadataView {
    pub entry_id: u32,
    pub metadata: Seq<u8>,
}

pub enum ControlView {
    Start(StartView),
    Finish(u32),
    SetMetadata(SetMetadataView),
}

pub enum PayloadView {
    Data(Seq<u8>),
    Control(ControlView),
}

pub struct RecordView {
    pub entry_id: u32,
    pub timestamp_us: u64,
    pub data: PayloadView,
}

pub struct LogView {
    pub major_version: u8,
    pub minor_version: u8,
    pub extra_header: Seq<u8>,
    pub records: Seq<RecordView>,
}

impl<'a> View for StartRecord<'a> {
    type V = StartView;

    open spec fn view(&self) -> StartView {
        StartView {
            entry_id: self.entry_id,
            name: self.name.spec_bytes(),
            typ: self.typ.spec_bytes(),
            metadata: self.metadata.spec_bytes(),
        }
    }
}

impl<'a> View for SetMetadataRecord<'a> {
    type V = SetMetadataView;

    open spec fn view(&self) -> SetMetadataView {
        SetMetadataView { entry_id: self.entry_id, metadata: self.metadata.spec_bytes() }
    }
}

impl<'a> View for ControlRecord<'a> {
    type V = ControlView;

    open spec fn view(&self) -> ControlView {
        match *self {
            ControlRecord::Start(s) => ControlView::Start(s@),
            ControlRecord::Finish(f) => ControlView::Finish(f.entry_id),
            ControlRecord::SetMetadata(m) => ControlView::SetMetadata(m@),
        }
    }
}

impl<'a> View for Record<'a> {
    type V = PayloadView;

    open spec fn view(&self) -> PayloadView {
        match *self {
            Record::Data(d) => PayloadView::Data(d.data@),
            Record::Control(c) => PayloadView::Control(c@),
        }
    }
}

impl<'a> View for WpiRecord<'a> {
    type V = RecordView;

    open spec fn view(&self) -> RecordView {
        RecordView { entry_id: self.entry_id, timestamp_us: self.timestamp_us, data: self.data@ }
    }
}

/// The views of a run of records, in order.
pub open spec fn records_view<'a>(rs: Seq<WpiRecord<'a>>) -> Seq<RecordView> {
    rs.map_values(|r: WpiRecord<'a>| r@)
}

impl<'a> View for WpiLog<'a> {
    type V = LogView;

    open spec fn view(&self) -> LogView {
        LogView {
            major_version: self.major_version,
            minor_version: self.minor_version,
            extra_header: self.extra_header.spec_bytes(),
            records: records_view(self.records@),
        }
    }
}

/// The value shape that a type tag announces. Tags outside the known
/// vocabulary are `Opaque`: their payloads stay uninterpreted bytes.
#[derive(Debug, Clone, Copy, PartialEq, Eq, Structural)]
pub enum ValueKind {
    Boolean,
    Int64,
    Float,
    Double,
    Text,
    BooleanArray,
    Int64Array,
    FloatArray,
    DoubleArray,
    TextArray,
    Opaque,
}

/// The element type of a fixed-width array.
#[derive(Debug, Clone, Copy, PartialEq, Eq, Structural)]
pub enum ScalarKind {
    Boolean,
    Int64,
    Float,
    Double,
}

impl ScalarKind {
    /// Bytes that one element takes.
    pub open spec fn spec_width(self) -> usize {
        match self {
            ScalarKind::Boolean => 1,
            ScalarKind::Int64 => 8,
            ScalarKind::Float => 4,
            ScalarKind::Double => 8,
        }
    }

    /// Bytes that one element takes.
    #[verifier::when_used_as_spec(spec_width)]
    pub fn width(self) -> (w: usize)
        ensures
            w == self.spec_width(),
    {
        match self {
            ScalarKind::Boolean => 1,
            ScalarKind::Int64 => 8,
            ScalarKind::Float => 4,
            ScalarKind::Double => 8,
        }
    }
}

/// One decoded scalar. `Float` and `Double` hold the IEEE-754 bit pattern
/// as it stands in the payload.
#[derive(Debug, Clone, Copy)]
pub enum DataType<'a> {
    Raw(&'a [u8]),
    Boolean(bool),
    Int64(i64),
    Float(u32),
    Double(u64),
    String(&'a str),
}

pub enum DataValue {
    Raw(Seq<u8>),
    Boolean(bool),
    Int64(i64),
    Float(u32),
    Double(u64),
    Text(Seq<u8>),
}

impl<'a> View for DataType<'a> {
    type V = DataValue;

    open spec fn view(&self) -> DataValue {
        match *self {
            DataType::Raw(b) => DataValue::Raw(b@),
            DataType::Boolean(b) => DataValue::Boolean(b),
            DataType::Int64(v) => DataValue::Int64(v),
            DataType::Float(bits) => DataValue::Float(bits),
            DataType::Double(bits) => DataValue::Double(bits),
            DataType::String(s) => DataValue::Text(s.spec_bytes()),
        }
    }
}

/// The views of a run of scalars, in order.
pub open spec fn values_view<'a>(vs: Seq<DataType<'a>>) -> Seq<DataValue> {
    vs.map_values(|v: DataType<'a>| v@)
}

/// The UTF-8 bytes of each text of a run, in order.
pub open spec fn texts_view<'a>(ts: Seq<&'a str>) -> Seq<Seq<u8>> {
    ts.map_values(|t: &'a str| t.spec_bytes())
}

/// The kind that the type tag `tag` (as UTF-8 bytes) stands for.
pub open spec fn kind_of_tag(tag: Seq<u8>) -> ValueKind {
    if tag == "boolean".spec_bytes() {
        ValueKind::Boolean
    } else if tag == "int64".spec_bytes() {
        ValueKind::Int64
    } else if tag == "float".spec_bytes() {
        ValueKind::Float
    } else if tag == "double".spec_bytes() {
        ValueKind::Double
    } else if tag == "string".spec_bytes() {
        ValueKind::Text
    } else if tag == "boolean[]".spec_bytes() {
        ValueKind::BooleanArray
    } else if tag == "int64[]".spec_bytes() {
        ValueKind::Int64Array
    } else if tag == "float[]".spec_bytes() {
        ValueKind::FloatArray
    } else if tag == "double[]".spec_bytes() {
        ValueKind::DoubleArray
    } else if tag == "string[]".spec_bytes() {
        ValueKind::TextArray
    } else {
        ValueKind::Opaque
    }
}

/// Whether two byte strings are equal.
pub fn bytes_eq(a: &[u8], b: &[u8]) -> (r: bool)
    ensures
        r == (a@ == b@),
{
    if a.len() != b.len() {
        return false;
    }
    let mut i: usize = 0;
    while i < a.len()
        invariant
            a@.len() == b@.len(),
            i <= a@.len(),
            forall|k: int| 0 <= k < i ==> a@[k] == b@[k],
        decreases a@.len() - i,
    {
        if a[i] != b[i] {
            return false;
        }
        i = i + 1;
    }
    assert(a@ =~= b@);
    true
}

impl ValueKind {
    /// Resolves a type tag to its kind.
    pub fn from_tag(typ: &str) -> (kind: ValueKind)
        ensures
            kind == kind_of_tag(typ.spec_bytes()),
    {
        let tag = typ.as_bytes();
        if bytes_eq(tag, "boolean".as_bytes()) {
            ValueKind::Boolean
        } else if bytes_eq(tag, "int64".as_bytes()) {
            ValueKind::Int64
        } else if bytes_eq(tag, "float".as_bytes()) {
            ValueKind::Float
        } else if bytes_eq(tag, "double".as_bytes()) {
            ValueKind::Double
        } else if bytes_eq(tag, "string".as_bytes()) {
            ValueKind::Text
        } else if bytes_eq(tag, "boolean[]".as_bytes()) {
            ValueKind::BooleanArray
        } else if bytes_eq(tag, "int64[]".as_bytes()) {
            ValueKind::Int64Array
        } else if bytes_eq(tag, "float[]".as_bytes()) {
            ValueKind::FloatArray
        } else if bytes_eq(tag, "double[]".as_bytes()) {
            ValueKind::DoubleArray
        } else if bytes_eq(tag, "string[]".as_bytes()) {
            ValueKind::TextArray
        } else {
            ValueKind::Opaque
        }
    }

    /// Bytes per element of a fixed-width array kind; 0 for every other kind.
    pub open spec fn spec_element_width(self) -> usize {
        match self {
            ValueKind::BooleanArray => 1,
            ValueKind::Int64Array => 8,
            ValueKind::FloatArray => 4,
            ValueKind::DoubleArray => 8,
            _ => 0,
        }
    }

    /// Bytes per element of a fixed-width array kind; 0 for every other kind.
    #[verifier::when_used_as_spec(spec_element_width)]
    pub fn element_width(self) -> (w: usize)
        ensures
            w == self.spec_element_width(),
    {
        match self {
            ValueKind::BooleanArray => 1,
            ValueKind::Int64Array => 8,
            ValueKind::FloatArray => 4,
            ValueKind::DoubleArray => 8,
            _ => 0,
        }
    }
}

/// What is known of one entry after a pass over the records.
#[derive(Debug, Clone, Copy)]
pub struct MetadataEntry<'a> {
    pub entry_id: u32,
    pub name: &'a str,
    pub typ: &'a str,
    /// The kind that `typ` resolves to.
    pub kind: ValueKind,
    /// The metadata text of the last `SetMetadata`, else that of `Start`.
    pub metadata: &'a str,
    /// Number of data records seen.
    pub entry_count: usize,
    /// For a fixed-width array entry whose samples so far all hold the same
    /// number of elements: that number, and the element width in bytes.
    pub all_same_length: Option<(usize, usize)>,
    pub finished: bool,
    /// Timestamp of the first data record seen; 0 before any.
    pub start_time: u64,
    /// Timestamp of the last data record seen; 0 before any.
    pub end_time: u64,
}

pub struct EntryView {
    pub entry_id: u32,
    pub name: Seq<u8>,
    pub typ: Seq<u8>,
    pub kind: ValueKind,
    pub metadata: Seq<u8>,
    pub entry_count: nat,
    pub all_same_length: Option<(nat, nat)>,
    pub finished: bool,
    pub start_time: u64,
    pub end_time: u64,
}

impl<'a> View for MetadataEntry<'a> {
    type V = EntryView;

    open spec fn view(&self) -> EntryView {
        EntryView {
            entry_id: self.entry_id,
            name: self.name.spec_bytes(),
            typ: self.typ.spec_bytes(),
            kind: self.kind,
            metadata: self.metadata.spec_bytes(),
            entry_count: self.entry_count as nat,
            all_same_length: match self.all_same_length {
                Some(shape) => Some((shape.0 as nat, shape.1 as nat)),
                None => None,
            },
            finished: self.finished,
            start_time: self.start_time,
            end_time: self.end_time,
        }
    }
}

/// The views of a run of entries, in order.
pub open spec fn entries_view<'a>(es: Seq<MetadataEntry<'a>>) -> Seq<EntryView> {
    es.map_values(|e: MetadataEntry<'a>| e@)
}

/// The descriptor that a `Start` record opens.
pub open spec fn fresh_entry(start: StartView) -> EntryView {
    EntryView {
        entry_id: start.entry_id,
        name: start.name,
        typ: start.typ,
        kind: kind_of_tag(start.typ),
        metadata: start.metadata,
        entry_count: 0,
        all_same_length: None,
        finished: false,
        start_time: 0,
        end_time: 0,
    }
}

/// The shape that the first sample, of `len` bytes, gives an entry.
pub open spec fn initial_shape(kind: ValueKind, len: nat) -> Option<(nat, nat)> {
    let width = kind.spec_element_width() as nat;
    if width == 0 {
        None
    } else {
        Some((len / width, width))
    }
}

/// The shape after a later sample of `len` bytes: kept while the element
/// count agrees, gone for good once it does not.
pub open spec fn narrowed_shape(shape: Option<(nat, nat)>, len: nat) -> Option<(nat, nat)> {
    match shape {
        Some((count, width)) => if width != 0 && count == len / width {
            shape
        } else {
            None
        },
        None => None,
    }
}

/// The entry after one more of its samples, of `len` bytes at `timestamp`.
pub open spec fn observe(e: EntryView, timestamp: u64, len: nat) -> EntryView {
    EntryView {
        entry_count: e.entry_count + 1,
        all_same_length: if e.entry_count == 0 {
            initial_shape(e.kind, len)
        } else {
            narrowed_shape(e.all_same_length, len)
        },
        start_time: if e.entry_count == 0 {
            timestamp
        } else {
            e.start_time
        },
        end_time: timestamp,
        ..e
    }
}

/// What a record other than `Start` does to one descriptor: nothing unless
/// it names the descriptor's entry.
pub open spec fn touch(e: EntryView, r: RecordView) -> EntryView {
    match r.data {
        PayloadView::Control(ControlView::Start(_)) => e,
        PayloadView::Control(ControlView::SetMetadata(m)) => if e.entry_id == m.entry_id {
            EntryView { metadata: m.metadata, ..e }
        } else {
            e
        },
        PayloadView::Control(ControlView::Finish(id)) => if e.entry_id == id {
            EntryView { finished: true, ..e }
        } else {
            e
        },
        PayloadView::Data(d) => if e.entry_id == r.entry_id {
            observe(e, r.timestamp_us, d.len())
        } else {
            e
        },
    }
}

/// Some descriptor of `es` belongs to entry `id`.
pub open spec fn has_entry(es: Seq<EntryView>, id: u32) -> bool {
    exists|i: int| 0 <= i < es.len() && #[trigger] es[i].entry_id == id
}

/// The descriptors after one more record. A `Start` appends a descriptor
/// and is an error if its entry already has one; every other record
/// updates the descriptor of its entry, if there is one.
pub open spec fn apply_record(es: Seq<EntryView>, r: RecordView) -> Result<
    Seq<EntryView>,
    DecodeError,
> {
    match r.data {
        PayloadView::Control(ControlView::Start(start)) => if has_entry(es, start.entry_id) {
            Err(DecodeError::DuplicateEntryId)
        } else {
            Ok(es.push(fresh_entry(start)))
        },
        _ => Ok(touched(es, r)),
    }
}

/// The descriptors after a forward pass over `rs`, in the order in which
/// their `Start` records come.
pub open spec fn aggregate(rs: Seq<RecordView>) -> Result<Seq<EntryView>, DecodeError>
    decreases rs.len(),
{
    if rs.len() == 0 {
        Ok(Seq::empty())
    } else {
        match aggregate(rs.drop_last()) {
            Err(e) => Err(e),
            Ok(es) => apply_record(es, rs.last()),
        }
    }
}

/// Whether some descriptor belongs to entry `id`.
pub fn contains_entry<'a>(entries: &Vec<MetadataEntry<'a>>, id: u32) -> (found: bool)
    ensures
        found == has_entry(entries_view(entries@), id),
{
    let mut i: usize = 0;
    while i < entries.len()
        invariant
            i <= entries@.len(),
            forall|k: int| 0 <= k < i ==> entries@[k].entry_id != id,
        decreases entries@.len() - i,
    {
        if entries[i].entry_id == id {
            assert(entries_view(entries@)[i as int].entry_id == id);
            return true;
        }
        i = i + 1;
    }
    proof {
        let es = entries_view(entries@);
        assert forall|k: int| 0 <= k < es.len() implies es[k].entry_id != id by {
            assert(es[k] == entries@[k]@);
        }
    }
    false
}

/// The shape that the first sample gives an entry of kind `kind`.
fn first_shape(kind: ValueKind, len: usize) -> (shape: Option<(usize, usize)>)
    ensures
        match initial_shape(kind, len as nat) {
            Some(s) => shape matches Some(t) && t.0 == s.0 && t.1 == s.1,
            None => shape is None,
        },
{
    let width = kind.element_width();
    if width == 0 {
        None
    } else {
        Some((len / width, width))
    }
}

/// One descriptor after the record `r`, which is no `Start`.
fn touch_entry<'a>(e: MetadataEntry<'a>, r: &WpiRecord<'a>) -> (out: MetadataEntry<'a>)
    requires
        e.entry_count < usize::MAX,
    ensures
        out@ == touch(e@, r@),
        out.entry_count <= e.entry_count + 1,
{
    match r.data {
        Record::Control(ControlRecord::Start(_)) => e,
        Record::Control(ControlRecord::SetMetadata(m)) => {
            if e.entry_id == m.entry_id {
                MetadataEntry { metadata: m.metadata, ..e }
            } else {
                e
            }
        },
        Record::Control(ControlRecord::Finish(f)) => {
            if e.entry_id == f.entry_id {
                MetadataEntry { finished: true, ..e }
            } else {
                e
            }
        },
        Record::Data(d) => {
            if e.entry_id == r.entry_id {
                let len = d.data.len();
                let first = e.entry_count == 0;
                let shape = if first {
                    first_shape(e.kind, len)
                } else {
                    match e.all_same_length {
                        Some((count, width)) => {
                            if width != 0 && count == len / width {
                                Some((count, width))
                            } else {
                                None
                            }
                        },
                        None => None,
                    }
                };
                MetadataEntry {
                    entry_count: e.entry_count + 1,
                    all_same_length: shape,
                    start_time: if first {
                        r.timestamp_us
                    } else {
                        e.start_time
                    },
                    end_time: r.timestamp_us,
                    ..e
                }
            } else {
                e
            }
        },
    }
}

impl<'a> WpiLog<'a> {
    /// Builds one descriptor per entry in a single forward pass. Fails with
    /// `DuplicateEntryId` when a second `Start` names an entry that already
    /// has a descriptor. Records of entries without a descriptor are
    /// passed over.
    pub fn get_entry_metadata(&self) -> (r: Result<Vec<MetadataEntry<'a>>, DecodeError>)
        ensures
            match aggregate(self@.records) {
                Ok(es) => r matches Ok(v) && entries_view(v@) == es,
                Err(e) => r matches Err(x) && x == e,
            },
    {
        let mut entries: Vec<MetadataEntry<'a>> = Vec::new();
        let mut i: usize = 0;
        let ghost rs = records_view(self.records@);
        assert(rs.take(0) =~= Seq::<RecordView>::empty());
        assert(entries_view(entries@) =~= Seq::<EntryView>::empty());
        while i < self.records.len()
            invariant
                i <= self.records@.len(),
                rs == records_view(self.records@),
                aggregate(rs.take(i as int)) == Ok::<Seq<EntryView>, DecodeError>(
                    entries_view(entries@),
                ),
                forall|k: int| 0 <= k < entries@.len() ==> entries@[k].entry_count <= i,
            decreases self.records@.len() - i,
        {
            let record = self.records[i];
            proof {
                let next = rs.take(i + 1);
                assert(next.drop_last() =~= rs.take(i as int));
                assert(next.last() == record@);
            }
            match record.data {
                Record::Control(ControlRecord::Start(start)) => {
                    if contains_entry(&entries, start.entry_id) {
                        proof {
                            lemma_aggregate_error_stays(rs, i + 1);
                            assert(rs.take(rs.len() as int) =~= rs);
                        }
                        return Err(DecodeError::DuplicateEntryId);
                    }
                    let entry = MetadataEntry {
                        entry_id: start.entry_id,
                        name: start.name,
                        typ: start.typ,
                        kind: ValueKind::from_tag(start.typ),
                        metadata: start.metadata,
                        entry_count: 0,
                        all_same_length: None,
                        finished: false,
                        start_time: 0,
                        end_time: 0,
                    };
                    proof {
                        assert(entries_view(entries@.push(entry)) =~= entries_view(entries@).push(
                            fresh_entry(start@),
                        ));
                    }
                    entries.push(entry);
                },
                _ => {
                    touch_all(&mut entries, &record, i);
                },
            }
            i = i + 1;
        }
        assert(rs.take(i as int) =~= rs);
        Ok(entries)
    }
}

/// Updates every descriptor for the record `r`, which is no `Start`.
fn touch_all<'a>(entries: &mut Vec<MetadataEntry<'a>>, r: &WpiRecord<'a>, seen: usize)
    requires
        seen < usize::MAX,
        forall|k: int| 0 <= k < old(entries)@.len() ==> old(entries)@[k].entry_count <= seen,
    ensures
        entries_view(final(entries)@) == touched(entries_view(old(entries)@), r@),
        forall|k: int|
            0 <= k < final(entries)@.len() ==> final(entries)@[k].entry_count <= seen + 1,
{
    let mut j: usize = 0;
    let ghost before = entries@;
    while j < entries.len()
        invariant
            seen < usize::MAX,
            j <= entries@.len(),
            entries@.len() == before.len(),
            forall|k: int| 0 <= k < j ==> entries@[k]@ == touch(before[k]@, r@),
            forall|k: int| 0 <= k < j ==> entries@[k].entry_count <= seen + 1,
            forall|k: int| j <= k < before.len() ==> entries@[k] == before[k],
            forall|k: int| 0 <= k < before.len() ==> before[k].entry_count <= seen,
        decreases entries@.len() - j,
    {
        let updated = touch_entry(entries[j], r);
        entries.set(j, updated);
        j = j + 1;
    }
    assert(entries_view(entries@) =~= touched(entries_view(before), r@));
}

/// Once a prefix of the records fails, every longer prefix fails alike.
pub proof fn lemma_aggregate_error_stays(rs: Seq<RecordView>, n: int)
    requires
        0 <= n <= rs.len(),
        aggregate(rs.take(n)) is Err,
    ensures
        aggregate(rs) == aggregate(rs.take(n)),
    decreases rs.len() - n,
{
    if n == rs.len() {
        assert(rs.take(n) =~= rs);
    } else {
        let next = rs.take(n + 1);
        assert(next.drop_last() =~= rs.take(n));
        lemma_aggregate_error_stays(rs, n + 1);
    }
}

/// `typ` (as UTF-8 bytes) ends in `[]`.
pub open spec fn ends_with_brackets(typ: Seq<u8>) -> bool {
    typ.len() >= 2 && typ.subrange(typ.len() - 2, typ.len() as int) == "[]".spec_bytes()
}

impl EntryView {
    /// The type tag names an array.
    pub open spec fn is_array(self) -> bool {
        ends_with_brackets(self.typ)
    }

    /// The entry gets one column per element slot: it is an array whose
    /// samples all held the same number of elements, and it has more than
    /// 16 samples.
    pub open spec fn should_expand(self) -> bool {
        self.is_array() && self.all_same_length is Some && self.entry_count > 16
    }

    /// Number of columns of the entry: a length column and one per element
    /// slot when it is expanded, else one.
    pub open spec fn field_count(self) -> nat {
        if self.should_expand() {
            self.all_same_length.unwrap().0 + 1
        } else {
            1
        }
    }
}

/// The character of the decimal digit `d`.
pub open spec fn digit_char(d: nat) -> char {
    if d == 0 {
        '0'
    } else if d == 1 {
        '1'
    } else if d == 2 {
        '2'
    } else if d == 3 {
        '3'
    } else if d == 4 {
        '4'
    } else if d == 5 {
        '5'
    } else if d == 6 {
        '6'
    } else if d == 7 {
        '7'
    } else if d == 8 {
        '8'
    } else {
        '9'
    }
}

/// `n` written in decimal, without leading zeros.
pub open spec fn decimal_digits(n: nat) -> Seq<char>
    decreases n,
{
    if n < 10 {
        seq![digit_char(n)]
    } else {
        decimal_digits(n / 10).push(digit_char(n % 10))
    }
}

/// The column names of an entry called `name`: the name alone, or, when
/// expanded over `slots` element slots, `name/len` and then `name/[i]` for
/// each slot.
pub open spec fn field_names(name: Seq<char>, expanded: bool, slots: nat) -> Seq<Seq<char>> {
    if expanded {
        seq![name + "/len"@] + Seq::new(
            slots,
            |i: int| name + "/["@ + decimal_digits(i as nat) + "]"@,
        )
    } else {
        seq![name]
    }
}

/// The contents of each string of a run, in order.
pub open spec fn strings_view(ss: Seq<String>) -> Seq<Seq<char>> {
    ss.map_values(|s: String| s@)
}

/// Calls `String::push`, which appends the character.
#[verifier::external_body]
fn push_char(s: &mut String, c: char)
    ensures
        final(s)@ == old(s)@.push(c),
{
    s.push(c);
}

fn digit_of(d: usize) -> (c: char)
    requires
        d < 10,
    ensures
        c == digit_char(d as nat),
{
    if d == 0 {
        '0'
    } else if d == 1 {
        '1'
    } else if d == 2 {
        '2'
    } else if d == 3 {
        '3'
    } else if d == 4 {
        '4'
    } else if d == 5 {
        '5'
    } else if d == 6 {
        '6'
    } else if d == 7 {
        '7'
    } else if d == 8 {
        '8'
    } else {
        '9'
    }
}

/// Writes `n` in decimal.
pub fn decimal_text(n: usize) -> (s: String)
    ensures
        s@ == decimal_digits(n as nat),
    decreases n,
{
    if n < 10 {
        let mut s = String::new();
        push_char(&mut s, digit_of(n));
        assert(s@ =~= seq![digit_char(n as nat)]);
        s
    } else {
        let mut s = decimal_text(n / 10);
        push_char(&mut s, digit_of(n % 10));
        s
    }
}

impl<'a> MetadataEntry<'a> {
    /// Whether the type tag ends in `[]`.
    pub fn is_array(&self) -> (r: bool)
        ensures
            r == self@.is_array(),
    {
        let tag = self.typ.as_bytes();
        let n = tag.len();
        if n < 2 {
            return false;
        }
        bytes_eq(vstd::slice::slice_subrange(tag, n - 2, n), "[]".as_bytes())
    }

    /// Whether the entry gets one column per element slot.
    pub fn should_expand(&self) -> (r: bool)
        ensures
            r == self@.should_expand(),
    {
        self.is_array() && self.all_same_length.is_some() && self.entry_count > 16
    }

    /// Number of columns of the entry.
    pub fn field_count(&self) -> (r: usize)
        requires
            self@.field_count() <= usize::MAX,
        ensures
            r == self@.field_count(),
    {
        if self.should_expand() {
            match self.all_same_length {
                Some(shape) => shape.0 + 1,
                None => 1,
            }
        } else {
            1
        }
    }

    /// The column names of the entry, one per column.
    pub fn fields(&self) -> (r: Vec<String>)
        ensures
            strings_view(r@) == field_names(
                self.name@,
                self@.should_expand(),
                match self@.all_same_length {
                    Some(shape) => shape.0,
                    None => 0,
                },
            ),
    {
        let mut out: Vec<String> = Vec::new();
        if !self.should_expand() {
            out.push(String::from_str(self.name));
            assert(strings_view(out@) =~= seq![self.name@]);
            return out;
        }
        let slots = match self.all_same_length {
            Some(shape) => shape.0,
            None => 0,
        };
        out.push(String::from_str(self.name).concat("/len"));
        let mut i: usize = 0;
        while i < slots
            invariant
                i <= slots,
                out@.len() == i + 1,
                out@[0]@ == self.name@ + "/len"@,
                forall|k: int|
                    0 <= k < i ==> (#[trigger] out@[k + 1])@ == self.name@ + "/["@
                        + decimal_digits(k as nat) + "]"@,
            decreases slots - i,
        {
            let number = decimal_text(i);
            let column = String::from_str(self.name).concat("/[").concat(number.as_str()).concat(
                "]",
            );
            out.push(column);
            i = i + 1;
        }
        proof {
            let expected = field_names(self.name@, true, slots as nat);
            assert(strings_view(out@).len() == expected.len());
            assert forall|k: int| 0 <= k < expected.len() implies strings_view(out@)[k]
                == expected[k] by {
                if k > 0 {
                    assert(out@[(k - 1) + 1]@ == self.name@ + "/["@ + decimal_digits(
                        (k - 1) as nat,
                    ) + "]"@);
                }
            }
            assert(strings_view(out@) =~= expected);
        }
        out
    }
}

/// Record `i` of `rs` is a `Start` for entry `id`.
pub open spec fn is_start_of(rs: Seq<RecordView>, i: int, id: u32) -> bool {
    0 <= i < rs.len() && (rs[i].data matches PayloadView::Control(ControlView::Start(s))
        && s.entry_id == id)
}

/// Two `Start` records of `rs` name the same entry.
pub open spec fn has_duplicate_start(rs: Seq<RecordView>) -> bool {
    exists|i: int, j: int, id: u32| i < j && is_start_of(rs, i, id) && is_start_of(rs, j, id)
}

/// The descriptors after a record other than `Start`.
pub open spec fn touched(es: Seq<EntryView>, r: RecordView) -> Seq<EntryView> {
    es.map_values(|e: EntryView| touch(e, r))
}

/// A record other than `Start` leaves every descriptor's entry id alone.
pub proof fn lemma_touch_keeps_ids(es: Seq<EntryView>, r: RecordView)
    ensures
        touched(es, r).len() == es.len(),
        forall|i: int| 0 <= i < es.len() ==> (#[trigger] touched(es, r)[i]).entry_id == es[i].entry_id,
{
}

/// After a pass that succeeds, an entry has a descriptor exactly when a
/// `Start` record named it, and no two descriptors share an entry id.
pub proof fn lemma_aggregate_ids(rs: Seq<RecordView>)
    requires
        aggregate(rs) is Ok,
    ensures
        forall|id: u32|
            has_entry(aggregate(rs).unwrap(), id) <==> exists|i: int| is_start_of(rs, i, id),
        forall|i: int, j: int|
            0 <= i < j < aggregate(rs).unwrap().len() ==> aggregate(rs).unwrap()[i].entry_id
                != aggregate(rs).unwrap()[j].entry_id,
        !has_duplicate_start(rs),
    decreases rs.len(),
{
    let es = aggregate(rs).unwrap();
    if rs.len() == 0 {
        assert forall|id: u32| has_entry(es, id) <==> exists|i: int| is_start_of(rs, i, id) by {}
    } else {
        let head = rs.drop_last();
        let r = rs.last();
        let n = rs.len() - 1;
        lemma_aggregate_ids(head);
        let before = aggregate(head).unwrap();
        assert forall|i: int, id: u32| is_start_of(head, i, id) implies is_start_of(rs, i, id) by {
            assert(head[i] == rs[i]);
        }
        assert forall|i: int, id: u32| i < n && is_start_of(rs, i, id) implies is_start_of(
            head,
            i,
            id,
        ) by {
            assert(head[i] == rs[i]);
        }
        match r.data {
            PayloadView::Control(ControlView::Start(start)) => {
                assert(!has_entry(before, start.entry_id));
                assert(es == before.push(fresh_entry(start)));
                assert(is_start_of(rs, n, start.entry_id));
                assert forall|id: u32| has_entry(es, id) <==> exists|i: int|
                    is_start_of(rs, i, id) by {
                    if has_entry(es, id) {
                        let k = choose|k: int| 0 <= k < es.len() && es[k].entry_id == id;
                        if k < before.len() {
                            assert(before[k].entry_id == id);
                            assert(has_entry(before, id));
                            let i = choose|i: int| is_start_of(head, i, id);
                            assert(is_start_of(rs, i, id));
                        } else {
                            assert(is_start_of(rs, n, id));
                        }
                    }
                    if exists|i: int| is_start_of(rs, i, id) {
                        let i = choose|i: int| is_start_of(rs, i, id);
                        if i < n {
                            assert(is_start_of(head, i, id));
                            assert(has_entry(before, id));
                            let k = choose|k: int|
                                0 <= k < before.len() && before[k].entry_id == id;
                            assert(es[k].entry_id == id);
                        } else {
                            assert(es[before.len() as int].entry_id == id);
                        }
                    }
                }
                assert forall|i: int, j: int| 0 <= i < j < es.len() implies es[i].entry_id
                    != es[j].entry_id by {
                    if j == before.len() {
                        assert(before[i].entry_id != start.entry_id) by {
                            if before[i].entry_id == start.entry_id {
                                assert(has_entry(before, start.entry_id));
                            }
                        }
                    }
                }
                assert(!has_duplicate_start(rs)) by {
                    if has_duplicate_start(rs) {
                        let (i, j, id) = choose|i: int, j: int, id: u32|
                            i < j && is_start_of(rs, i, id) && is_start_of(rs, j, id);
                        if j < n {
                            assert(is_start_of(head, i, id) && is_start_of(head, j, id));
                            assert(has_duplicate_start(head));
                        } else {
                            assert(id == start.entry_id);
                            assert(is_start_of(head, i, id));
                            assert(has_entry(before, id));
                        }
                    }
                }
            },
            _ => {
                lemma_touch_keeps_ids(before, r);
                assert(es == touched(before, r));
                assert forall|i: int, id: u32| is_start_of(rs, i, id) implies i < n by {}
                assert forall|id: u32| has_entry(es, id) <==> exists|i: int|
                    is_start_of(rs, i, id) by {
                    if has_entry(es, id) {
                        let k = choose|k: int| 0 <= k < es.len() && es[k].entry_id == id;
                        assert(before[k].entry_id == id);
                        assert(has_entry(before, id));
                        let i = choose|i: int| is_start_of(head, i, id);
                        assert(is_start_of(rs, i, id));
                    }
                    if exists|i: int| is_start_of(rs, i, id) {
                        let i = choose|i: int| is_start_of(rs, i, id);
                        assert(is_start_of(head, i, id));
                        assert(has_entry(before, id));
                        let k = choose|k: int| 0 <= k < before.len() && before[k].entry_id == id;
                        assert(es[k].entry_id == id);
                    }
                }
                assert(!has_duplicate_start(rs)) by {
                    if has_duplicate_start(rs) {
                        let (i, j, id) = choose|i: int, j: int, id: u32|
                            i < j && is_start_of(rs, i, id) && is_start_of(rs, j, id);
                        assert(is_start_of(head, i, id) && is_start_of(head, j, id));
                        assert(has_duplicate_start(head));
                    }
                }
            },
        }
    }
}

/// The pass fails exactly when two `Start` records name the same entry,
/// and then with `DuplicateEntryId`.
pub proof fn lemma_aggregate_fails_on_duplicates(rs: Seq<RecordView>)
    ensures
        aggregate(rs) is Err <==> has_duplicate_start(rs),
        aggregate(rs) matches Err(e) ==> e == DecodeError::DuplicateEntryId,
    decreases rs.len(),
{
    if aggregate(rs) is Ok {
        lemma_aggregate_ids(rs);
    } else {
        let head = rs.drop_last();
        let r = rs.last();
        let n = rs.len() - 1;
        lemma_aggregate_fails_on_duplicates(head);
        if aggregate(head) is Err {
            let (i, j, id) = choose|i: int, j: int, id: u32|
                i < j && is_start_of(head, i, id) && is_start_of(head, j, id);
            assert(head[i] == rs[i] && head[j] == rs[j]);
            assert(is_start_of(rs, i, id) && is_start_of(rs, j, id));
        } else {
            lemma_aggregate_ids(head);
            let before = aggregate(head).unwrap();
            match r.data {
                PayloadView::Control(ControlView::Start(start)) => {
                    assert(has_entry(before, start.entry_id));
                    let i = choose|i: int| is_start_of(head, i, start.entry_id);
                    assert(head[i] == rs[i]);
                    assert(is_start_of(rs, i, start.entry_id) && is_start_of(
                        rs,
                        n,
                        start.entry_id,
                    ));
                },
                _ => {},
            }
        }
    }
}

/// A shape that a mismatch cleared stays cleared: no later record brings
/// it back, and the sample count never goes down.
pub proof fn lemma_shape_stays_cleared(e: EntryView, r: RecordView)
    requires
        e.entry_count > 0,
        e.all_same_length is None,
    ensures
        touch(e, r).all_same_length is None,
        touch(e, r).entry_count >= e.entry_count,
{
}

/// Within one column group the shape keeps its element count: a sample
/// either agrees with it or clears it.
pub proof fn lemma_shape_only_narrows(e: EntryView, r: RecordView)
    requires
        e.entry_count > 0,
    ensures
        touch(e, r).all_same_length is None || touch(e, r).all_same_length == e.all_same_length,
{
}

} // verus!
