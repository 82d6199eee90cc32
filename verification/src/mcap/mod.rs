//! The MCAP container: magic-delimited raw records, and the typed records
//! that a raw record's content decodes to.

pub mod encode;
pub mod fields;
pub mod records;

use vstd::prelude::*;
use crate::bytes::{match_tag, read_u8, starts_with};
use crate::error::{DecodeError, DecodeFailure};
use crate::mcap::fields::{parse_length_data64, spec_length_data};
pub use crate::mcap::records::{
    Attachment, AttachmentIndex, Channel, ChannelView, Chunk, ChunkIndex, ChunkIndexView,
    ChunkView, DataEnd, Footer, Header, HeaderView, Magic, Message, MessageIndex,
    MessageIndexView, Metadata, MetadataIndex, Parse, Schema, SchemaView, Statistics,
    StatisticsView, SummaryOffset,
};
use crate::mcap::records::{
    spec_channel, spec_chunk, spec_chunk_index, spec_data_end, spec_footer, spec_header,
    spec_message_index, spec_schema, spec_statistics, spec_summary_offset,
};
use crate::parser::{decodes_to, fails_with};

verus! {

/// A record as it lies in the container: its opcode and its content, not
/// yet decoded.
#[derive(Debug, Clone, Copy)]
pub struct RawRecord<'a> {
    pub tag: u8,
    pub content: &'a [u8],
}

pub struct RawView {
    pub tag: u8,
    pub content: Seq<u8>,
}

impl<'a> View for RawRecord<'a> {
    type V = RawView;

    open spec fn view(&self) -> RawView {
        RawView { tag: self.tag, content: self.content@ }
    }
}

/// The views of a run of raw records, in order.
pub open spec fn raws_view<'a>(rs: Seq<RawRecord<'a>>) -> Seq<RawView> {
    rs.map_values(|r: RawRecord<'a>| r@)
}

/// A decoded container: the raw records between the two magics.
#[derive(Debug, Clone)]
pub struct MCap<'a> {
    pub records: Vec<RawRecord<'a>>,
}

/// A typed record.
#[derive(Debug, Clone)]
pub enum Record<'a> {
    Magic(Magic),
    Header(Header<'a>),
    Footer(Footer),
    Schema(Schema<'a>),
    Channel(Channel<'a>),
    Message(Message),
    Chunk(Chunk<'a>),
    MessageIndex(MessageIndex),
    ChunkIndex(ChunkIndex<'a>),
    Attachment(Attachment),
    Metadata(Metadata),
    DataEnd(DataEnd),
    AttachmentIndex(AttachmentIndex),
    MetadataIndex(MetadataIndex),
    Statistics(Statistics),
    SummaryOffset(SummaryOffset),
}

pub enum TypedView {
    Magic,
    Header(HeaderView),
    Footer(Footer),
    Schema(SchemaView),
    Channel(ChannelView),
    Message,
    Chunk(ChunkView),
    MessageIndex(MessageIndexView),
    ChunkIndex(ChunkIndexView),
    Attachment,
    Metadata,
    DataEnd(DataEnd),
    AttachmentIndex,
    MetadataIndex,
    Statistics(StatisticsView),
    SummaryOffset(SummaryOffset),
}

impl<'a> View for Record<'a> {
    type V = TypedView;

    open spec fn view(&self) -> TypedView {
        match *self {
            Record::Magic(_) => TypedView::Magic,
            Record::Header(r) => TypedView::Header(r@),
            Record::Footer(r) => TypedView::Footer(r),
            Record::Schema(r) => TypedView::Schema(r@),
            Record::Channel(r) => TypedView::Channel(r@),
            Record::Message(_) => TypedView::Message,
            Record::Chunk(r) => TypedView::Chunk(r@),
            Record::MessageIndex(r) => TypedView::MessageIndex(r@),
            Record::ChunkIndex(r) => TypedView::ChunkIndex(r@),
            Record::Attachment(_) => TypedView::Attachment,
            Record::Metadata(_) => TypedView::Metadata,
            Record::DataEnd(r) => TypedView::DataEnd(r),
            Record::AttachmentIndex(_) => TypedView::AttachmentIndex,
            Record::MetadataIndex(_) => TypedView::MetadataIndex,
            Record::Statistics(r) => TypedView::Statistics(r@),
            Record::SummaryOffset(r) => TypedView::SummaryOffset(r),
        }
    }
}

/// The kind of a typed record, without its fields.
#[derive(Debug, Clone, Copy, PartialEq, Eq, Structural)]
pub enum RecordType {
    Magic,
    Header,
    Footer,
    Schema,
    Channel,
    Message,
    Chunk,
    MessageIndex,
    ChunkIndex,
    Attachment,
    Metadata,
    DataEnd,
    AttachmentIndex,
    MetadataIndex,
    Statistics,
    SummaryOffset,
}

/// The kind of a typed record.
pub open spec fn type_of(r: TypedView) -> RecordType {
    match r {
        TypedView::Magic => RecordType::Magic,
        TypedView::Header(_) => RecordType::Header,
        TypedView::Footer(_) => RecordType::Footer,
        TypedView::Schema(_) => RecordType::Schema,
        TypedView::Channel(_) => RecordType::Channel,
        TypedView::Message => RecordType::Message,
        TypedView::Chunk(_) => RecordType::Chunk,
        TypedView::MessageIndex(_) => RecordType::MessageIndex,
        TypedView::ChunkIndex(_) => RecordType::ChunkIndex,
        TypedView::Attachment => RecordType::Attachment,
        TypedView::Metadata => RecordType::Metadata,
        TypedView::DataEnd(_) => RecordType::DataEnd,
        TypedView::AttachmentIndex => RecordType::AttachmentIndex,
        TypedView::MetadataIndex => RecordType::MetadataIndex,
        TypedView::Statistics(_) => RecordType::Statistics,
        TypedView::SummaryOffset(_) => RecordType::SummaryOffset,
    }
}

/// The opcode under which a kind of record is stored. `Magic` is no
/// record of the container; its number is the first byte of the signature.
pub open spec fn opcode_of(t: RecordType) -> u8 {
    match t {
        RecordType::Magic => 0x89,
        RecordType::Header => 0x01,
        RecordType::Footer => 0x02,
        RecordType::Schema => 0x03,
        RecordType::Channel => 0x04,
        RecordType::Message => 0x05,
        RecordType::Chunk => 0x06,
        RecordType::MessageIndex => 0x07,
        RecordType::ChunkIndex => 0x08,
        RecordType::Attachment => 0x09,
        RecordType::AttachmentIndex => 0x0A,
        RecordType::Statistics => 0x0B,
        RecordType::Metadata => 0x0C,
        RecordType::MetadataIndex => 0x0D,
        RecordType::SummaryOffset => 0x0E,
        RecordType::DataEnd => 0x0F,
    }
}

/// The kind of record that the opcode `tag` stands for: the fifteen
/// opcodes 0x01 to 0x0F are known.
pub open spec fn type_of_opcode(tag: u8) -> Option<RecordType> {
    if tag == 0x01 {
        Some(RecordType::Header)
    } else if tag == 0x02 {
        Some(RecordType::Footer)
    } else if tag == 0x03 {
        Some(RecordType::Schema)
    } else if tag == 0x04 {
        Some(RecordType::Channel)
    } else if tag == 0x05 {
        Some(RecordType::Message)
    } else if tag == 0x06 {
        Some(RecordType::Chunk)
    } else if tag == 0x07 {
        Some(RecordType::MessageIndex)
    } else if tag == 0x08 {
        Some(RecordType::ChunkIndex)
    } else if tag == 0x09 {
        Some(RecordType::Attachment)
    } else if tag == 0x0A {
        Some(RecordType::AttachmentIndex)
    } else if tag == 0x0B {
        Some(RecordType::Statistics)
    } else if tag == 0x0C {
        Some(RecordType::Metadata)
    } else if tag == 0x0D {
        Some(RecordType::MetadataIndex)
    } else if tag == 0x0E {
        Some(RecordType::SummaryOffset)
    } else if tag == 0x0F {
        Some(RecordType::DataEnd)
    } else {
        None
    }
}

/// The value of a grammar rule, without what it left.
pub open spec fn value_of<T>(r: Result<(T, Seq<u8>), DecodeError>) -> Result<T, DecodeError> {
    match r {
        Ok(p) => Ok(p.0),
        Err(e) => Err(e),
    }
}

/// The typed record that content of the given kind decodes to.
pub open spec fn spec_typed_as(t: RecordType, content: Seq<u8>) -> Result<TypedView, DecodeError> {
    match t {
        RecordType::Magic => Ok(TypedView::Magic),
        RecordType::Header => match spec_header(content) {
            Ok(p) => Ok(TypedView::Header(p.0)),
            Err(e) => Err(e),
        },
        RecordType::Footer => match spec_footer(content) {
            Ok(p) => Ok(TypedView::Footer(p.0)),
            Err(e) => Err(e),
        },
        RecordType::Schema => match spec_schema(content) {
            Ok(p) => Ok(TypedView::Schema(p.0)),
            Err(e) => Err(e),
        },
        RecordType::Channel => match spec_channel(content) {
            Ok(p) => Ok(TypedView::Channel(p.0)),
            Err(e) => Err(e),
        },
        RecordType::Message => Ok(TypedView::Message),
        RecordType::Chunk => match spec_chunk(content) {
            Ok(p) => Ok(TypedView::Chunk(p.0)),
            Err(e) => Err(e),
        },
        RecordType::MessageIndex => match spec_message_index(content) {
            Ok(p) => Ok(TypedView::MessageIndex(p.0)),
            Err(e) => Err(e),
        },
        RecordType::ChunkIndex => match spec_chunk_index(content) {
            Ok(p) => Ok(TypedView::ChunkIndex(p.0)),
            Err(e) => Err(e),
        },
        RecordType::Attachment => Ok(TypedView::Attachment),
        RecordType::Metadata => Ok(TypedView::Metadata),
        RecordType::DataEnd => match spec_data_end(content) {
            Ok(p) => Ok(TypedView::DataEnd(p.0)),
            Err(e) => Err(e),
        },
        RecordType::AttachmentIndex => Ok(TypedView::AttachmentIndex),
        RecordType::MetadataIndex => Ok(TypedView::MetadataIndex),
        RecordType::Statistics => match spec_statistics(content) {
            Ok(p) => Ok(TypedView::Statistics(p.0)),
            Err(e) => Err(e),
        },
        RecordType::SummaryOffset => match spec_summary_offset(content) {
            Ok(p) => Ok(TypedView::SummaryOffset(p.0)),
            Err(e) => Err(e),
        },
    }
}

/// The typed record that a raw record decodes to: by its opcode, and an
/// `UnknownRecordTag` for an opcode outside the table.
pub open spec fn spec_typed(raw: RawView) -> Result<TypedView, DecodeError> {
    match type_of_opcode(raw.tag) {
        Some(t) => spec_typed_as(t, raw.content),
        None => Err(DecodeError::UnknownRecordTag),
    }
}

/// The eight bytes of the MCAP signature.
pub open spec fn mcap_magic() -> Seq<u8> {
    seq![0x89u8, 0x4du8, 0x43u8, 0x41u8, 0x50u8, 0x30u8, 0x0du8, 0x0au8]
}

/// One raw record: an opcode byte, an eight-byte length, the content.
pub open spec fn spec_raw_record(s: Seq<u8>) -> Result<(RawView, Seq<u8>), DecodeError> {
    if s.len() < 1 {
        Err(DecodeError::TruncatedRecord)
    } else {
        match spec_length_data(s.skip(1), 8) {
            Err(e) => Err(e),
            Ok((content, rest)) => Ok((RawView { tag: s[0], content }, rest)),
        }
    }
}

/// `more` with the records `done` put in front.
pub open spec fn prepend_raws(done: Seq<RawView>, more: (Seq<RawView>, Seq<u8>)) -> (
    Seq<RawView>,
    Seq<u8>,
) {
    (done + more.0, more.1)
}

/// As many raw records as the input yields, and the input from the first
/// point on where none can be read.
pub open spec fn spec_raw_records(s: Seq<u8>) -> (Seq<RawView>, Seq<u8>)
    decreases s.len(),
{
    match spec_raw_record(s) {
        Err(_) => (Seq::empty(), s),
        Ok((record, rest)) => if rest.len() < s.len() {
            prepend_raws(seq![record], spec_raw_records(rest))
        } else {
            (Seq::empty(), s)
        },
    }
}

/// A container: the signature, raw records, the signature again. What
/// follows the closing signature is handed back.
pub open spec fn spec_mcap(s: Seq<u8>) -> Result<(Seq<RawView>, Seq<u8>), DecodeError> {
    if !starts_with(s, mcap_magic()) {
        Err(DecodeError::BadMagic)
    } else {
        let body = spec_raw_records(s.skip(8));
        if !starts_with(body.1, mcap_magic()) {
            Err(DecodeError::BadMagic)
        } else {
            Ok((body.0, body.1.skip(8)))
        }
    }
}

/// A record stream without signatures that must be used up: bytes that
/// are left form no whole record.
pub open spec fn spec_record_stream(s: Seq<u8>) -> Result<Seq<RawView>, DecodeError> {
    let body = spec_raw_records(s);
    if body.1.len() != 0 {
        Err(DecodeError::TruncatedRecord)
    } else {
        Ok(body.0)
    }
}

/// A raw record always uses up at least its nine header bytes.
pub proof fn lemma_raw_record_consumes(s: Seq<u8>)
    ensures
        spec_raw_record(s) matches Ok(p) ==> p.1.len() < s.len(),
{
}

/// The signature: exactly the eight bytes of `mcap_magic`.
pub open spec fn spec_magic(s: Seq<u8>) -> Result<(Magic, Seq<u8>), DecodeError> {
    if starts_with(s, mcap_magic()) {
        Ok((Magic {  }, s.skip(8)))
    } else {
        Err(DecodeError::BadMagic)
    }
}

impl<'a> Parse<'a> for Magic {
    open spec fn grammar(s: Seq<u8>) -> Result<(Magic, Seq<u8>), DecodeError> {
        spec_magic(s)
    }

    /// Accepts the MCAP signature.
    fn parse(input: &'a [u8]) -> (r: Result<(&'a [u8], Magic), DecodeError>) {
        let magic: [u8; 8] = [0x89, 0x4d, 0x43, 0x41, 0x50, 0x30, 0x0d, 0x0a];
        assert(magic@ =~= mcap_magic());
        match match_tag(input, magic.as_slice()) {
            Some(rest) => Ok((rest, Magic {  })),
            None => Err(DecodeError::BadMagic),
        }
    }
}

impl<'a> Parse<'a> for Message {
    open spec fn grammar(s: Seq<u8>) -> Result<(Message, Seq<u8>), DecodeError> {
        Ok((Message {  }, s))
    }

    /// Accepts anything and reads nothing.
    fn parse(input: &'a [u8]) -> (r: Result<(&'a [u8], Message), DecodeError>) {
        Ok((input, Message {  }))
    }
}

impl<'a> Parse<'a> for Attachment {
    open spec fn grammar(s: Seq<u8>) -> Result<(Attachment, Seq<u8>), DecodeError> {
        Ok((Attachment {  }, s))
    }

    /// Accepts anything and reads nothing.
    fn parse(input: &'a [u8]) -> (r: Result<(&'a [u8], Attachment), DecodeError>) {
        Ok((input, Attachment {  }))
    }
}

impl<'a> Parse<'a> for Metadata {
    open spec fn grammar(s: Seq<u8>) -> Result<(Metadata, Seq<u8>), DecodeError> {
        Ok((Metadata {  }, s))
    }

    /// Accepts anything and reads nothing.
    fn parse(input: &'a [u8]) -> (r: Result<(&'a [u8], Metadata), DecodeError>) {
        Ok((input, Metadata {  }))
    }
}

impl<'a> Parse<'a> for AttachmentIndex {
    open spec fn grammar(s: Seq<u8>) -> Result<(AttachmentIndex, Seq<u8>), DecodeError> {
        Ok((AttachmentIndex {  }, s))
    }

    /// Accepts anything and reads nothing.
    fn parse(input: &'a [u8]) -> (r: Result<(&'a [u8], AttachmentIndex), DecodeError>) {
        Ok((input, AttachmentIndex {  }))
    }
}

impl<'a> Parse<'a> for MetadataIndex {
    open spec fn grammar(s: Seq<u8>) -> Result<(MetadataIndex, Seq<u8>), DecodeError> {
        Ok((MetadataIndex {  }, s))
    }

    /// Accepts anything and reads nothing.
    fn parse(input: &'a [u8]) -> (r: Result<(&'a [u8], MetadataIndex), DecodeError>) {
        Ok((input, MetadataIndex {  }))
    }
}

impl<'a> Parse<'a> for RawRecord<'a> {
    open spec fn grammar(s: Seq<u8>) -> Result<(RawView, Seq<u8>), DecodeError> {
        spec_raw_record(s)
    }

    /// Reads one raw record from the front of `input`.
    fn parse(input: &'a [u8]) -> (r: Result<(&'a [u8], RawRecord<'a>), DecodeError>) {
        let (after_tag, tag) = match read_u8(input) {
            Some(p) => p,
            None => {
                return Err(DecodeError::TruncatedRecord);
            },
        };
        let (rest, content) = parse_length_data64(after_tag)?;
        Ok((rest, RawRecord { tag, content }))
    }
}

/// Reads raw records for as long as one can be read.
pub fn parse_raw_records<'a>(input: &'a [u8]) -> (r: (&'a [u8], Vec<RawRecord<'a>>))
    ensures
        r.0@ == spec_raw_records(input@).1,
        raws_view(r.1@) == spec_raw_records(input@).0,
{
    let mut records: Vec<RawRecord<'a>> = Vec::new();
    let mut cur = input;
    proof {
        assert(raws_view(records@) =~= Seq::<RawView>::empty());
        assert(Seq::<RawView>::empty() + spec_raw_records(input@).0 =~= spec_raw_records(
            input@,
        ).0);
    }
    loop
        invariant
            spec_raw_records(input@) == prepend_raws(
                raws_view(records@),
                spec_raw_records(cur@),
            ),
        ensures
            spec_raw_records(input@) == prepend_raws(raws_view(records@), (Seq::empty(), cur@)),
        decreases cur@.len(),
    {
        proof {
            lemma_raw_record_consumes(cur@);
        }
        match RawRecord::parse(cur) {
            Err(_) => {
                break ;
            },
            Ok((rest, record)) => {
                proof {
                    let done = raws_view(records@);
                    let more = spec_raw_records(rest@);
                    assert(raws_view(records@.push(record)) =~= done.push(record@));
                    assert(done + (seq![record@] + more.0) =~= done.push(record@) + more.0);
                }
                records.push(record);
                cur = rest;
            },
        }
    }
    proof {
        assert(raws_view(records@) + Seq::<RawView>::empty() =~= raws_view(records@));
    }
    (cur, records)
}

/// What is left of the input is a tail of it.
pub proof fn lemma_raw_records_rest(s: Seq<u8>)
    ensures
        spec_raw_records(s).1.len() <= s.len(),
    decreases s.len(),
{
    match spec_raw_record(s) {
        Err(_) => {},
        Ok((_, rest)) => {
            if rest.len() < s.len() {
                lemma_raw_records_rest(rest);
            }
        },
    }
}

/// Reads a record stream that has no signatures and must be used up, and
/// says where the bytes begin that form no whole record when it fails.
pub fn parse_record_stream_located<'a>(input: &'a [u8]) -> (r: Result<
    Vec<RawRecord<'a>>,
    DecodeFailure,
>)
    ensures
        match spec_record_stream(input@) {
            Ok(rs) => r matches Ok(v) && raws_view(v@) == rs,
            Err(e) => r matches Err(f) && f.error == e && f.offset == input@.len()
                - spec_raw_records(input@).1.len(),
        },
{
    let (rest, records) = parse_raw_records(input);
    proof {
        lemma_raw_records_rest(input@);
    }
    if rest.len() != 0 {
        return Err(
            DecodeFailure { error: DecodeError::TruncatedRecord, offset: input.len() - rest.len() },
        );
    }
    Ok(records)
}

/// Reads a record stream that has no signatures and must be used up.
pub fn parse_record_stream<'a>(input: &'a [u8]) -> (r: Result<Vec<RawRecord<'a>>, DecodeError>)
    ensures
        match spec_record_stream(input@) {
            Ok(rs) => r matches Ok(v) && raws_view(v@) == rs,
            Err(e) => fails_with(r, e),
        },
{
    match parse_record_stream_located(input) {
        Ok(records) => Ok(records),
        Err(f) => Err(f.error),
    }
}

/// Where decoding a container stops when it fails: 0 for a wrong opening
/// signature, else the offset at which the closing signature should stand.
pub open spec fn spec_mcap_stop(s: Seq<u8>) -> int {
    if !starts_with(s, mcap_magic()) {
        0
    } else {
        s.len() - spec_raw_records(s.skip(8)).1.len()
    }
}

impl<'a> MCap<'a> {
    /// Decodes a container, and says where decoding stopped when it fails.
    pub fn parse_located(input: &'a [u8]) -> (r: Result<(&'a [u8], MCap<'a>), DecodeFailure>)
        ensures
            match spec_mcap(input@) {
                Ok(e) => r matches Ok(p) && p.0@ == e.1 && p.1@ == e.0,
                Err(e) => r matches Err(f) && f.error == e && f.offset == spec_mcap_stop(input@),
            },
    {
        let body = match Magic::parse(input) {
            Ok((rest, _)) => rest,
            Err(e) => {
                return Err(DecodeFailure { error: e, offset: 0 });
            },
        };
        let (after, records) = parse_raw_records(body);
        proof {
            lemma_raw_records_rest(body@);
        }
        match Magic::parse(after) {
            Ok((rest, _)) => Ok((rest, MCap { records })),
            Err(e) => Err(DecodeFailure { error: e, offset: input.len() - after.len() }),
        }
    }
}

impl<'a> View for MCap<'a> {
    type V = Seq<RawView>;

    open spec fn view(&self) -> Seq<RawView> {
        raws_view(self.records@)
    }
}

impl<'a> Parse<'a> for MCap<'a> {
    open spec fn grammar(s: Seq<u8>) -> Result<(Seq<RawView>, Seq<u8>), DecodeError> {
        spec_mcap(s)
    }

    /// Decodes a container. The contents of the raw records are not
    /// looked at, so a damaged record does not fail the container.
    fn parse(input: &'a [u8]) -> (r: Result<(&'a [u8], MCap<'a>), DecodeError>) {
        match MCap::parse_located(input) {
            Ok(p) => Ok(p),
            Err(f) => Err(f.error),
        }
    }
}

impl<'a> Chunk<'a> {
    /// Decodes the embedded record stream of a chunk that is stored
    /// uncompressed. The stream of a compressed chunk goes through
    /// `parse_record_stream` once it is decompressed.
    pub fn parse_inner(&self) -> (r: Result<Vec<RawRecord<'a>>, DecodeError>)
        ensures
            match spec_record_stream(self.records@) {
                Ok(rs) => r matches Ok(v) && raws_view(v@) == rs,
                Err(e) => fails_with(r, e),
            },
    {
        parse_record_stream(self.records)
    }
}

impl RecordType {
    /// The kind of a typed record.
    pub fn from<'a>(value: &Record<'a>) -> (t: RecordType)
        ensures
            t == type_of(value@),
    {
        match value {
            Record::Magic(_) => RecordType::Magic,
            Record::Header(_) => RecordType::Header,
            Record::Footer(_) => RecordType::Footer,
            Record::Schema(_) => RecordType::Schema,
            Record::Channel(_) => RecordType::Channel,
            Record::Message(_) => RecordType::Message,
            Record::Chunk(_) => RecordType::Chunk,
            Record::MessageIndex(_) => RecordType::MessageIndex,
            Record::ChunkIndex(_) => RecordType::ChunkIndex,
            Record::Attachment(_) => RecordType::Attachment,
            Record::Metadata(_) => RecordType::Metadata,
            Record::DataEnd(_) => RecordType::DataEnd,
            Record::AttachmentIndex(_) => RecordType::AttachmentIndex,
            Record::MetadataIndex(_) => RecordType::MetadataIndex,
            Record::Statistics(_) => RecordType::Statistics,
            Record::SummaryOffset(_) => RecordType::SummaryOffset,
        }
    }

    /// The kind of record that an opcode stands for.
    pub fn try_from(value: u8) -> (r: Result<RecordType, DecodeError>)
        ensures
            match type_of_opcode(value) {
                Some(t) => r == Ok::<RecordType, DecodeError>(t),
                None => r == Err::<RecordType, DecodeError>(DecodeError::UnknownRecordTag),
            },
    {
        match value {
            0x01 => Ok(RecordType::Header),
            0x02 => Ok(RecordType::Footer),
            0x03 => Ok(RecordType::Schema),
            0x04 => Ok(RecordType::Channel),
            0x05 => Ok(RecordType::Message),
            0x06 => Ok(RecordType::Chunk),
            0x07 => Ok(RecordType::MessageIndex),
            0x08 => Ok(RecordType::ChunkIndex),
            0x09 => Ok(RecordType::Attachment),
            0x0C => Ok(RecordType::Metadata),
            0x0F => Ok(RecordType::DataEnd),
            0x0A => Ok(RecordType::AttachmentIndex),
            0x0D => Ok(RecordType::MetadataIndex),
            0x0B => Ok(RecordType::Statistics),
            0x0E => Ok(RecordType::SummaryOffset),
            _ => Err(DecodeError::UnknownRecordTag),
        }
    }
}

impl<'a> Record<'a> {
    /// The opcode under which the record is stored.
    pub fn get_op(self) -> (op: u8)
        ensures
            op == opcode_of(type_of(self@)),
    {
        match self {
            Record::Magic(_) => 0x89,
            Record::Header(_) => 0x01,
            Record::Footer(_) => 0x02,
            Record::Schema(_) => 0x03,
            Record::Channel(_) => 0x04,
            Record::Message(_) => 0x05,
            Record::Chunk(_) => 0x06,
            Record::MessageIndex(_) => 0x07,
            Record::ChunkIndex(_) => 0x08,
            Record::Attachment(_) => 0x09,
            Record::Metadata(_) => 0x0C,
            Record::DataEnd(_) => 0x0F,
            Record::AttachmentIndex(_) => 0x0A,
            Record::MetadataIndex(_) => 0x0D,
            Record::Statistics(_) => 0x0B,
            Record::SummaryOffset(_) => 0x0E,
        }
    }

    /// Decodes the content of a raw record by its opcode.
    pub fn try_from(value: RawRecord<'a>) -> (r: Result<Record<'a>, DecodeError>)
        ensures
            match spec_typed(value@) {
                Ok(t) => r matches Ok(record) && record@ == t,
                Err(e) => fails_with(r, e),
            },
    {
        let content = value.content;
        match RecordType::try_from(value.tag)? {
            RecordType::Magic => Ok(Record::Magic(Magic {  })),
            RecordType::Header => Ok(Record::Header(Header::parse(content)?.1)),
            RecordType::Footer => Ok(Record::Footer(Footer::parse(content)?.1)),
            RecordType::Schema => Ok(Record::Schema(Schema::parse(content)?.1)),
            RecordType::Channel => Ok(Record::Channel(Channel::parse(content)?.1)),
            RecordType::Message => Ok(Record::Message(Message::parse(content)?.1)),
            RecordType::Chunk => Ok(Record::Chunk(Chunk::parse(content)?.1)),
            RecordType::MessageIndex => Ok(Record::MessageIndex(MessageIndex::parse(content)?.1)),
            RecordType::ChunkIndex => Ok(Record::ChunkIndex(ChunkIndex::parse(content)?.1)),
            RecordType::Attachment => Ok(Record::Attachment(Attachment::parse(content)?.1)),
            RecordType::Metadata => Ok(Record::Metadata(Metadata::parse(content)?.1)),
            RecordType::DataEnd => Ok(Record::DataEnd(DataEnd::parse(content)?.1)),
            RecordType::AttachmentIndex => Ok(
                Record::AttachmentIndex(AttachmentIndex::parse(content)?.1),
            ),
            RecordType::MetadataIndex => Ok(Record::MetadataIndex(MetadataIndex::parse(content)?.1)),
            RecordType::Statistics => Ok(Record::Statistics(Statistics::parse(content)?.1)),
            RecordType::SummaryOffset => Ok(Record::SummaryOffset(SummaryOffset::parse(content)?.1)),
        }
    }
}

/// The record that untagged content reads as: the first of header,
/// footer, schema and channel whose grammar accepts it, else a message,
/// whose grammar accepts anything and reads nothing.
pub open spec fn spec_any_record(s: Seq<u8>) -> (TypedView, Seq<u8>) {
    match spec_header(s) {
        Ok(p) => (TypedView::Header(p.0), p.1),
        Err(_) => match spec_footer(s) {
            Ok(p) => (TypedView::Footer(p.0), p.1),
            Err(_) => match spec_schema(s) {
                Ok(p) => (TypedView::Schema(p.0), p.1),
                Err(_) => match spec_channel(s) {
                    Ok(p) => (TypedView::Channel(p.0), p.1),
                    Err(_) => (TypedView::Message, s),
                },
            },
        },
    }
}

impl<'a> Parse<'a> for Record<'a> {
    open spec fn grammar(s: Seq<u8>) -> Result<(TypedView, Seq<u8>), DecodeError> {
        Ok(spec_any_record(s))
    }

    /// Reads untagged content by trying the grammars in turn.
    fn parse(input: &'a [u8]) -> (r: Result<(&'a [u8], Record<'a>), DecodeError>) {
        match Header::parse(input) {
            Ok((rest, record)) => {
                return Ok((rest, Record::Header(record)));
            },
            Err(_) => {},
        }
        match Footer::parse(input) {
            Ok((rest, record)) => {
                return Ok((rest, Record::Footer(record)));
            },
            Err(_) => {},
        }
        match Schema::parse(input) {
            Ok((rest, record)) => {
                return Ok((rest, Record::Schema(record)));
            },
            Err(_) => {},
        }
        match Channel::parse(input) {
            Ok((rest, record)) => {
                return Ok((rest, Record::Channel(record)));
            },
            Err(_) => {},
        }
        Ok((input, Record::Message(Message {  })))
    }
}

/// Content decoded as a kind gives a record of that kind.
pub proof fn lemma_typed_kind(t: RecordType, content: Seq<u8>)
    ensures
        spec_typed_as(t, content) matches Ok(record) ==> type_of(record) == t,
{
    match t {
        RecordType::Magic => {},
        RecordType::Header => {},
        RecordType::Footer => {},
        RecordType::Schema => {},
        RecordType::Channel => {},
        RecordType::Message => {},
        RecordType::Chunk => {},
        RecordType::MessageIndex => {},
        RecordType::ChunkIndex => {},
        RecordType::Attachment => {},
        RecordType::Metadata => {},
        RecordType::DataEnd => {},
        RecordType::AttachmentIndex => {},
        RecordType::MetadataIndex => {},
        RecordType::Statistics => {},
        RecordType::SummaryOffset => {},
    }
}

/// An opcode of the table names the kind that is stored under it.
pub proof fn lemma_opcode_table(tag: u8, t: RecordType)
    ensures
        type_of_opcode(tag) == Some(t) ==> opcode_of(t) == tag,
        t != RecordType::Magic ==> type_of_opcode(opcode_of(t)) == Some(t),
{
}

/// A decoded record gives back the opcode of the raw record it came from.
pub proof fn lemma_opcode_roundtrip(raw: RawView)
    ensures
        spec_typed(raw) matches Ok(record) ==> opcode_of(type_of(record)) == raw.tag,
{
    match type_of_opcode(raw.tag) {
        Some(t) => {
            lemma_typed_kind(t, raw.content);
            lemma_opcode_table(raw.tag, t);
        },
        None => {},
    }
}

} // verus!
