//! The typed MCAP records and their field grammars.
//!
//! Each `parse` reads one record body from the front of its input and
//! hands back what is left; bytes after the last field are not an error.

use vstd::prelude::*;
use vstd::string::*;
use crate::error::DecodeError;
use crate::mcap::fields::{
    number_at, pairs_view, parse_array, parse_length_data64, parse_map, parse_str, parse_text_map,
    spec_counter_map, spec_length_data, spec_pair_array, spec_str, spec_text_map, tail_from,
    u16_at, u32_at, u64_at, u8_at,
};
use crate::parser::decodes_to;

verus! {

/// A record kind with a grammar: `parse` reads one value from the front
/// of its input and computes what `grammar` says of the same bytes.
pub trait Parse<'a>: Sized + View {
    /// The value that the bytes start with and the bytes after it, or the
    /// error.
    spec fn grammar(s: Seq<u8>) -> Result<(Self::V, Seq<u8>), DecodeError>;

    fn parse(input: &'a [u8]) -> (r: Result<(&'a [u8], Self), DecodeError>)
        ensures
            decodes_to(r, Self::grammar(input@)),
    ;
}

/// The file signature. It has no fields.
#[derive(Debug, Clone, Copy, PartialEq, Eq, Structural)]
pub struct Magic {}

#[derive(Debug, Clone, Copy)]
pub struct Header<'a> {
    pub profile: &'a str,
    pub library: &'a str,
}

#[derive(Debug, Clone, Copy, PartialEq, Eq, Structural)]
pub struct Footer {
    pub summary_start: u64,
    pub summary_offset_start: u64,
    pub summary_crc: u32,
}

#[derive(Debug, Clone, Copy)]
pub struct Schema<'a> {
    pub id: u16,
    pub name: &'a str,
    pub encoding: &'a str,
    pub data: &'a str,
}

#[derive(Debug, Clone)]
pub struct Channel<'a> {
    pub id: u16,
    pub schema_id: u16,
    pub topic: &'a str,
    pub message_encoding: &'a str,
    /// The metadata entries in wire order.
    pub metadata: Vec<(&'a str, &'a str)>,
}

#[derive(Debug, Clone, Copy)]
pub struct Chunk<'a> {
    pub message_start_time: u64,
    pub message_end_time: u64,
    pub uncompressed_size: u64,
    pub uncompressed_crc: u32,
    pub compression: &'a str,
    /// The embedded record stream as stored, compressed or not.
    pub records: &'a [u8],
}

#[derive(Debug, Clone)]
pub struct MessageIndex {
    pub channel_id: u16,
    pub records: Vec<(u64, u64)>,
}

#[derive(Debug, Clone)]
pub struct Statistics {
    pub message_count: u64,
    pub schema_count: u16,
    pub channel_count: u32,
    pub attachment_count: u32,
    pub metadata_count: u32,
    pub chunk_count: u32,
    pub message_start_time: u64,
    pub message_end_time: u64,
    /// The per-channel counts in wire order.
    pub channel_message_counts: Vec<(u16, u64)>,
}

#[derive(Debug, Clone, Copy, PartialEq, Eq, Structural)]
pub struct DataEnd {
    pub data_section_crc: u32,
}

#[derive(Debug, Clone)]
pub struct ChunkIndex<'a> {
    pub message_start_time: u64,
    pub message_end_time: u64,
    pub chunk_start_offset: u64,
    pub chunk_length: u64,
    /// The offsets of the message indexes in wire order.
    pub message_index_offsets: Vec<(u16, u64)>,
    pub message_index_length: u64,
    pub compression: &'a str,
    pub compressed_size: u64,
    pub uncompressed_size: u64,
}

#[derive(Debug, Clone, Copy, PartialEq, Eq, Structural)]
pub struct SummaryOffset {
    pub group_opcode: u8,
    pub group_start: u64,
    pub group_length: u64,
}

/// A record whose fields are not decoded.
#[derive(Debug, Clone, Copy, PartialEq, Eq, Structural)]
pub struct Message {}

/// A record whose fields are not decoded.
#[derive(Debug, Clone, Copy, PartialEq, Eq, Structural)]
pub struct Attachment {}

/// A record whose fields are not decoded.
#[derive(Debug, Clone, Copy, PartialEq, Eq, Structural)]
pub struct Metadata {}

/// A record whose fields are not decoded.
#[derive(Debug, Clone, Copy, PartialEq, Eq, Structural)]
pub struct AttachmentIndex {}

/// A record whose fields are not decoded.
#[derive(Debug, Clone, Copy, PartialEq, Eq, Structural)]
pub struct MetadataIndex {}

pub struct HeaderView {
    pub profile: Seq<u8>,
    pub library: Seq<u8>,
}

pub struct SchemaView {
    pub id: u16,
    pub name: Seq<u8>,
    pub encoding: Seq<u8>,
    pub data: Seq<u8>,
}

pub struct ChannelView {
    pub id: u16,
    pub schema_id: u16,
    pub topic: Seq<u8>,
    pub message_encoding: Seq<u8>,
    pub metadata: Seq<(Seq<u8>, Seq<u8>)>,
}

pub struct ChunkView {
    pub message_start_time: u64,
    pub message_end_time: u64,
    pub uncompressed_size: u64,
    pub uncompressed_crc: u32,
    pub compression: Seq<u8>,
    pub records: Seq<u8>,
}

pub struct MessageIndexView {
    pub channel_id: u16,
    pub records: Seq<(u64, u64)>,
}

pub struct StatisticsView {
    pub message_count: u64,
    pub schema_count: u16,
    pub channel_count: u32,
    pub attachment_count: u32,
    pub metadata_count: u32,
    pub chunk_count: u32,
    pub message_start_time: u64,
    pub message_end_time: u64,
    pub channel_message_counts: Seq<(u16, u64)>,
}

pub struct ChunkIndexView {
    pub message_start_time: u64,
    pub message_end_time: u64,
    pub chunk_start_offset: u64,
    pub chunk_length: u64,
    pub message_index_offsets: Seq<(u16, u64)>,
    pub message_index_length: u64,
    pub compression: Seq<u8>,
    pub compressed_size: u64,
    pub uncompressed_size: u64,
}

impl View for Magic {
    type V = Magic;

    open spec fn view(&self) -> Magic {
        *self
    }
}

impl View for Message {
    type V = Message;

    open spec fn view(&self) -> Message {
        *self
    }
}

impl View for Attachment {
    type V = Attachment;

    open spec fn view(&self) -> Attachment {
        *self
    }
}

impl View for Metadata {
    type V = Metadata;

    open spec fn view(&self) -> Metadata {
        *self
    }
}

impl View for AttachmentIndex {
    type V = AttachmentIndex;

    open spec fn view(&self) -> AttachmentIndex {
        *self
    }
}

impl View for MetadataIndex {
    type V = MetadataIndex;

    open spec fn view(&self) -> MetadataIndex {
        *self
    }
}

impl View for Footer {
    type V = Footer;

    open spec fn view(&self) -> Footer {
        *self
    }
}

impl View for DataEnd {
    type V = DataEnd;

    open spec fn view(&self) -> DataEnd {
        *self
    }
}

impl View for SummaryOffset {
    type V = SummaryOffset;

    open spec fn view(&self) -> SummaryOffset {
        *self
    }
}

impl<'a> View for Header<'a> {
    type V = HeaderView;

    open spec fn view(&self) -> HeaderView {
        HeaderView { profile: self.profile.spec_bytes(), library: self.library.spec_bytes() }
    }
}

impl<'a> View for Schema<'a> {
    type V = SchemaView;

    open spec fn view(&self) -> SchemaView {
        SchemaView {
            id: self.id,
            name: self.name.spec_bytes(),
            encoding: self.encoding.spec_bytes(),
            data: self.data.spec_bytes(),
        }
    }
}

impl<'a> View for Channel<'a> {
    type V = ChannelView;

    open spec fn view(&self) -> ChannelView {
        ChannelView {
            id: self.id,
            schema_id: self.schema_id,
            topic: self.topic.spec_bytes(),
            message_encoding: self.message_encoding.spec_bytes(),
            metadata: pairs_view(self.metadata@),
        }
    }
}

impl<'a> View for Chunk<'a> {
    type V = ChunkView;

    open spec fn view(&self) -> ChunkView {
        ChunkView {
            message_start_time: self.message_start_time,
            message_end_time: self.message_end_time,
            uncompressed_size: self.uncompressed_size,
            uncompressed_crc: self.uncompressed_crc,
            compression: self.compression.spec_bytes(),
            records: self.records@,
        }
    }
}

impl View for MessageIndex {
    type V = MessageIndexView;

    open spec fn view(&self) -> MessageIndexView {
        MessageIndexView { channel_id: self.channel_id, records: self.records@ }
    }
}

impl View for Statistics {
    type V = StatisticsView;

    open spec fn view(&self) -> StatisticsView {
        StatisticsView {
            message_count: self.message_count,
            schema_count: self.schema_count,
            channel_count: self.channel_count,
            attachment_count: self.attachment_count,
            metadata_count: self.metadata_count,
            chunk_count: self.chunk_count,
            message_start_time: self.message_start_time,
            message_end_time: self.message_end_time,
            channel_message_counts: self.channel_message_counts@,
        }
    }
}

impl<'a> View for ChunkIndex<'a> {
    type V = ChunkIndexView;

    open spec fn view(&self) -> ChunkIndexView {
        ChunkIndexView {
            message_start_time: self.message_start_time,
            message_end_time: self.message_end_time,
            chunk_start_offset: self.chunk_start_offset,
            chunk_length: self.chunk_length,
            message_index_offsets: self.message_index_offsets@,
            message_index_length: self.message_index_length,
            compression: self.compression.spec_bytes(),
            compressed_size: self.compressed_size,
            uncompressed_size: self.uncompressed_size,
        }
    }
}

/// Header: profile and library, each a text.
pub open spec fn spec_header(s: Seq<u8>) -> Result<(HeaderView, Seq<u8>), DecodeError> {
    match spec_str(s) {
        Err(e) => Err(e),
        Ok((profile, s1)) => match spec_str(s1) {
            Err(e) => Err(e),
            Ok((library, rest)) => Ok((HeaderView { profile, library }, rest)),
        },
    }
}

/// Footer: two 64-bit offsets and a 32-bit checksum, twenty bytes.
pub open spec fn spec_footer(s: Seq<u8>) -> Result<(Footer, Seq<u8>), DecodeError> {
    if s.len() < 20 {
        Err(DecodeError::TruncatedRecord)
    } else {
        Ok(
            (
                Footer {
                    summary_start: number_at(s, 0, 8) as u64,
                    summary_offset_start: number_at(s, 8, 16) as u64,
                    summary_crc: number_at(s, 16, 20) as u32,
                },
                s.skip(20),
            ),
        )
    }
}

/// Schema: a 16-bit id, then name, encoding and data, each a text.
pub open spec fn spec_schema(s: Seq<u8>) -> Result<(SchemaView, Seq<u8>), DecodeError> {
    if s.len() < 2 {
        Err(DecodeError::TruncatedRecord)
    } else {
        match spec_str(s.skip(2)) {
            Err(e) => Err(e),
            Ok((name, s1)) => match spec_str(s1) {
                Err(e) => Err(e),
                Ok((encoding, s2)) => match spec_str(s2) {
                    Err(e) => Err(e),
                    Ok((data, rest)) => Ok(
                        (SchemaView { id: number_at(s, 0, 2) as u16, name, encoding, data }, rest),
                    ),
                },
            },
        }
    }
}

/// Channel: two 16-bit ids, topic and message encoding, each a text, and
/// a map from text to text.
pub open spec fn spec_channel(s: Seq<u8>) -> Result<(ChannelView, Seq<u8>), DecodeError> {
    if s.len() < 4 {
        Err(DecodeError::TruncatedRecord)
    } else {
        match spec_str(s.skip(4)) {
            Err(e) => Err(e),
            Ok((topic, s1)) => match spec_str(s1) {
                Err(e) => Err(e),
                Ok((message_encoding, s2)) => match spec_text_map(s2) {
                    Err(e) => Err(e),
                    Ok((metadata, rest)) => Ok(
                        (
                            ChannelView {
                                id: number_at(s, 0, 2) as u16,
                                schema_id: number_at(s, 2, 4) as u16,
                                topic,
                                message_encoding,
                                metadata,
                            },
                            rest,
                        ),
                    ),
                },
            },
        }
    }
}

/// Chunk: three 64-bit numbers and a 32-bit checksum, the compression as
/// a text, and the embedded records behind an eight-byte length.
pub open spec fn spec_chunk(s: Seq<u8>) -> Result<(ChunkView, Seq<u8>), DecodeError> {
    if s.len() < 28 {
        Err(DecodeError::TruncatedRecord)
    } else {
        match spec_str(s.skip(28)) {
            Err(e) => Err(e),
            Ok((compression, s1)) => match spec_length_data(s1, 8) {
                Err(e) => Err(e),
                Ok((records, rest)) => Ok(
                    (
                        ChunkView {
                            message_start_time: number_at(s, 0, 8) as u64,
                            message_end_time: number_at(s, 8, 16) as u64,
                            uncompressed_size: number_at(s, 16, 24) as u64,
                            uncompressed_crc: number_at(s, 24, 28) as u32,
                            compression,
                            records,
                        },
                        rest,
                    ),
                ),
            },
        }
    }
}

/// Message index: a 16-bit channel id and an array of pairs.
pub open spec fn spec_message_index(s: Seq<u8>) -> Result<
    (MessageIndexView, Seq<u8>),
    DecodeError,
> {
    if s.len() < 2 {
        Err(DecodeError::TruncatedRecord)
    } else {
        match spec_pair_array(s.skip(2)) {
            Err(e) => Err(e),
            Ok((records, rest)) => Ok(
                (MessageIndexView { channel_id: number_at(s, 0, 2) as u16, records }, rest),
            ),
        }
    }
}

/// Statistics: forty-two bytes of counts and times, then the map of
/// per-channel counts.
pub open spec fn spec_statistics(s: Seq<u8>) -> Result<(StatisticsView, Seq<u8>), DecodeError> {
    if s.len() < 42 {
        Err(DecodeError::TruncatedRecord)
    } else {
        match spec_counter_map(s.skip(42)) {
            Err(e) => Err(e),
            Ok((channel_message_counts, rest)) => Ok(
                (
                    StatisticsView {
                        message_count: number_at(s, 0, 8) as u64,
                        schema_count: number_at(s, 8, 10) as u16,
                        channel_count: number_at(s, 10, 14) as u32,
                        attachment_count: number_at(s, 14, 18) as u32,
                        metadata_count: number_at(s, 18, 22) as u32,
                        chunk_count: number_at(s, 22, 26) as u32,
                        message_start_time: number_at(s, 26, 34) as u64,
                        message_end_time: number_at(s, 34, 42) as u64,
                        channel_message_counts,
                    },
                    rest,
                ),
            ),
        }
    }
}

/// Data end: a 32-bit checksum.
pub open spec fn spec_data_end(s: Seq<u8>) -> Result<(DataEnd, Seq<u8>), DecodeError> {
    if s.len() < 4 {
        Err(DecodeError::TruncatedRecord)
    } else {
        Ok((DataEnd { data_section_crc: number_at(s, 0, 4) as u32 }, s.skip(4)))
    }
}

/// The fields of a chunk index that follow the map of offsets.
pub open spec fn spec_chunk_index_tail(s: Seq<u8>, head: Seq<u8>, offsets: Seq<(u16, u64)>) -> Result<
    (ChunkIndexView, Seq<u8>),
    DecodeError,
> {
    if s.len() < 8 {
        Err(DecodeError::TruncatedRecord)
    } else {
        match spec_str(s.skip(8)) {
            Err(e) => Err(e),
            Ok((compression, s1)) => if s1.len() < 16 {
                Err(DecodeError::TruncatedRecord)
            } else {
                Ok(
                    (
                        ChunkIndexView {
                            message_start_time: number_at(head, 0, 8) as u64,
                            message_end_time: number_at(head, 8, 16) as u64,
                            chunk_start_offset: number_at(head, 16, 24) as u64,
                            chunk_length: number_at(head, 24, 32) as u64,
                            message_index_offsets: offsets,
                            message_index_length: number_at(s, 0, 8) as u64,
                            compression,
                            compressed_size: number_at(s1, 0, 8) as u64,
                            uncompressed_size: number_at(s1, 8, 16) as u64,
                        },
                        s1.skip(16),
                    ),
                )
            },
        }
    }
}

/// Chunk index: four 64-bit numbers, the map of message index offsets, a
/// 64-bit length, the compression as a text, and two 64-bit sizes.
pub open spec fn spec_chunk_index(s: Seq<u8>) -> Result<(ChunkIndexView, Seq<u8>), DecodeError> {
    if s.len() < 32 {
        Err(DecodeError::TruncatedRecord)
    } else {
        match spec_counter_map(s.skip(32)) {
            Err(e) => Err(e),
            Ok((offsets, s1)) => spec_chunk_index_tail(s1, s, offsets),
        }
    }
}

/// Summary offset: an opcode byte and two 64-bit numbers.
pub open spec fn spec_summary_offset(s: Seq<u8>) -> Result<(SummaryOffset, Seq<u8>), DecodeError> {
    if s.len() < 17 {
        Err(DecodeError::TruncatedRecord)
    } else {
        Ok(
            (
                SummaryOffset {
                    group_opcode: s[0],
                    group_start: number_at(s, 1, 9) as u64,
                    group_length: number_at(s, 9, 17) as u64,
                },
                s.skip(17),
            ),
        )
    }
}

impl<'a> Parse<'a> for Header<'a> {
    open spec fn grammar(s: Seq<u8>) -> Result<(HeaderView, Seq<u8>), DecodeError> {
        spec_header(s)
    }

    fn parse(input: &'a [u8]) -> (r: Result<(&'a [u8], Header<'a>), DecodeError>) {
        let (input, profile) = parse_str(input)?;
        let (input, library) = parse_str(input)?;
        Ok((input, Header { profile, library }))
    }
}

impl<'a> Parse<'a> for Footer {
    open spec fn grammar(s: Seq<u8>) -> Result<(Footer, Seq<u8>), DecodeError> {
        spec_footer(s)
    }

    fn parse(input: &'a [u8]) -> (r: Result<(&'a [u8], Footer), DecodeError>) {
        if input.len() < 20 {
            return Err(DecodeError::TruncatedRecord);
        }
        let summary_start = u64_at(input, 0);
        let summary_offset_start = u64_at(input, 8);
        let summary_crc = u32_at(input, 16);
        Ok((tail_from(input, 20), Footer { summary_start, summary_offset_start, summary_crc }))
    }
}

impl<'a> Parse<'a> for Schema<'a> {
    open spec fn grammar(s: Seq<u8>) -> Result<(SchemaView, Seq<u8>), DecodeError> {
        spec_schema(s)
    }

    fn parse(input: &'a [u8]) -> (r: Result<(&'a [u8], Schema<'a>), DecodeError>) {
        if input.len() < 2 {
            return Err(DecodeError::TruncatedRecord);
        }
        let id = u16_at(input, 0);
        let (rest, name) = parse_str(tail_from(input, 2))?;
        let (rest, encoding) = parse_str(rest)?;
        let (rest, data) = parse_str(rest)?;
        Ok((rest, Schema { id, name, encoding, data }))
    }
}

impl<'a> Parse<'a> for Channel<'a> {
    open spec fn grammar(s: Seq<u8>) -> Result<(ChannelView, Seq<u8>), DecodeError> {
        spec_channel(s)
    }

    fn parse(input: &'a [u8]) -> (r: Result<(&'a [u8], Channel<'a>), DecodeError>) {
        if input.len() < 4 {
            return Err(DecodeError::TruncatedRecord);
        }
        let id = u16_at(input, 0);
        let schema_id = u16_at(input, 2);
        let (rest, topic) = parse_str(tail_from(input, 4))?;
        let (rest, message_encoding) = parse_str(rest)?;
        let (rest, metadata) = parse_text_map(rest)?;
        Ok((rest, Channel { id, schema_id, topic, message_encoding, metadata }))
    }
}

impl<'a> Parse<'a> for Chunk<'a> {
    open spec fn grammar(s: Seq<u8>) -> Result<(ChunkView, Seq<u8>), DecodeError> {
        spec_chunk(s)
    }

    fn parse(input: &'a [u8]) -> (r: Result<(&'a [u8], Chunk<'a>), DecodeError>) {
        if input.len() < 28 {
            return Err(DecodeError::TruncatedRecord);
        }
        let message_start_time = u64_at(input, 0);
        let message_end_time = u64_at(input, 8);
        let uncompressed_size = u64_at(input, 16);
        let uncompressed_crc = u32_at(input, 24);
        let (rest, compression) = parse_str(tail_from(input, 28))?;
        let (rest, records) = parse_length_data64(rest)?;
        Ok(
            (
                rest,
                Chunk {
                    message_start_time,
                    message_end_time,
                    uncompressed_size,
                    uncompressed_crc,
                    compression,
                    records,
                },
            ),
        )
    }
}

impl<'a> Parse<'a> for MessageIndex {
    open spec fn grammar(s: Seq<u8>) -> Result<(MessageIndexView, Seq<u8>), DecodeError> {
        spec_message_index(s)
    }

    fn parse(input: &'a [u8]) -> (r: Result<(&'a [u8], MessageIndex), DecodeError>) {
        if input.len() < 2 {
            return Err(DecodeError::TruncatedRecord);
        }
        let channel_id = u16_at(input, 0);
        let (rest, records) = parse_array(tail_from(input, 2))?;
        Ok((rest, MessageIndex { channel_id, records }))
    }
}

impl<'a> Parse<'a> for Statistics {
    open spec fn grammar(s: Seq<u8>) -> Result<(StatisticsView, Seq<u8>), DecodeError> {
        spec_statistics(s)
    }

    fn parse(input: &'a [u8]) -> (r: Result<(&'a [u8], Statistics), DecodeError>) {
        if input.len() < 42 {
            return Err(DecodeError::TruncatedRecord);
        }
        let message_count = u64_at(input, 0);
        let schema_count = u16_at(input, 8);
        let channel_count = u32_at(input, 10);
        let attachment_count = u32_at(input, 14);
        let metadata_count = u32_at(input, 18);
        let chunk_count = u32_at(input, 22);
        let message_start_time = u64_at(input, 26);
        let message_end_time = u64_at(input, 34);
        let (rest, channel_message_counts) = parse_map(tail_from(input, 42))?;
        Ok(
            (
                rest,
                Statistics {
                    message_count,
                    schema_count,
                    channel_count,
                    attachment_count,
                    metadata_count,
                    chunk_count,
                    message_start_time,
                    message_end_time,
                    channel_message_counts,
                },
            ),
        )
    }
}

impl<'a> Parse<'a> for DataEnd {
    open spec fn grammar(s: Seq<u8>) -> Result<(DataEnd, Seq<u8>), DecodeError> {
        spec_data_end(s)
    }

    fn parse(input: &'a [u8]) -> (r: Result<(&'a [u8], DataEnd), DecodeError>) {
        if input.len() < 4 {
            return Err(DecodeError::TruncatedRecord);
        }
        let data_section_crc = u32_at(input, 0);
        Ok((tail_from(input, 4), DataEnd { data_section_crc }))
    }
}

impl<'a> Parse<'a> for ChunkIndex<'a> {
    open spec fn grammar(s: Seq<u8>) -> Result<(ChunkIndexView, Seq<u8>), DecodeError> {
        spec_chunk_index(s)
    }

    fn parse(input: &'a [u8]) -> (r: Result<(&'a [u8], ChunkIndex<'a>), DecodeError>) {
        if input.len() < 32 {
            return Err(DecodeError::TruncatedRecord);
        }
        let message_start_time = u64_at(input, 0);
        let message_end_time = u64_at(input, 8);
        let chunk_start_offset = u64_at(input, 16);
        let chunk_length = u64_at(input, 24);
        let (after_map, message_index_offsets) = parse_map(tail_from(input, 32))?;
        if after_map.len() < 8 {
            return Err(DecodeError::TruncatedRecord);
        }
        let message_index_length = u64_at(after_map, 0);
        let (after_text, compression) = parse_str(tail_from(after_map, 8))?;
        if after_text.len() < 16 {
            return Err(DecodeError::TruncatedRecord);
        }
        let compressed_size = u64_at(after_text, 0);
        let uncompressed_size = u64_at(after_text, 8);
        Ok(
            (
                tail_from(after_text, 16),
                ChunkIndex {
                    message_start_time,
                    message_end_time,
                    chunk_start_offset,
                    chunk_length,
                    message_index_offsets,
                    message_index_length,
                    compression,
                    compressed_size,
                    uncompressed_size,
                },
            ),
        )
    }
}

impl<'a> Parse<'a> for SummaryOffset {
    open spec fn grammar(s: Seq<u8>) -> Result<(SummaryOffset, Seq<u8>), DecodeError> {
        spec_summary_offset(s)
    }

    fn parse(input: &'a [u8]) -> (r: Result<(&'a [u8], SummaryOffset), DecodeError>) {
        if input.len() < 17 {
            return Err(DecodeError::TruncatedRecord);
        }
        let group_opcode = u8_at(input, 0);
        let group_start = u64_at(input, 1);
        let group_length = u64_at(input, 9);
        Ok((tail_from(input, 17), SummaryOffset { group_opcode, group_start, group_length }))
    }
}

} // verus!
