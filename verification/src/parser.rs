//! The WPILOG decoder and the typed readers for data payloads.
//!
//! Every reader takes the remaining input and returns what is left after
//! it together with the decoded value. The `spec_*` functions define the
//! grammar on byte sequences; each reader is proved to compute its
//! `spec_*` counterpart.

use vstd::prelude::*;
use vstd::slice::*;
use vstd::string::*;
use vstd::utf8::*;
use crate::bytes::{
    le_value, lemma_le_value_bound, lemma_le_value_push, lemma_pow256_values, pow256, read_i64,
    read_u32, read_u64, read_u8, signed64, starts_with, take_bytes, match_tag, utf8_text,
};
use crate::error::{DecodeError, DecodeFailure};
use crate::types::{
    ControlRecord, ControlView, DataRecord, FinishRecord, LogView, PayloadView, Record, RecordView,
    SetMetadataRecord, SetMetadataView, StartRecord, StartView, WpiLog, WpiRecord, records_view,
    DataType, DataValue, ScalarKind, texts_view, values_view,
};

verus! {

/// `r` failed with exactly the error `e`.
pub open spec fn fails_with<T>(r: Result<T, DecodeError>, e: DecodeError) -> bool {
    r matches Err(x) && x == e
}

/// `r` agrees with the outcome `expected` of a grammar rule whose value is
/// compared through its view.
pub open spec fn decodes_to<'a, T: View>(
    r: Result<(&'a [u8], T), DecodeError>,
    expected: Result<(T::V, Seq<u8>), DecodeError>,
) -> bool {
    match expected {
        Ok(e) => r matches Ok(p) && p.0@ == e.1 && p.1@ == e.0,
        Err(e) => fails_with(r, e),
    }
}

/// `r` agrees with the outcome `expected` of a grammar rule that yields
/// text, compared by its UTF-8 bytes.
pub open spec fn decodes_to_text<'a>(
    r: Result<(&'a [u8], &'a str), DecodeError>,
    expected: Result<(Seq<u8>, Seq<u8>), DecodeError>,
) -> bool {
    match expected {
        Ok(e) => r matches Ok(p) && p.0@ == e.1 && p.1.spec_bytes() == e.0,
        Err(e) => fails_with(r, e),
    }
}

/// An unsigned little-endian integer of `width` bytes.
pub open spec fn spec_varint(s: Seq<u8>, width: nat) -> Result<(nat, Seq<u8>), DecodeError> {
    if s.len() < width {
        Err(DecodeError::TruncatedInput)
    } else {
        Ok((le_value(s.subrange(0, width as int)), s.skip(width as int)))
    }
}

/// Text with a four-byte length in front of it.
pub open spec fn spec_string_with_len(s: Seq<u8>) -> Result<(Seq<u8>, Seq<u8>), DecodeError> {
    if s.len() < 4 {
        Err(DecodeError::TruncatedInput)
    } else {
        let n = le_value(s.subrange(0, 4)) as int;
        if s.len() - 4 < n {
            Err(DecodeError::TruncatedInput)
        } else if !valid_utf8(s.subrange(4, 4 + n)) {
            Err(DecodeError::InvalidUtf8)
        } else {
            Ok((s.subrange(4, 4 + n), s.skip(4 + n)))
        }
    }
}

/// Reads `len + 1` bytes as a little-endian unsigned number: byte `k`
/// lands at bit `8 * k` of the accumulator.
pub fn parse_u32<'a>(input: &'a [u8], len: u8) -> (r: Result<(&'a [u8], u32), DecodeError>)
    requires
        len < 4,
    ensures
        match spec_varint(input@, len as nat + 1) {
            Ok(e) => r matches Ok(p) && p.0@ == e.1 && p.1 == e.0,
            Err(e) => fails_with(r, e),
        },
{
    let mut agg: u32 = 0;
    let mut cur = input;
    let mut i: u8 = 0;
    while i <= len
        invariant
            len < 4,
            i <= len + 1,
            i <= input@.len(),
            cur@ == input@.skip(i as int),
            agg == le_value(input@.subrange(0, i as int)),
        decreases len + 1 - i,
    {
        match read_u8(cur) {
            None => {
                return Err(DecodeError::TruncatedInput);
            },
            Some((rest, byte)) => {
                let shift: u32 = 8 * (i as u32);
                proof {
                    let seen = input@.subrange(0, i as int);
                    lemma_le_value_bound(seen);
                    lemma_le_value_push(seen, byte);
                    lemma_pow256_values();
                    assert(seen.push(byte) =~= input@.subrange(0, i + 1));
                    assert(rest@ =~= input@.skip(i + 1));
                    assert((1u32 << 0) == 1 && (1u32 << 8) == 0x100 && (1u32 << 16) == 0x1_0000
                        && (1u32 << 24) == 0x100_0000) by (bit_vector);
                    assert((1u32 << shift) == pow256(i as nat));
                    let bound: u32 = 1u32 << shift;
                    assert(agg < bound && bound == (1u32 << shift) && shift <= 24 ==> (agg | ((
                    byte as u32) << shift)) == agg + (byte as u32) * bound) by (bit_vector);
                }
                agg = agg | ((byte as u32) << shift);
                cur = rest;
                i = i + 1;
            },
        }
    }
    Ok((cur, agg))
}

/// Reads `len + 1` bytes as a little-endian unsigned number: byte `k`
/// lands at bit `8 * k` of the accumulator.
pub fn parse_u64<'a>(input: &'a [u8], len: u8) -> (r: Result<(&'a [u8], u64), DecodeError>)
    requires
        len < 8,
    ensures
        match spec_varint(input@, len as nat + 1) {
            Ok(e) => r matches Ok(p) && p.0@ == e.1 && p.1 == e.0,
            Err(e) => fails_with(r, e),
        },
{
    let mut agg: u64 = 0;
    let mut cur = input;
    let mut i: u8 = 0;
    while i <= len
        invariant
            len < 8,
            i <= len + 1,
            i <= input@.len(),
            cur@ == input@.skip(i as int),
            agg == le_value(input@.subrange(0, i as int)),
        decreases len + 1 - i,
    {
        match read_u8(cur) {
            None => {
                return Err(DecodeError::TruncatedInput);
            },
            Some((rest, byte)) => {
                let shift: u64 = 8 * (i as u64);
                proof {
                    let seen = input@.subrange(0, i as int);
                    lemma_le_value_bound(seen);
                    lemma_le_value_push(seen, byte);
                    lemma_pow256_values();
                    assert(seen.push(byte) =~= input@.subrange(0, i + 1));
                    assert(rest@ =~= input@.skip(i + 1));
                    assert((1u64 << 0) == 1 && (1u64 << 8) == 0x100 && (1u64 << 16) == 0x1_0000
                        && (1u64 << 24) == 0x100_0000 && (1u64 << 32) == 0x1_0000_0000 && (1u64
                        << 40) == 0x100_0000_0000 && (1u64 << 48) == 0x1_0000_0000_0000 && (1u64
                        << 56) == 0x100_0000_0000_0000) by (bit_vector);
                    assert((1u64 << shift) == pow256(i as nat));
                    let bound: u64 = 1u64 << shift;
                    assert(agg < bound && bound == (1u64 << shift) && shift <= 56 ==> (agg | ((
                    byte as u64) << shift)) == agg + (byte as u64) * bound) by (bit_vector);
                }
                agg = agg | ((byte as u64) << shift);
                cur = rest;
                i = i + 1;
            },
        }
    }
    Ok((cur, agg))
}

/// Reads a four-byte length, then that many bytes of UTF-8 text.
pub fn parse_string_with_len<'a>(input: &'a [u8]) -> (r: Result<(&'a [u8], &'a str), DecodeError>)
    ensures
        decodes_to_text(r, spec_string_with_len(input@)),
{
    let (after_len, n) = match read_u32(input) {
        Some(p) => p,
        None => {
            return Err(DecodeError::TruncatedInput);
        },
    };
    let (rest, bytes) = match take_bytes(after_len, n as usize) {
        Some(p) => p,
        None => {
            return Err(DecodeError::TruncatedInput);
        },
    };
    proof {
        assert(bytes@ =~= input@.subrange(4, 4 + n));
        assert(rest@ =~= input@.skip(4 + n));
    }
    match utf8_text(bytes) {
        Some(text) => Ok((rest, text)),
        None => Err(DecodeError::InvalidUtf8),
    }
}

/// A four-byte entry id.
pub open spec fn spec_entry_id(s: Seq<u8>) -> Result<(u32, Seq<u8>), DecodeError> {
    if s.len() < 4 {
        Err(DecodeError::TruncatedInput)
    } else {
        Ok((le_value(s.subrange(0, 4)) as u32, s.skip(4)))
    }
}

/// The body of a `Start` record: entry id, name, type and metadata.
pub open spec fn spec_start_record(s: Seq<u8>) -> Result<(ControlView, Seq<u8>), DecodeError> {
    match spec_entry_id(s) {
        Err(e) => Err(e),
        Ok((entry_id, s1)) => match spec_string_with_len(s1) {
            Err(e) => Err(e),
            Ok((name, s2)) => match spec_string_with_len(s2) {
                Err(e) => Err(e),
                Ok((typ, s3)) => match spec_string_with_len(s3) {
                    Err(e) => Err(e),
                    Ok((metadata, s4)) => Ok(
                        (ControlView::Start(StartView { entry_id, name, typ, metadata }), s4),
                    ),
                },
            },
        },
    }
}

/// The body of a `Finish` record: the entry id.
pub open spec fn spec_finish_record(s: Seq<u8>) -> Result<(ControlView, Seq<u8>), DecodeError> {
    match spec_entry_id(s) {
        Err(e) => Err(e),
        Ok((entry_id, s1)) => Ok((ControlView::Finish(entry_id), s1)),
    }
}

/// The body of a `SetMetadata` record: entry id and the new metadata.
pub open spec fn spec_set_metadata_record(s: Seq<u8>) -> Result<
    (ControlView, Seq<u8>),
    DecodeError,
> {
    match spec_entry_id(s) {
        Err(e) => Err(e),
        Ok((entry_id, s1)) => match spec_string_with_len(s1) {
            Err(e) => Err(e),
            Ok((metadata, s2)) => Ok(
                (ControlView::SetMetadata(SetMetadataView { entry_id, metadata }), s2),
            ),
        },
    }
}

/// A control payload: one tag byte, then the body that the tag selects.
pub open spec fn spec_control_record(s: Seq<u8>) -> Result<(ControlView, Seq<u8>), DecodeError> {
    if s.len() < 1 {
        Err(DecodeError::TruncatedInput)
    } else if s[0] == 0 {
        spec_start_record(s.skip(1))
    } else if s[0] == 1 {
        spec_finish_record(s.skip(1))
    } else if s[0] == 2 {
        spec_set_metadata_record(s.skip(1))
    } else {
        Err(DecodeError::UnknownControlTag)
    }
}

/// Byte count of the entry id, from bits 0 and 1 of the header byte.
pub open spec fn entry_id_width(header: u8) -> nat {
    ((header & 0x3) + 1) as nat
}

/// Byte count of the payload length, from bits 2 and 3 of the header byte.
pub open spec fn payload_size_width(header: u8) -> nat {
    (((header >> 2) & 0x3) + 1) as nat
}

/// Byte count of the timestamp, from bits 4 to 6 of the header byte.
pub open spec fn timestamp_width(header: u8) -> nat {
    (((header >> 4) & 0x7) + 1) as nat
}

/// One record: header byte, entry id, payload length, timestamp, payload.
/// A payload under entry id 0 must be exactly one control record.
pub open spec fn spec_wpilog_record(s: Seq<u8>) -> Result<(RecordView, Seq<u8>), DecodeError> {
    if s.len() < 1 {
        Err(DecodeError::TruncatedInput)
    } else {
        match spec_varint(s.skip(1), entry_id_width(s[0])) {
            Err(e) => Err(e),
            Ok((entry_id, s1)) => match spec_varint(s1, payload_size_width(s[0])) {
                Err(e) => Err(e),
                Ok((size, s2)) => match spec_varint(s2, timestamp_width(s[0])) {
                    Err(e) => Err(e),
                    Ok((timestamp, s3)) => if s3.len() < size {
                        Err(DecodeError::TruncatedInput)
                    } else {
                        spec_record_payload(
                            entry_id as u32,
                            timestamp as u64,
                            s3.subrange(0, size as int),
                            s3.skip(size as int),
                        )
                    },
                },
            },
        }
    }
}

/// What a record's payload means: control under entry id 0, data otherwise.
pub open spec fn spec_record_payload(
    entry_id: u32,
    timestamp_us: u64,
    payload: Seq<u8>,
    rest: Seq<u8>,
) -> Result<(RecordView, Seq<u8>), DecodeError> {
    if entry_id == 0 {
        match spec_control_record(payload) {
            Err(e) => Err(e),
            Ok((control, left)) => if left.len() != 0 {
                Err(DecodeError::TrailingData)
            } else {
                Ok((RecordView { entry_id, timestamp_us, data: PayloadView::Control(control) }, rest))
            },
        }
    } else {
        Ok((RecordView { entry_id, timestamp_us, data: PayloadView::Data(payload) }, rest))
    }
}

/// Errors that end the decode at once. Any other failure of a record only
/// ends the record list, and shows as trailing data.
pub open spec fn is_fatal(e: DecodeError) -> bool {
    e == DecodeError::UnknownControlTag || e == DecodeError::InvalidUtf8
}

/// `more` with the records `done` put in front.
pub open spec fn prepend_records(
    done: Seq<RecordView>,
    more: Result<Seq<RecordView>, DecodeError>,
) -> Result<Seq<RecordView>, DecodeError> {
    match more {
        Ok(rs) => Ok(done + rs),
        Err(e) => Err(e),
    }
}

/// Records back to back until the input is used up.
pub open spec fn spec_wpilog_records(s: Seq<u8>) -> Result<Seq<RecordView>, DecodeError>
    decreases s.len(),
{
    if s.len() == 0 {
        Ok(Seq::empty())
    } else {
        match spec_wpilog_record(s) {
            Err(e) => if is_fatal(e) {
                Err(e)
            } else {
                Err(DecodeError::TrailingData)
            },
            Ok((record, rest)) => if rest.len() < s.len() {
                prepend_records(seq![record], spec_wpilog_records(rest))
            } else {
                Err(DecodeError::TrailingData)
            },
        }
    }
}

/// The six bytes `WPILOG`.
pub open spec fn wpilog_magic() -> Seq<u8> {
    seq![0x57u8, 0x50u8, 0x49u8, 0x4cu8, 0x4fu8, 0x47u8]
}

/// A whole log: magic, minor and major version, extra header, records.
pub open spec fn spec_wpilog(s: Seq<u8>) -> Result<LogView, DecodeError> {
    if !starts_with(s, wpilog_magic()) {
        Err(DecodeError::BadMagic)
    } else if s.len() < 8 {
        Err(DecodeError::TruncatedInput)
    } else {
        match spec_string_with_len(s.skip(8)) {
            Err(e) => Err(e),
            Ok((extra_header, body)) => if !(s[7] == 1 && s[6] == 0) {
                Err(DecodeError::UnsupportedVersion)
            } else {
                match spec_wpilog_records(body) {
                    Err(e) => Err(e),
                    Ok(records) => Ok(
                        LogView { major_version: s[7], minor_version: s[6], extra_header, records },
                    ),
                }
            },
        }
    }
}

/// A record always uses up at least its header byte.
pub proof fn lemma_record_consumes(s: Seq<u8>)
    ensures
        spec_wpilog_record(s) matches Ok(p) ==> p.1.len() < s.len(),
{
}

fn parse_entry_id<'a>(input: &'a [u8]) -> (r: Result<(&'a [u8], u32), DecodeError>)
    ensures
        decodes_to(r, spec_entry_id(input@)),
{
    match read_u32(input) {
        Some((rest, v)) => Ok((rest, v)),
        None => Err(DecodeError::TruncatedInput),
    }
}

pub fn parse_start_record<'a>(input: &'a [u8]) -> (r: Result<
    (&'a [u8], ControlRecord<'a>),
    DecodeError,
>)
    ensures
        decodes_to(r, spec_start_record(input@)),
{
    let (input, entry_id) = parse_entry_id(input)?;
    let (input, name) = parse_string_with_len(input)?;
    let (input, typ) = parse_string_with_len(input)?;
    let (input, metadata) = parse_string_with_len(input)?;
    Ok((input, ControlRecord::Start(StartRecord { entry_id, name, typ, metadata })))
}

pub fn parse_finish_record<'a>(input: &'a [u8]) -> (r: Result<
    (&'a [u8], ControlRecord<'a>),
    DecodeError,
>)
    ensures
        decodes_to(r, spec_finish_record(input@)),
{
    let (input, entry_id) = parse_entry_id(input)?;
    Ok((input, ControlRecord::Finish(FinishRecord { entry_id })))
}

pub fn parse_set_metadata_record<'a>(input: &'a [u8]) -> (r: Result<
    (&'a [u8], ControlRecord<'a>),
    DecodeError,
>)
    ensures
        decodes_to(r, spec_set_metadata_record(input@)),
{
    let (input, entry_id) = parse_entry_id(input)?;
    let (input, metadata) = parse_string_with_len(input)?;
    Ok((input, ControlRecord::SetMetadata(SetMetadataRecord { entry_id, metadata })))
}

/// Decodes a control payload by its leading tag byte.
pub fn parse_control_record<'a>(input: &'a [u8]) -> (r: Result<
    (&'a [u8], ControlRecord<'a>),
    DecodeError,
>)
    ensures
        decodes_to(r, spec_control_record(input@)),
{
    let (rest, control_record_type) = match read_u8(input) {
        Some(p) => p,
        None => {
            return Err(DecodeError::TruncatedInput);
        },
    };
    match control_record_type {
        0 => parse_start_record(rest),
        1 => parse_finish_record(rest),
        2 => parse_set_metadata_record(rest),
        _ => Err(DecodeError::UnknownControlTag),
    }
}

/// Decodes one record from the front of `input`.
pub fn parse_wpilog_record<'a>(input: &'a [u8]) -> (r: Result<
    (&'a [u8], WpiRecord<'a>),
    DecodeError,
>)
    ensures
        decodes_to(r, spec_wpilog_record(input@)),
{
    let (after_header, header_len) = match read_u8(input) {
        Some(p) => p,
        None => {
            return Err(DecodeError::TruncatedInput);
        },
    };
    let entry_id_len: u8 = header_len & 0x3;
    let payload_size_len: u8 = (header_len >> 2) & 0x3;
    let timestamp_len: u8 = (header_len >> 4) & 0x7;
    proof {
        assert(header_len & 0x3 < 4) by (bit_vector);
        assert((header_len >> 2) & 0x3 < 4) by (bit_vector);
        assert((header_len >> 4) & 0x7 < 8) by (bit_vector);
    }
    let (after_id, entry_id) = parse_u32(after_header, entry_id_len)?;
    let (after_size, payload_size) = parse_u32(after_id, payload_size_len)?;
    let (after_time, timestamp_us) = parse_u64(after_size, timestamp_len)?;
    let (rest, data) = match take_bytes(after_time, payload_size as usize) {
        Some(p) => p,
        None => {
            return Err(DecodeError::TruncatedInput);
        },
    };
    if entry_id == 0 {
        let (left, record) = parse_control_record(data)?;
        if left.len() != 0 {
            return Err(DecodeError::TrailingData);
        }
        Ok((rest, WpiRecord { entry_id, timestamp_us, data: Record::Control(record) }))
    } else {
        Ok((rest, WpiRecord { entry_id, timestamp_us, data: Record::Data(DataRecord { data }) }))
    }
}

/// What the record list is once its first record is known.
pub proof fn lemma_records_unfold(s: Seq<u8>)
    requires
        s.len() > 0,
    ensures
        spec_wpilog_records(s) == match spec_wpilog_record(s) {
            Err(e) => if is_fatal(e) {
                Err(e)
            } else {
                Err(DecodeError::TrailingData)
            },
            Ok(p) => prepend_records(seq![p.0], spec_wpilog_records(p.1)),
        },
{
    lemma_record_consumes(s);
}

/// Putting `done` and then `record` in front is putting `done.push(record)`
/// in front.
pub proof fn lemma_prepend_push(
    done: Seq<RecordView>,
    record: RecordView,
    more: Result<Seq<RecordView>, DecodeError>,
)
    ensures
        prepend_records(done, prepend_records(seq![record], more)) == prepend_records(
            done.push(record),
            more,
        ),
{
    match more {
        Ok(rs) => {
            assert(done + (seq![record] + rs) =~= done.push(record) + rs);
        },
        Err(_) => {},
    }
}

/// `stop` moved `by` bytes further into the input.
pub open spec fn shifted(stop: Option<int>, by: int) -> Option<int> {
    match stop {
        Some(k) => Some(k + by),
        None => None,
    }
}

/// Where a record list stops decoding: the offset of its first record
/// that does not decode, if there is one.
pub open spec fn spec_records_stop(s: Seq<u8>) -> Option<int>
    decreases s.len(),
{
    if s.len() == 0 {
        None
    } else {
        match spec_wpilog_record(s) {
            Err(_) => Some(0),
            Ok((_, rest)) => if rest.len() < s.len() {
                shifted(spec_records_stop(rest), s.len() - rest.len())
            } else {
                Some(0)
            },
        }
    }
}

/// A record list fails exactly when it stops at some record.
pub proof fn lemma_records_fail_where_they_stop(s: Seq<u8>)
    ensures
        spec_wpilog_records(s) is Err <==> spec_records_stop(s) is Some,
        spec_records_stop(s) matches Some(k) ==> 0 <= k < s.len(),
    decreases s.len(),
{
    if s.len() > 0 {
        match spec_wpilog_record(s) {
            Err(_) => {},
            Ok((_, rest)) => {
                lemma_record_consumes(s);
                lemma_records_fail_where_they_stop(rest);
            },
        }
    }
}

/// Decodes records until the input is used up, and says where decoding
/// stopped when it fails.
pub fn parse_wpilog_records_located<'a>(input: &'a [u8]) -> (r: Result<
    (&'a [u8], Vec<WpiRecord<'a>>),
    DecodeFailure,
>)
    ensures
        match spec_wpilog_records(input@) {
            Ok(rs) => r matches Ok(p) && p.0@.len() == 0 && records_view(p.1@) == rs,
            Err(e) => r matches Err(f) && f.error == e && spec_records_stop(input@) == Some(
                f.offset as int,
            ),
        },
{
    let mut records: Vec<WpiRecord<'a>> = Vec::new();
    let mut cur = input;
    let total = input.len();
    proof {
        let all = spec_wpilog_records(input@);
        assert(records_view(records@) =~= Seq::<RecordView>::empty());
        if all is Ok {
            assert(Seq::<RecordView>::empty() + all.unwrap() =~= all.unwrap());
        }
    }
    while cur.len() != 0
        invariant
            total == input@.len(),
            cur@.len() <= total,
            spec_wpilog_records(input@) == prepend_records(
                records_view(records@),
                spec_wpilog_records(cur@),
            ),
            spec_records_stop(input@) == shifted(spec_records_stop(cur@), total - cur@.len()),
        decreases cur@.len(),
    {
        proof {
            lemma_records_unfold(cur@);
            lemma_record_consumes(cur@);
        }
        match parse_wpilog_record(cur) {
            Err(e) => {
                let offset = total - cur.len();
                let fatal = match e {
                    DecodeError::UnknownControlTag => true,
                    DecodeError::InvalidUtf8 => true,
                    _ => false,
                };
                if fatal {
                    return Err(DecodeFailure { error: e, offset });
                } else {
                    return Err(DecodeFailure { error: DecodeError::TrailingData, offset });
                }
            },
            Ok((rest, record)) => {
                proof {
                    let done = records_view(records@);
                    assert(records_view(records@.push(record)) =~= done.push(record@));
                    lemma_prepend_push(done, record@, spec_wpilog_records(rest@));
                }
                records.push(record);
                cur = rest;
            },
        }
    }
    proof {
        assert(records_view(records@) + Seq::<RecordView>::empty() =~= records_view(records@));
    }
    Ok((cur, records))
}

/// Decodes records until the input is used up.
pub fn parse_wpilog_records<'a>(input: &'a [u8]) -> (r: Result<
    (&'a [u8], Vec<WpiRecord<'a>>),
    DecodeError,
>)
    ensures
        match spec_wpilog_records(input@) {
            Ok(rs) => r matches Ok(p) && p.0@.len() == 0 && records_view(p.1@) == rs,
            Err(e) => fails_with(r, e),
        },
{
    match parse_wpilog_records_located(input) {
        Ok(p) => Ok(p),
        Err(f) => Err(f.error),
    }
}

/// Where decoding a log stops when it fails: 0 for a wrong signature, 6
/// for the version, 8 for the extra header, else the offset of the first
/// record that does not decode.
pub open spec fn spec_wpilog_stop(s: Seq<u8>) -> int {
    if !starts_with(s, wpilog_magic()) {
        0
    } else if s.len() < 8 {
        6
    } else {
        match spec_string_with_len(s.skip(8)) {
            Err(_) => 8,
            Ok((_, body)) => if !(s[7] == 1 && s[6] == 0) {
                6
            } else {
                match spec_records_stop(body) {
                    Some(k) => s.len() - body.len() + k,
                    None => s.len() as int,
                }
            },
        }
    }
}

/// Decodes a whole log, and says where decoding stopped when it fails.
pub fn parse_wpilog_located<'a>(input: &'a [u8]) -> (r: Result<
    (&'a [u8], WpiLog<'a>),
    DecodeFailure,
>)
    ensures
        match spec_wpilog(input@) {
            Ok(log) => r matches Ok(p) && p.0@.len() == 0 && p.1@ == log,
            Err(e) => r matches Err(f) && f.error == e && f.offset == spec_wpilog_stop(input@),
        },
{
    let magic: [u8; 6] = [0x57, 0x50, 0x49, 0x4c, 0x4f, 0x47];
    assert(magic@ =~= wpilog_magic());
    let after_magic = match match_tag(input, magic.as_slice()) {
        Some(rest) => rest,
        None => {
            return Err(DecodeFailure { error: DecodeError::BadMagic, offset: 0 });
        },
    };
    let (after_minor, minor_version) = match read_u8(after_magic) {
        Some(p) => p,
        None => {
            return Err(DecodeFailure { error: DecodeError::TruncatedInput, offset: 6 });
        },
    };
    let (after_major, major_version) = match read_u8(after_minor) {
        Some(p) => p,
        None => {
            return Err(DecodeFailure { error: DecodeError::TruncatedInput, offset: 6 });
        },
    };
    assert(after_major@ =~= input@.skip(8));
    let (body, extra_header) = match parse_string_with_len(after_major) {
        Ok(p) => p,
        Err(e) => {
            return Err(DecodeFailure { error: e, offset: 8 });
        },
    };
    if !(major_version == 1 && minor_version == 0) {
        return Err(DecodeFailure { error: DecodeError::UnsupportedVersion, offset: 6 });
    }
    let header_len = input.len() - body.len();
    match parse_wpilog_records_located(body) {
        Ok((cur, records)) => Ok(
            (cur, WpiLog { major_version, minor_version, extra_header, records }),
        ),
        Err(f) => {
            proof {
                lemma_records_fail_where_they_stop(body@);
            }
            Err(DecodeFailure { error: f.error, offset: header_len + f.offset })
        },
    }
}

/// Decodes a whole log. On success nothing of the input is left.
pub fn parse_wpilog<'a>(input: &'a [u8]) -> (r: Result<(&'a [u8], WpiLog<'a>), DecodeError>)
    ensures
        match spec_wpilog(input@) {
            Ok(log) => r matches Ok(p) && p.0@.len() == 0 && p.1@ == log,
            Err(e) => fails_with(r, e),
        },
{
    match parse_wpilog_located(input) {
        Ok(p) => Ok(p),
        Err(f) => Err(f.error),
    }
}

/// A boolean: one byte, true exactly when the byte is 1.
pub open spec fn spec_boolean(s: Seq<u8>) -> Result<(bool, Seq<u8>), DecodeError> {
    if s.len() < 1 {
        Err(DecodeError::TruncatedInput)
    } else {
        Ok((s[0] == 1, s.skip(1)))
    }
}

/// A signed 64-bit integer: eight bytes, little-endian two's complement.
pub open spec fn spec_int64(s: Seq<u8>) -> Result<(i64, Seq<u8>), DecodeError> {
    if s.len() < 8 {
        Err(DecodeError::TruncatedInput)
    } else {
        Ok((signed64(le_value(s.subrange(0, 8))) as i64, s.skip(8)))
    }
}

/// The bit pattern of a 32-bit float: four bytes, little-endian.
pub open spec fn spec_float(s: Seq<u8>) -> Result<(u32, Seq<u8>), DecodeError> {
    if s.len() < 4 {
        Err(DecodeError::TruncatedInput)
    } else {
        Ok((le_value(s.subrange(0, 4)) as u32, s.skip(4)))
    }
}

/// The bit pattern of a 64-bit float: eight bytes, little-endian.
pub open spec fn spec_double(s: Seq<u8>) -> Result<(u64, Seq<u8>), DecodeError> {
    if s.len() < 8 {
        Err(DecodeError::TruncatedInput)
    } else {
        Ok((le_value(s.subrange(0, 8)) as u64, s.skip(8)))
    }
}

/// Text that fills the whole payload.
pub open spec fn spec_string_full(s: Seq<u8>) -> Result<(Seq<u8>, Seq<u8>), DecodeError> {
    if !valid_utf8(s) {
        Err(DecodeError::InvalidUtf8)
    } else {
        Ok((s, Seq::empty()))
    }
}

/// The element that the `kind.width()` bytes `e` spell.
pub open spec fn spec_scalar(kind: ScalarKind, e: Seq<u8>) -> DataValue {
    match kind {
        ScalarKind::Boolean => DataValue::Boolean(e[0] == 1),
        ScalarKind::Int64 => DataValue::Int64(signed64(le_value(e)) as i64),
        ScalarKind::Float => DataValue::Float(le_value(e) as u32),
        ScalarKind::Double => DataValue::Double(le_value(e) as u64),
    }
}

/// One element from the front of `s`.
pub open spec fn spec_element(kind: ScalarKind, s: Seq<u8>) -> Result<
    (DataValue, Seq<u8>),
    DecodeError,
> {
    if s.len() < kind.width() {
        Err(DecodeError::TruncatedInput)
    } else {
        Ok((spec_scalar(kind, s.subrange(0, kind.width() as int)), s.skip(kind.width() as int)))
    }
}

/// Element `i` of an array payload.
pub open spec fn spec_array_item(kind: ScalarKind, s: Seq<u8>, i: int) -> DataValue {
    spec_scalar(kind, s.subrange(i * kind.width(), i * kind.width() + kind.width()))
}

/// An array of fixed-width elements: the payload cut into elements, and an
/// error when its length is no multiple of the element width.
pub open spec fn spec_array(kind: ScalarKind, s: Seq<u8>) -> Result<
    (Seq<DataValue>, Seq<u8>),
    DecodeError,
> {
    if s.len() % (kind.width() as nat) != 0 {
        Err(DecodeError::ArrayLengthMismatch)
    } else {
        Ok(
            (
                Seq::new(
                    s.len() / (kind.width() as nat),
                    |i: int| spec_array_item(kind, s, i),
                ),
                Seq::empty(),
            ),
        )
    }
}

/// `count` length-prefixed texts, one after the other.
pub open spec fn spec_strings(s: Seq<u8>, count: nat) -> Result<
    (Seq<Seq<u8>>, Seq<u8>),
    DecodeError,
>
    decreases count,
{
    if count == 0 {
        Ok((Seq::empty(), s))
    } else {
        match spec_string_with_len(s) {
            Err(e) => Err(e),
            Ok((text, rest)) => match spec_strings(rest, (count - 1) as nat) {
                Err(e) => Err(e),
                Ok((texts, left)) => Ok((seq![text] + texts, left)),
            },
        }
    }
}

/// An array of texts: a four-byte count, then exactly that many
/// length-prefixed texts and nothing after them.
pub open spec fn spec_string_array(s: Seq<u8>) -> Result<(Seq<Seq<u8>>, Seq<u8>), DecodeError> {
    if s.len() < 4 {
        Err(DecodeError::TruncatedInput)
    } else {
        match spec_strings(s.skip(4), le_value(s.subrange(0, 4))) {
            Err(e) => Err(e),
            Ok((texts, left)) => if left.len() != 0 {
                Err(DecodeError::TrailingData)
            } else {
                Ok((texts, left))
            },
        }
    }
}

/// Takes the whole input as UTF-8 text.
pub fn parse_string_full<'a>(input: &'a [u8]) -> (r: Result<(&'a [u8], &'a str), DecodeError>)
    ensures
        decodes_to_text(r, spec_string_full(input@)),
{
    match utf8_text(input) {
        Some(text) => {
            let rest = slice_subrange(input, input.len(), input.len());
            assert(rest@ =~= Seq::<u8>::empty());
            Ok((rest, text))
        },
        None => Err(DecodeError::InvalidUtf8),
    }
}

/// Takes the whole input as it is.
pub fn parse_raw<'a>(input: &'a [u8]) -> (r: Result<(&'a [u8], &'a [u8]), DecodeError>)
    ensures
        r matches Ok(p) && p.0@.len() == 0 && p.1@ == input@,
{
    let rest = slice_subrange(input, input.len(), input.len());
    Ok((rest, input))
}

pub fn parse_boolean<'a>(input: &'a [u8]) -> (r: Result<(&'a [u8], bool), DecodeError>)
    ensures
        decodes_to(r, spec_boolean(input@)),
{
    match read_u8(input) {
        Some((rest, byte)) => Ok((rest, byte == 1)),
        None => Err(DecodeError::TruncatedInput),
    }
}

pub fn parse_int64<'a>(input: &'a [u8]) -> (r: Result<(&'a [u8], i64), DecodeError>)
    ensures
        decodes_to(r, spec_int64(input@)),
{
    match read_i64(input) {
        Some((rest, number)) => Ok((rest, number)),
        None => Err(DecodeError::TruncatedInput),
    }
}

/// Reads a 32-bit float and returns its bit pattern.
pub fn parse_float<'a>(input: &'a [u8]) -> (r: Result<(&'a [u8], u32), DecodeError>)
    ensures
        decodes_to(r, spec_float(input@)),
{
    match read_u32(input) {
        Some((rest, bits)) => Ok((rest, bits)),
        None => Err(DecodeError::TruncatedInput),
    }
}

/// Reads a 64-bit float and returns its bit pattern.
pub fn parse_double<'a>(input: &'a [u8]) -> (r: Result<(&'a [u8], u64), DecodeError>)
    ensures
        decodes_to(r, spec_double(input@)),
{
    match read_u64(input) {
        Some((rest, bits)) => Ok((rest, bits)),
        None => Err(DecodeError::TruncatedInput),
    }
}

/// Reads one element of the given kind.
pub fn parse_element<'a>(kind: ScalarKind, input: &'a [u8]) -> (r: Result<
    (&'a [u8], DataType<'a>),
    DecodeError,
>)
    ensures
        decodes_to(r, spec_element(kind, input@)),
{
    match kind {
        ScalarKind::Boolean => {
            let (rest, v) = parse_boolean(input)?;
            assert(input@.subrange(0, 1)[0] == input@[0]);
            Ok((rest, DataType::Boolean(v)))
        },
        ScalarKind::Int64 => {
            let (rest, v) = parse_int64(input)?;
            Ok((rest, DataType::Int64(v)))
        },
        ScalarKind::Float => {
            let (rest, v) = parse_float(input)?;
            Ok((rest, DataType::Float(v)))
        },
        ScalarKind::Double => {
            let (rest, v) = parse_double(input)?;
            Ok((rest, DataType::Double(v)))
        },
    }
}

/// Decodes a payload that is nothing but elements of one kind.
pub fn parse_array<'a>(kind: ScalarKind, input: &'a [u8]) -> (r: Result<
    (&'a [u8], Vec<DataType<'a>>),
    DecodeError,
>)
    ensures
        match spec_array(kind, input@) {
            Ok(e) => r matches Ok(p) && p.0@ == e.1 && values_view(p.1@) == e.0,
            Err(e) => fails_with(r, e),
        },
{
    let width = kind.width();
    if input.len() % width != 0 {
        return Err(DecodeError::ArrayLengthMismatch);
    }
    let count = input.len() / width;
    proof {
        vstd::arithmetic::div_mod::lemma_fundamental_div_mod(input@.len() as int, width as int);
    }
    let mut out: Vec<DataType<'a>> = Vec::new();
    let mut cur = input;
    let mut k: usize = 0;
    while k < count
        invariant
            width == kind.width(),
            input@.len() == width * count,
            k <= count,
            out@.len() == k,
            cur@ == input@.skip(k * width),
            forall|j: int| 0 <= j < k ==> out@[j]@ == spec_array_item(kind, input@, j),
        decreases count - k,
    {
        proof {
            assert(k * width + width <= width * count) by (nonlinear_arith)
                requires
                    k < count,
            ;
        }
        match parse_element(kind, cur) {
            Err(e) => {
                return Err(e);
            },
            Ok((rest, v)) => {
                proof {
                    assert(cur@.subrange(0, width as int) =~= input@.subrange(
                        k * width,
                        k * width + width,
                    ));
                    assert(rest@ =~= input@.skip((k + 1) * width)) by {
                        assert((k + 1) * width == k * width + width) by (nonlinear_arith);
                    }
                }
                out.push(v);
                cur = rest;
                k = k + 1;
            },
        }
    }
    proof {
        assert(cur@ =~= Seq::<u8>::empty());
        assert(input@.len() as int / width as int == count) by {
            vstd::arithmetic::div_mod::lemma_fundamental_div_mod(input@.len() as int, width as int);
        }
        assert(values_view(out@) =~= spec_array(kind, input@).unwrap().0);
    }
    Ok((cur, out))
}

/// Decodes a counted array of length-prefixed texts.
pub fn parse_array_ref_with_len<'a>(input: &'a [u8]) -> (r: Result<
    (&'a [u8], Vec<&'a str>),
    DecodeError,
>)
    ensures
        match spec_string_array(input@) {
            Ok(e) => r matches Ok(p) && p.0@ == e.1 && texts_view(p.1@) == e.0,
            Err(e) => fails_with(r, e),
        },
{
    let (after_count, count) = match read_u32(input) {
        Some(p) => p,
        None => {
            return Err(DecodeError::TruncatedInput);
        },
    };
    let mut out: Vec<&'a str> = Vec::new();
    let mut cur = after_count;
    let mut k: u32 = 0;
    proof {
        let all = spec_strings(after_count@, count as nat);
        assert(texts_view(out@) =~= Seq::<Seq<u8>>::empty());
        if all is Ok {
            assert(Seq::<Seq<u8>>::empty() + all.unwrap().0 =~= all.unwrap().0);
        }
    }
    while k < count
        invariant
            k <= count,
            input@.len() >= 4,
            after_count@ == input@.skip(4),
            count == le_value(input@.subrange(0, 4)),
            spec_strings(after_count@, count as nat) == prepend_texts(
                texts_view(out@),
                spec_strings(cur@, (count - k) as nat),
            ),
        decreases count - k,
    {
        let ghost left = (count - k) as nat;
        assert(spec_strings(cur@, left) == match spec_string_with_len(cur@) {
            Err(e) => Err(e),
            Ok(p) => prepend_texts(seq![p.0], spec_strings(p.1, (left - 1) as nat)),
        });
        match parse_string_with_len(cur) {
            Err(e) => {
                return Err(e);
            },
            Ok((rest, text)) => {
                proof {
                    let done = texts_view(out@);
                    assert(texts_view(out@.push(text)) =~= done.push(text.spec_bytes()));
                    match spec_strings(rest@, (count - k - 1) as nat) {
                        Ok(more) => {
                            assert(done + (seq![text.spec_bytes()] + more.0) =~= done.push(
                                text.spec_bytes(),
                            ) + more.0);
                        },
                        Err(_) => {},
                    }
                }
                out.push(text);
                cur = rest;
                k = k + 1;
            },
        }
    }
    proof {
        assert(texts_view(out@) + Seq::<Seq<u8>>::empty() =~= texts_view(out@));
    }
    if cur.len() != 0 {
        return Err(DecodeError::TrailingData);
    }
    Ok((cur, out))
}

/// `more` with the texts `done` put in front.
pub open spec fn prepend_texts(
    done: Seq<Seq<u8>>,
    more: Result<(Seq<Seq<u8>>, Seq<u8>), DecodeError>,
) -> Result<(Seq<Seq<u8>>, Seq<u8>), DecodeError> {
    match more {
        Ok(m) => Ok((done + m.0, m.1)),
        Err(e) => Err(e),
    }
}

} // verus!
