//! The WPILOG encoding as a specification, and the proof that decoding
//! inverts it.

use vstd::prelude::*;
use vstd::utf8::*;
use crate::bytes::{le_bytes, lemma_le_bytes_value, lemma_pow256_values, pow256, starts_with};
use crate::error::DecodeError;
use crate::parser::{
    entry_id_width, lemma_records_unfold, payload_size_width, spec_control_record, spec_entry_id,
    spec_record_payload, spec_string_with_len, spec_varint, spec_wpilog, spec_wpilog_record,
    spec_wpilog_records, timestamp_width, wpilog_magic,
};
use crate::types::{ControlView, LogView, PayloadView, RecordView};

verus! {

/// Text on the wire: a four-byte length, then the UTF-8 bytes.
pub open spec fn encode_string(t: Seq<u8>) -> Seq<u8> {
    le_bytes(t.len(), 4) + t
}

/// A control payload on the wire.
pub open spec fn encode_control(c: ControlView) -> Seq<u8> {
    match c {
        ControlView::Start(s) => seq![0u8] + le_bytes(s.entry_id as nat, 4) + encode_string(s.name)
            + encode_string(s.typ) + encode_string(s.metadata),
        ControlView::Finish(id) => seq![1u8] + le_bytes(id as nat, 4),
        ControlView::SetMetadata(m) => seq![2u8] + le_bytes(m.entry_id as nat, 4) + encode_string(
            m.metadata,
        ),
    }
}

/// The payload bytes of a record.
pub open spec fn payload_bytes(r: RecordView) -> Seq<u8> {
    match r.data {
        PayloadView::Data(d) => d,
        PayloadView::Control(c) => encode_control(c),
    }
}

/// A record on the wire, its three numbers in the widths that the header
/// byte `header` selects.
pub open spec fn encode_record(r: RecordView, header: u8) -> Seq<u8> {
    seq![header] + le_bytes(r.entry_id as nat, entry_id_width(header)) + le_bytes(
        payload_bytes(r).len(),
        payload_size_width(header),
    ) + le_bytes(r.timestamp_us as nat, timestamp_width(header)) + payload_bytes(r)
}

/// Records on the wire, record `i` under the header byte `headers[i]`.
pub open spec fn encode_records(rs: Seq<RecordView>, headers: Seq<u8>) -> Seq<u8>
    decreases rs.len(),
{
    if rs.len() == 0 {
        Seq::empty()
    } else {
        encode_record(rs[0], headers[0]) + encode_records(rs.skip(1), headers.skip(1))
    }
}

/// A whole log on the wire.
pub open spec fn encode_log(log: LogView, headers: Seq<u8>) -> Seq<u8> {
    wpilog_magic() + seq![log.minor_version, log.major_version] + encode_string(log.extra_header)
        + encode_records(log.records, headers)
}

/// Text that the format can carry: well-formed UTF-8 whose length fits
/// four bytes.
pub open spec fn text_ok(t: Seq<u8>) -> bool {
    valid_utf8(t) && t.len() < pow256(4)
}

/// A control record whose texts the format can carry.
pub open spec fn control_ok(c: ControlView) -> bool {
    match c {
        ControlView::Start(s) => text_ok(s.name) && text_ok(s.typ) && text_ok(s.metadata),
        ControlView::Finish(_) => true,
        ControlView::SetMetadata(m) => text_ok(m.metadata),
    }
}

/// The record can be written under the header byte `header`: its numbers
/// fit the selected widths, control records and only they have entry id 0.
pub open spec fn record_ok(r: RecordView, header: u8) -> bool {
    &&& r.entry_id < pow256(entry_id_width(header))
    &&& payload_bytes(r).len() < pow256(payload_size_width(header))
    &&& r.timestamp_us < pow256(timestamp_width(header))
    &&& match r.data {
        PayloadView::Data(_) => r.entry_id != 0,
        PayloadView::Control(c) => r.entry_id == 0 && control_ok(c),
    }
}

/// Every record can be written under its header byte.
pub open spec fn records_ok(rs: Seq<RecordView>, headers: Seq<u8>) -> bool {
    &&& headers.len() == rs.len()
    &&& forall|i: int| 0 <= i < rs.len() ==> record_ok(#[trigger] rs[i], headers[i])
}

/// The log can be written: version 1.0, a header text that the format can
/// carry, and records that fit their header bytes.
pub open spec fn log_ok(log: LogView, headers: Seq<u8>) -> bool {
    &&& log.major_version == 1
    &&& log.minor_version == 0
    &&& text_ok(log.extra_header)
    &&& records_ok(log.records, headers)
}

/// The three field widths that a header byte selects lie in 1..=4, 1..=4
/// and 1..=8: entry id, payload length, timestamp.
pub proof fn lemma_header_widths(header: u8)
    ensures
        1 <= entry_id_width(header) <= 4,
        1 <= payload_size_width(header) <= 4,
        1 <= timestamp_width(header) <= 8,
        header & 0x40 == 0 ==> timestamp_width(header) <= 4,
{
    assert(header & 0x3 < 4) by (bit_vector);
    assert((header >> 2) & 0x3 < 4) by (bit_vector);
    assert((header >> 4) & 0x7 < 8) by (bit_vector);
    assert(header & 0x40 == 0 ==> (header >> 4) & 0x7 < 4) by (bit_vector);
}

/// A number written in `width` bytes reads back, whatever follows it.
pub proof fn lemma_varint_roundtrip(v: nat, width: nat, rest: Seq<u8>)
    requires
        v < pow256(width),
    ensures
        spec_varint(le_bytes(v, width) + rest, width) == Ok::<(nat, Seq<u8>), DecodeError>(
            (v, rest),
        ),
{
    lemma_le_bytes_value(v, width);
    let s = le_bytes(v, width) + rest;
    assert(s.subrange(0, width as int) =~= le_bytes(v, width));
    assert(s.skip(width as int) =~= rest);
}

/// An entry id reads back, whatever follows it.
pub proof fn lemma_entry_id_roundtrip(id: u32, rest: Seq<u8>)
    ensures
        spec_entry_id(le_bytes(id as nat, 4) + rest) == Ok::<(u32, Seq<u8>), DecodeError>(
            (id, rest),
        ),
{
    lemma_pow256_values();
    lemma_le_bytes_value(id as nat, 4);
    let s = le_bytes(id as nat, 4) + rest;
    assert(s.subrange(0, 4) =~= le_bytes(id as nat, 4));
    assert(s.skip(4) =~= rest);
}

/// Text reads back, whatever follows it.
pub proof fn lemma_string_roundtrip(t: Seq<u8>, rest: Seq<u8>)
    requires
        text_ok(t),
    ensures
        spec_string_with_len(encode_string(t) + rest) == Ok::<(Seq<u8>, Seq<u8>), DecodeError>(
            (t, rest),
        ),
{
    lemma_le_bytes_value(t.len(), 4);
    let s = encode_string(t) + rest;
    assert(s.subrange(0, 4) =~= le_bytes(t.len(), 4));
    let n = t.len() as int;
    assert(s.subrange(4, 4 + n) =~= t);
    assert(s.skip(4 + n) =~= rest);
}

/// A control payload reads back and leaves nothing.
pub proof fn lemma_control_roundtrip(c: ControlView)
    requires
        control_ok(c),
    ensures
        spec_control_record(encode_control(c)) == Ok::<(ControlView, Seq<u8>), DecodeError>(
            (c, Seq::empty()),
        ),
{
    let bytes = encode_control(c);
    let end = Seq::<u8>::empty();
    match c {
        ControlView::Start(s) => {
            let a3 = encode_string(s.metadata) + end;
            let a2 = encode_string(s.typ) + a3;
            let a1 = encode_string(s.name) + a2;
            let a0 = le_bytes(s.entry_id as nat, 4) + a1;
            assert(bytes =~= seq![0u8] + a0);
            assert(bytes.skip(1) =~= a0);
            lemma_entry_id_roundtrip(s.entry_id, a1);
            lemma_string_roundtrip(s.name, a2);
            lemma_string_roundtrip(s.typ, a3);
            lemma_string_roundtrip(s.metadata, end);
        },
        ControlView::Finish(id) => {
            let a0 = le_bytes(id as nat, 4) + end;
            assert(bytes =~= seq![1u8] + a0);
            assert(bytes.skip(1) =~= a0);
            lemma_entry_id_roundtrip(id, end);
        },
        ControlView::SetMetadata(m) => {
            let a1 = encode_string(m.metadata) + end;
            let a0 = le_bytes(m.entry_id as nat, 4) + a1;
            assert(bytes =~= seq![2u8] + a0);
            assert(bytes.skip(1) =~= a0);
            lemma_entry_id_roundtrip(m.entry_id, a1);
            lemma_string_roundtrip(m.metadata, end);
        },
    }
}

/// A record reads back, whatever follows it.
pub proof fn lemma_record_roundtrip(r: RecordView, header: u8, rest: Seq<u8>)
    requires
        record_ok(r, header),
    ensures
        spec_wpilog_record(encode_record(r, header) + rest) == Ok::<
            (RecordView, Seq<u8>),
            DecodeError,
        >((r, rest)),
        encode_record(r, header).len() >= 1,
{
    let payload = payload_bytes(r);
    let s = encode_record(r, header) + rest;
    let a3 = payload + rest;
    let a2 = le_bytes(r.timestamp_us as nat, timestamp_width(header)) + a3;
    let a1 = le_bytes(payload.len(), payload_size_width(header)) + a2;
    let a0 = le_bytes(r.entry_id as nat, entry_id_width(header)) + a1;
    assert(s =~= seq![header] + a0);
    assert(s[0] == header);
    assert(s.skip(1) =~= a0);
    lemma_varint_roundtrip(r.entry_id as nat, entry_id_width(header), a1);
    lemma_varint_roundtrip(payload.len(), payload_size_width(header), a2);
    lemma_varint_roundtrip(r.timestamp_us as nat, timestamp_width(header), a3);
    assert(a3.subrange(0, payload.len() as int) =~= payload);
    assert(a3.skip(payload.len() as int) =~= rest);
    match r.data {
        PayloadView::Data(_) => {},
        PayloadView::Control(c) => {
            lemma_control_roundtrip(c);
        },
    }
    assert(spec_record_payload(r.entry_id, r.timestamp_us, payload, rest) == Ok::<
        (RecordView, Seq<u8>),
        DecodeError,
    >((r, rest)));
}

/// A record list reads back and uses up its bytes.
pub proof fn lemma_records_roundtrip(rs: Seq<RecordView>, headers: Seq<u8>)
    requires
        records_ok(rs, headers),
    ensures
        spec_wpilog_records(encode_records(rs, headers)) == Ok::<Seq<RecordView>, DecodeError>(rs),
    decreases rs.len(),
{
    if rs.len() == 0 {
        assert(rs =~= Seq::<RecordView>::empty());
    } else {
        let tail = encode_records(rs.skip(1), headers.skip(1));
        assert(record_ok(rs[0], headers[0]));
        lemma_record_roundtrip(rs[0], headers[0], tail);
        assert(records_ok(rs.skip(1), headers.skip(1))) by {
            assert forall|i: int| 0 <= i < rs.skip(1).len() implies record_ok(
                #[trigger] rs.skip(1)[i],
                headers.skip(1)[i],
            ) by {
                assert(record_ok(rs[i + 1], headers[i + 1]));
            }
        }
        lemma_records_roundtrip(rs.skip(1), headers.skip(1));
        lemma_records_unfold(encode_records(rs, headers));
        assert(seq![rs[0]] + rs.skip(1) =~= rs);
    }
}

/// Decoding inverts encoding: a log that can be written, written under
/// any header bytes that fit its records, decodes to itself, and the
/// decoder leaves no byte (the grammar has no rest to hand back).
pub proof fn lemma_decode_inverts_encode(log: LogView, headers: Seq<u8>)
    requires
        log_ok(log, headers),
    ensures
        spec_wpilog(encode_log(log, headers)) == Ok::<LogView, DecodeError>(log),
{
    let body = encode_records(log.records, headers);
    let s = encode_log(log, headers);
    let a1 = encode_string(log.extra_header) + body;
    assert(s =~= wpilog_magic() + seq![log.minor_version, log.major_version] + a1);
    assert(s.subrange(0, 6) =~= wpilog_magic());
    assert(starts_with(s, wpilog_magic()));
    assert(s[6] == log.minor_version);
    assert(s[7] == log.major_version);
    assert(s.skip(8) =~= a1);
    lemma_string_roundtrip(log.extra_header, body);
    lemma_records_roundtrip(log.records, headers);
}

} // verus!
