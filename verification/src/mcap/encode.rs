//! The MCAP container encoding as a specification, and the proof that
//! decoding the container inverts it whatever the records hold.

use vstd::prelude::*;
use crate::bytes::{le_bytes, lemma_le_bytes_value, pow256, starts_with};
use crate::error::DecodeError;
use crate::mcap::fields::spec_length_data;
use crate::mcap::{
    RawView, mcap_magic, prepend_raws, spec_mcap, spec_raw_record, spec_raw_records,
};

verus! {

/// A raw record on the wire: opcode, eight-byte length, content.
pub open spec fn encode_raw(r: RawView) -> Seq<u8> {
    seq![r.tag] + le_bytes(r.content.len(), 8) + r.content
}

/// Raw records on the wire, one after the other.
pub open spec fn encode_raws(rs: Seq<RawView>) -> Seq<u8>
    decreases rs.len(),
{
    if rs.len() == 0 {
        Seq::empty()
    } else {
        encode_raw(rs[0]) + encode_raws(rs.skip(1))
    }
}

/// A container on the wire: the records between two signatures.
pub open spec fn encode_mcap(rs: Seq<RawView>) -> Seq<u8> {
    mcap_magic() + encode_raws(rs) + mcap_magic()
}

/// The length of every content fits eight bytes.
pub open spec fn raws_ok(rs: Seq<RawView>) -> bool {
    forall|i: int| 0 <= i < rs.len() ==> (#[trigger] rs[i]).content.len() < pow256(8)
}

/// A raw record reads back, whatever it holds and whatever follows it.
pub proof fn lemma_raw_roundtrip(r: RawView, rest: Seq<u8>)
    requires
        r.content.len() < pow256(8),
    ensures
        spec_raw_record(encode_raw(r) + rest) == Ok::<(RawView, Seq<u8>), DecodeError>((r, rest)),
{
    lemma_le_bytes_value(r.content.len(), 8);
    let s = encode_raw(r) + rest;
    let body = le_bytes(r.content.len(), 8) + r.content + rest;
    let n = r.content.len() as int;
    assert(s =~= seq![r.tag] + body);
    assert(s.skip(1) =~= body);
    assert(body.subrange(0, 8) =~= le_bytes(r.content.len(), 8));
    assert(body.subrange(8, 8 + n) =~= r.content);
    assert(body.skip(8 + n) =~= rest);
}

/// Raw records read back, and reading goes on with what follows them.
pub proof fn lemma_raws_roundtrip(rs: Seq<RawView>, rest: Seq<u8>)
    requires
        raws_ok(rs),
    ensures
        spec_raw_records(encode_raws(rs) + rest) == prepend_raws(rs, spec_raw_records(rest)),
    decreases rs.len(),
{
    let more = spec_raw_records(rest);
    if rs.len() == 0 {
        assert(encode_raws(rs) + rest =~= rest);
        assert(rs + more.0 =~= more.0);
    } else {
        let tail = encode_raws(rs.skip(1)) + rest;
        assert(encode_raws(rs) + rest =~= encode_raw(rs[0]) + tail);
        lemma_raw_roundtrip(rs[0], tail);
        assert(raws_ok(rs.skip(1))) by {
            assert forall|i: int| 0 <= i < rs.skip(1).len() implies (#[trigger] rs.skip(
                1,
            )[i]).content.len() < pow256(8) by {
                assert(rs.skip(1)[i] == rs[i + 1]);
            }
        }
        lemma_raws_roundtrip(rs.skip(1), rest);
        assert(seq![rs[0]] + (rs.skip(1) + more.0) =~= rs + more.0);
    }
}

/// Decoding a container inverts encoding it: the raw records come back
/// as they were written and nothing is left. What the contents hold plays
/// no part, so a record that is damaged inside cannot fail the container.
pub proof fn lemma_container_roundtrip(rs: Seq<RawView>)
    requires
        raws_ok(rs),
    ensures
        spec_mcap(encode_mcap(rs)) == Ok::<(Seq<RawView>, Seq<u8>), DecodeError>(
            (rs, Seq::empty()),
        ),
{
    let magic = mcap_magic();
    let s = encode_mcap(rs);
    let body = encode_raws(rs) + magic;
    assert(s =~= magic + body);
    assert(s.subrange(0, 8) =~= magic);
    assert(s.skip(8) =~= body);
    lemma_raws_roundtrip(rs, magic);
    assert(spec_length_data(magic.skip(1), 8) is Err);
    assert(spec_raw_records(magic) == (Seq::<RawView>::empty(), magic));
    assert(rs + Seq::<RawView>::empty() =~= rs);
    assert(magic.subrange(0, 8) =~= magic);
    assert(starts_with(magic, magic));
    assert(magic.skip(8) =~= Seq::<u8>::empty());
}

} // verus!
