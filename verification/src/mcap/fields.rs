//! The field encodings that MCAP records are made of.
//!
//! A field that reaches past the end of its record is a
//! `TruncatedRecord`; text that is not UTF-8 is an `InvalidUtf8`.

use vstd::prelude::*;
use vstd::slice::*;
use vstd::string::*;
use vstd::utf8::*;
use crate::bytes::{
    le_value, read_u16, read_u32, read_u64, read_u8, take_bytes, utf8_text,
};
use crate::error::DecodeError;
use crate::parser::{decodes_to, decodes_to_text, fails_with};

verus! {

/// The unsigned number in the bytes `from..to` of `s`, little-endian.
pub open spec fn number_at(s: Seq<u8>, from: int, to: int) -> nat {
    le_value(s.subrange(from, to))
}

/// Bytes with a length of `width` bytes in front of them.
pub open spec fn spec_length_data(s: Seq<u8>, width: int) -> Result<
    (Seq<u8>, Seq<u8>),
    DecodeError,
> {
    if s.len() < width {
        Err(DecodeError::TruncatedRecord)
    } else {
        let n = number_at(s, 0, width) as int;
        if s.len() - width < n {
            Err(DecodeError::TruncatedRecord)
        } else {
            Ok((s.subrange(width, width + n), s.skip(width + n)))
        }
    }
}

/// Text with a four-byte length in front of it.
pub open spec fn spec_str(s: Seq<u8>) -> Result<(Seq<u8>, Seq<u8>), DecodeError> {
    match spec_length_data(s, 4) {
        Err(e) => Err(e),
        Ok((bytes, rest)) => if valid_utf8(bytes) {
            Ok((bytes, rest))
        } else {
            Err(DecodeError::InvalidUtf8)
        },
    }
}

/// Entry `i` of a region of ten-byte entries: a two-byte key and an
/// eight-byte value.
pub open spec fn counter_at(region: Seq<u8>, i: int) -> (u16, u64) {
    (number_at(region, 10 * i, 10 * i + 2) as u16, number_at(region, 10 * i + 2, 10 * i + 10) as u64)
}

/// A map from 16-bit keys to 64-bit values: a four-byte byte count, then
/// the entries, which must fill the region exactly. The entries come in
/// wire order; a key that occurs again overrides the earlier entry.
pub open spec fn spec_counter_map(s: Seq<u8>) -> Result<(Seq<(u16, u64)>, Seq<u8>), DecodeError> {
    match spec_length_data(s, 4) {
        Err(e) => Err(e),
        Ok((region, rest)) => if region.len() % 10 != 0 {
            Err(DecodeError::TruncatedRecord)
        } else {
            Ok((Seq::new(region.len() / 10, |i: int| counter_at(region, i)), rest))
        },
    }
}

/// Entry `i` of a region of sixteen-byte entries: two 64-bit numbers.
pub open spec fn pair_at(region: Seq<u8>, i: int) -> (u64, u64) {
    (number_at(region, 16 * i, 16 * i + 8) as u64, number_at(region, 16 * i + 8, 16 * i + 16) as u64)
}

/// An array of pairs of 64-bit numbers: a four-byte byte count, then the
/// pairs. Bytes of the region after the last whole pair are passed over.
pub open spec fn spec_pair_array(s: Seq<u8>) -> Result<(Seq<(u64, u64)>, Seq<u8>), DecodeError> {
    match spec_length_data(s, 4) {
        Err(e) => Err(e),
        Ok((region, rest)) => Ok(
            (Seq::new(region.len() / 16, |i: int| pair_at(region, i)), rest),
        ),
    }
}

/// `more` with the entries `done` put in front.
pub open spec fn prepend_pairs(
    done: Seq<(Seq<u8>, Seq<u8>)>,
    more: Result<Seq<(Seq<u8>, Seq<u8>)>, DecodeError>,
) -> Result<Seq<(Seq<u8>, Seq<u8>)>, DecodeError> {
    match more {
        Ok(m) => Ok(done + m),
        Err(e) => Err(e),
    }
}

/// Key and value texts back to back until the region is used up.
pub open spec fn spec_text_pairs(region: Seq<u8>) -> Result<Seq<(Seq<u8>, Seq<u8>)>, DecodeError>
    decreases region.len(),
{
    if region.len() == 0 {
        Ok(Seq::empty())
    } else {
        match spec_str(region) {
            Err(e) => Err(e),
            Ok((key, after_key)) => match spec_str(after_key) {
                Err(e) => Err(e),
                Ok((value, rest)) => if rest.len() < region.len() {
                    prepend_pairs(seq![(key, value)], spec_text_pairs(rest))
                } else {
                    Err(DecodeError::TruncatedRecord)
                },
            },
        }
    }
}

/// A map from text to text: a four-byte byte count, then the entries,
/// which must fill the region exactly. The entries come in wire order; a
/// key that occurs again overrides the earlier entry.
pub open spec fn spec_text_map(s: Seq<u8>) -> Result<
    (Seq<(Seq<u8>, Seq<u8>)>, Seq<u8>),
    DecodeError,
> {
    match spec_length_data(s, 4) {
        Err(e) => Err(e),
        Ok((region, rest)) => match spec_text_pairs(region) {
            Err(e) => Err(e),
            Ok(pairs) => Ok((pairs, rest)),
        },
    }
}

/// The UTF-8 bytes of each key and value of a run of entries, in order.
pub open spec fn pairs_view<'a>(ps: Seq<(&'a str, &'a str)>) -> Seq<(Seq<u8>, Seq<u8>)> {
    ps.map_values(|p: (&'a str, &'a str)| (p.0.spec_bytes(), p.1.spec_bytes()))
}

/// The input from `offset` on.
pub fn tail_from<'a>(input: &'a [u8], offset: usize) -> (r: &'a [u8])
    requires
        offset <= input@.len(),
    ensures
        r@ == input@.skip(offset as int),
{
    let r = slice_subrange(input, offset, input.len());
    assert(r@ =~= input@.skip(offset as int));
    r
}

/// The byte at `offset`.
pub fn u8_at(input: &[u8], offset: usize) -> (v: u8)
    requires
        offset + 1 <= input@.len(),
    ensures
        v == input@[offset as int],
{
    match read_u8(tail_from(input, offset)) {
        Some((_, v)) => v,
        None => 0,
    }
}

/// The 16-bit number at `offset`.
pub fn u16_at(input: &[u8], offset: usize) -> (v: u16)
    requires
        offset + 2 <= input@.len(),
    ensures
        v == number_at(input@, offset as int, offset + 2),
{
    assert(input@.skip(offset as int).subrange(0, 2) =~= input@.subrange(
        offset as int,
        offset + 2,
    ));
    match read_u16(tail_from(input, offset)) {
        Some((_, v)) => v,
        None => 0,
    }
}

/// The 32-bit number at `offset`.
pub fn u32_at(input: &[u8], offset: usize) -> (v: u32)
    requires
        offset + 4 <= input@.len(),
    ensures
        v == number_at(input@, offset as int, offset + 4),
{
    assert(input@.skip(offset as int).subrange(0, 4) =~= input@.subrange(
        offset as int,
        offset + 4,
    ));
    match read_u32(tail_from(input, offset)) {
        Some((_, v)) => v,
        None => 0,
    }
}

/// The 64-bit number at `offset`.
pub fn u64_at(input: &[u8], offset: usize) -> (v: u64)
    requires
        offset + 8 <= input@.len(),
    ensures
        v == number_at(input@, offset as int, offset + 8),
{
    assert(input@.skip(offset as int).subrange(0, 8) =~= input@.subrange(
        offset as int,
        offset + 8,
    ));
    match read_u64(tail_from(input, offset)) {
        Some((_, v)) => v,
        None => 0,
    }
}

/// Reads a four-byte length and hands out that many bytes.
pub fn parse_length_data32<'a>(input: &'a [u8]) -> (r: Result<(&'a [u8], &'a [u8]), DecodeError>)
    ensures
        decodes_to(r, spec_length_data(input@, 4)),
{
    let (after_len, n) = match read_u32(input) {
        Some(p) => p,
        None => {
            return Err(DecodeError::TruncatedRecord);
        },
    };
    match take_bytes(after_len, n as usize) {
        Some((rest, bytes)) => {
            assert(bytes@ =~= input@.subrange(4, 4 + n));
            assert(rest@ =~= input@.skip(4 + n));
            Ok((rest, bytes))
        },
        None => Err(DecodeError::TruncatedRecord),
    }
}

/// Reads an eight-byte length and hands out that many bytes.
pub fn parse_length_data64<'a>(input: &'a [u8]) -> (r: Result<(&'a [u8], &'a [u8]), DecodeError>)
    ensures
        decodes_to(r, spec_length_data(input@, 8)),
{
    let (after_len, n) = match read_u64(input) {
        Some(p) => p,
        None => {
            return Err(DecodeError::TruncatedRecord);
        },
    };
    if n > after_len.len() as u64 {
        return Err(DecodeError::TruncatedRecord);
    }
    match take_bytes(after_len, n as usize) {
        Some((rest, bytes)) => {
            assert(bytes@ =~= input@.subrange(8, 8 + n));
            assert(rest@ =~= input@.skip(8 + n));
            Ok((rest, bytes))
        },
        None => Err(DecodeError::TruncatedRecord),
    }
}

/// Reads text with a four-byte length in front of it.
pub fn parse_str<'a>(input: &'a [u8]) -> (r: Result<(&'a [u8], &'a str), DecodeError>)
    ensures
        decodes_to_text(r, spec_str(input@)),
{
    let (rest, bytes) = parse_length_data32(input)?;
    match utf8_text(bytes) {
        Some(text) => Ok((rest, text)),
        None => Err(DecodeError::InvalidUtf8),
    }
}

/// Reads a map from 16-bit keys to 64-bit values.
pub fn parse_map<'a>(input: &'a [u8]) -> (r: Result<(&'a [u8], Vec<(u16, u64)>), DecodeError>)
    ensures
        match spec_counter_map(input@) {
            Ok(e) => r matches Ok(p) && p.0@ == e.1 && p.1@ == e.0,
            Err(e) => fails_with(r, e),
        },
{
    let (rest, region) = parse_length_data32(input)?;
    if region.len() % 10 != 0 {
        return Err(DecodeError::TruncatedRecord);
    }
    let count = region.len() / 10;
    let mut out: Vec<(u16, u64)> = Vec::new();
    let mut k: usize = 0;
    while k < count
        invariant
            region@.len() == 10 * count,
            10 * count <= usize::MAX,
            k <= count,
            out@.len() == k,
            forall|j: int| 0 <= j < k ==> out@[j] == counter_at(region@, j),
        decreases count - k,
    {
        let key = u16_at(region, 10 * k);
        let value = u64_at(region, 10 * k + 2);
        out.push((key, value));
        k = k + 1;
    }
    assert(out@ =~= spec_counter_map(input@).unwrap().0);
    Ok((rest, out))
}

/// Reads an array of pairs of 64-bit numbers.
pub fn parse_array<'a>(input: &'a [u8]) -> (r: Result<(&'a [u8], Vec<(u64, u64)>), DecodeError>)
    ensures
        match spec_pair_array(input@) {
            Ok(e) => r matches Ok(p) && p.0@ == e.1 && p.1@ == e.0,
            Err(e) => fails_with(r, e),
        },
{
    let (rest, region) = parse_length_data32(input)?;
    let total = region.len();
    let count = total / 16;
    let mut out: Vec<(u64, u64)> = Vec::new();
    let mut k: usize = 0;
    while k < count
        invariant
            16 * count <= region@.len(),
            region@.len() <= usize::MAX,
            k <= count,
            out@.len() == k,
            forall|j: int| 0 <= j < k ==> out@[j] == pair_at(region@, j),
        decreases count - k,
    {
        let pair = parse_tuple(region, 16 * k);
        out.push(pair);
        k = k + 1;
    }
    assert(out@ =~= spec_pair_array(input@).unwrap().0);
    Ok((rest, out))
}

/// Reads the two 64-bit numbers at `offset`.
pub fn parse_tuple(input: &[u8], offset: usize) -> (r: (u64, u64))
    requires
        offset + 16 <= input@.len(),
    ensures
        r.0 == number_at(input@, offset as int, offset + 8),
        r.1 == number_at(input@, offset + 8, offset + 16),
{
    let total = input.len();
    (u64_at(input, offset), u64_at(input, offset + 8))
}

/// Reads a map from text to text.
pub fn parse_text_map<'a>(input: &'a [u8]) -> (r: Result<
    (&'a [u8], Vec<(&'a str, &'a str)>),
    DecodeError,
>)
    ensures
        match spec_text_map(input@) {
            Ok(e) => r matches Ok(p) && p.0@ == e.1 && pairs_view(p.1@) == e.0,
            Err(e) => fails_with(r, e),
        },
{
    let (rest, region) = parse_length_data32(input)?;
    let mut out: Vec<(&'a str, &'a str)> = Vec::new();
    let mut content = region;
    proof {
        let all = spec_text_pairs(region@);
        assert(pairs_view(out@) =~= Seq::<(Seq<u8>, Seq<u8>)>::empty());
        if all is Ok {
            assert(Seq::<(Seq<u8>, Seq<u8>)>::empty() + all.unwrap() =~= all.unwrap());
        }
    }
    while content.len() != 0
        invariant
            spec_length_data(input@, 4) == Ok::<(Seq<u8>, Seq<u8>), DecodeError>(
                (region@, rest@),
            ),
            spec_text_pairs(region@) == prepend_pairs(
                pairs_view(out@),
                spec_text_pairs(content@),
            ),
        decreases content@.len(),
    {
        let (after_key, key) = parse_str(content)?;
        let (after_value, value) = parse_str(after_key)?;
        proof {
            let done = pairs_view(out@);
            let entry = (key.spec_bytes(), value.spec_bytes());
            assert(pairs_view(out@.push((key, value))) =~= done.push(entry));
            match spec_text_pairs(after_value@) {
                Ok(more) => {
                    assert(done + (seq![entry] + more) =~= done.push(entry) + more);
                },
                Err(_) => {},
            }
        }
        out.push((key, value));
        content = after_value;
    }
    proof {
        assert(pairs_view(out@) + Seq::<(Seq<u8>, Seq<u8>)>::empty() =~= pairs_view(out@));
    }
    Ok((rest, out))
}

/// The value that a 16-bit key maps to: that of its last entry.
pub open spec fn counter_lookup(entries: Seq<(u16, u64)>, key: u16) -> Option<u64>
    decreases entries.len(),
{
    if entries.len() == 0 {
        None
    } else if entries.last().0 == key {
        Some(entries.last().1)
    } else {
        counter_lookup(entries.drop_last(), key)
    }
}

/// The value that a text key (as UTF-8 bytes) maps to: that of its last
/// entry.
pub open spec fn text_lookup(entries: Seq<(Seq<u8>, Seq<u8>)>, key: Seq<u8>) -> Option<Seq<u8>>
    decreases entries.len(),
{
    if entries.len() == 0 {
        None
    } else if entries.last().0 == key {
        Some(entries.last().1)
    } else {
        text_lookup(entries.drop_last(), key)
    }
}

/// Looks a 16-bit key up in the entries of a map.
pub fn find_counter(entries: &Vec<(u16, u64)>, key: u16) -> (r: Option<u64>)
    ensures
        r == counter_lookup(entries@, key),
{
    let mut i: usize = entries.len();
    assert(entries@.take(i as int) =~= entries@);
    while i > 0
        invariant
            i <= entries@.len(),
            counter_lookup(entries@, key) == counter_lookup(entries@.take(i as int), key),
        decreases i,
    {
        i = i - 1;
        proof {
            let seen = entries@.take(i + 1);
            assert(seen.drop_last() =~= entries@.take(i as int));
            assert(seen.last() == entries@[i as int]);
        }
        let entry = entries[i];
        if entry.0 == key {
            return Some(entry.1);
        }
    }
    None
}

/// Looks a text key up in the entries of a map.
pub fn find_text<'a>(entries: &Vec<(&'a str, &'a str)>, key: &str) -> (r: Option<&'a str>)
    ensures
        match text_lookup(pairs_view(entries@), key.spec_bytes()) {
            Some(value) => r matches Some(v) && v.spec_bytes() == value,
            None => r is None,
        },
{
    let ghost all = pairs_view(entries@);
    let mut i: usize = entries.len();
    assert(all.take(i as int) =~= all);
    while i > 0
        invariant
            i <= entries@.len(),
            all == pairs_view(entries@),
            text_lookup(all, key.spec_bytes()) == text_lookup(all.take(i as int), key.spec_bytes()),
        decreases i,
    {
        i = i - 1;
        proof {
            let seen = all.take(i + 1);
            assert(seen.drop_last() =~= all.take(i as int));
            assert(seen.last() == all[i as int]);
        }
        let entry = entries[i];
        if crate::types::bytes_eq(entry.0.as_bytes(), key.as_bytes()) {
            return Some(entry.1);
        }
    }
    None
}

} // verus!
