//! Little-endian integers and the primitive byte readers.
//!
//! The readers are thin shells around `nom`'s complete-input parsers on
//! `&[u8]`; their contracts are taken on trust from nom's source.

use vstd::prelude::*;
use vstd::string::*;
use vstd::utf8::*;

verus! {

/// The number that the bytes of `s` spell, least significant byte first.
pub open spec fn le_value(s: Seq<u8>) -> nat
    decreases s.len(),
{
    if s.len() == 0 {
        0
    } else {
        s[0] as nat + 256 * le_value(s.skip(1))
    }
}

/// The `n` low bytes of `v`, least significant first.
pub open spec fn le_bytes(v: nat, n: nat) -> Seq<u8>
    decreases n,
{
    if n == 0 {
        Seq::empty()
    } else {
        seq![(v % 256) as u8] + le_bytes(v / 256, (n - 1) as nat)
    }
}

/// 256 to the power `n`.
pub open spec fn pow256(n: nat) -> nat
    decreases n,
{
    if n == 0 {
        1
    } else {
        256 * pow256((n - 1) as nat)
    }
}

/// The signed 64-bit number whose two's-complement bit pattern is `n`.
pub open spec fn signed64(n: nat) -> int {
    if n < 0x8000_0000_0000_0000 {
        n as int
    } else {
        n - 0x1_0000_0000_0000_0000
    }
}

/// `s` begins with `prefix`.
pub open spec fn starts_with(s: Seq<u8>, prefix: Seq<u8>) -> bool {
    prefix.len() <= s.len() && s.subrange(0, prefix.len() as int) == prefix
}

/// The powers of 256 that fit the integer types.
pub proof fn lemma_pow256_values()
    ensures
        pow256(0) == 1,
        pow256(1) == 0x100,
        pow256(2) == 0x1_0000,
        pow256(3) == 0x100_0000,
        pow256(4) == 0x1_0000_0000,
        pow256(5) == 0x100_0000_0000,
        pow256(6) == 0x1_0000_0000_0000,
        pow256(7) == 0x100_0000_0000_0000,
        pow256(8) == 0x1_0000_0000_0000_0000,
{
    reveal_with_fuel(pow256, 10);
}

/// A value spelled by `n` bytes is below 256^n.
pub proof fn lemma_le_value_bound(s: Seq<u8>)
    ensures
        le_value(s) < pow256(s.len()),
    decreases s.len(),
{
    if s.len() > 0 {
        lemma_le_value_bound(s.skip(1));
    }
}

/// Appending a byte adds it at the next power of 256.
pub proof fn lemma_le_value_push(s: Seq<u8>, b: u8)
    ensures
        le_value(s.push(b)) == le_value(s) + b * pow256(s.len()),
    decreases s.len(),
{
    let e = s.push(b);
    if s.len() == 0 {
        assert(e.skip(1) =~= Seq::<u8>::empty());
        assert(le_value(e) == b as nat + 256 * le_value(e.skip(1)));
        assert(le_value(s) == 0);
        assert(pow256(0) == 1);
    } else {
        assert(e.skip(1) =~= s.skip(1).push(b));
        lemma_le_value_push(s.skip(1), b);
        let p = pow256((s.len() - 1) as nat);
        let t = le_value(s.skip(1));
        assert(256 * (t + b * p) == 256 * t + b * (256 * p)) by (nonlinear_arith);
        assert(pow256(s.len()) == 256 * p);
        assert(le_value(e) == e[0] as nat + 256 * le_value(e.skip(1)));
        assert(le_value(s) == s[0] as nat + 256 * t);
    }
}

/// Reading back the bytes of a number that fits gives the number.
pub proof fn lemma_le_bytes_value(v: nat, n: nat)
    requires
        v < pow256(n),
    ensures
        le_bytes(v, n).len() == n,
        le_value(le_bytes(v, n)) == v,
    decreases n,
{
    if n > 0 {
        let m = (n - 1) as nat;
        assert(v / 256 < pow256(m)) by (nonlinear_arith)
            requires
                v < 256 * pow256(m),
        ;
        lemma_le_bytes_value(v / 256, m);
        let s = le_bytes(v, n);
        assert(s.skip(1) =~= le_bytes(v / 256, m));
        assert(s[0] == (v % 256) as u8);
    }
}

/// Calls `nom::number::complete::le_u8`. On empty input nom reports an
/// error; otherwise it hands back the first byte and the input after it.
#[verifier::external_body]
pub(crate) fn read_u8<'a>(input: &'a [u8]) -> (r: Option<(&'a [u8], u8)>)
    ensures
        r is Some <==> input@.len() >= 1,
        r is Some ==> r.unwrap().0@ == input@.skip(1) && r.unwrap().1 == input@[0],
{
    match nom::number::complete::le_u8::<&[u8], nom::error::Error<&[u8]>>(input) {
        Ok((rest, v)) => Some((rest, v)),
        Err(_) => None,
    }
}

/// Calls `nom::number::complete::le_u16`. With fewer than two bytes nom
/// reports an error; otherwise it folds the first two bytes, least
/// significant first, and hands back the input after them.
#[verifier::external_body]
pub(crate) fn read_u16<'a>(input: &'a [u8]) -> (r: Option<(&'a [u8], u16)>)
    ensures
        r is Some <==> input@.len() >= 2,
        r is Some ==> r.unwrap().0@ == input@.skip(2) && r.unwrap().1 == le_value(
            input@.subrange(0, 2),
        ),
{
    match nom::number::complete::le_u16::<&[u8], nom::error::Error<&[u8]>>(input) {
        Ok((rest, v)) => Some((rest, v)),
        Err(_) => None,
    }
}

/// Calls `nom::number::complete::le_u32`. With fewer than four bytes nom
/// reports an error; otherwise it folds the first four bytes, least
/// significant first, and hands back the input after them.
#[verifier::external_body]
pub(crate) fn read_u32<'a>(input: &'a [u8]) -> (r: Option<(&'a [u8], u32)>)
    ensures
        r is Some <==> input@.len() >= 4,
        r is Some ==> r.unwrap().0@ == input@.skip(4) && r.unwrap().1 == le_value(
            input@.subrange(0, 4),
        ),
{
    match nom::number::complete::le_u32::<&[u8], nom::error::Error<&[u8]>>(input) {
        Ok((rest, v)) => Some((rest, v)),
        Err(_) => None,
    }
}

/// Calls `nom::number::complete::le_u64`. With fewer than eight bytes nom
/// reports an error; otherwise it folds the first eight bytes, least
/// significant first, and hands back the input after them.
#[verifier::external_body]
pub(crate) fn read_u64<'a>(input: &'a [u8]) -> (r: Option<(&'a [u8], u64)>)
    ensures
        r is Some <==> input@.len() >= 8,
        r is Some ==> r.unwrap().0@ == input@.skip(8) && r.unwrap().1 == le_value(
            input@.subrange(0, 8),
        ),
{
    match nom::number::complete::le_u64::<&[u8], nom::error::Error<&[u8]>>(input) {
        Ok((rest, v)) => Some((rest, v)),
        Err(_) => None,
    }
}

/// Calls `nom::number::complete::le_i64`, which is nom's `le_u64` with the
/// result reinterpreted as a two's-complement signed number.
#[verifier::external_body]
pub(crate) fn read_i64<'a>(input: &'a [u8]) -> (r: Option<(&'a [u8], i64)>)
    ensures
        r is Some <==> input@.len() >= 8,
        r is Some ==> r.unwrap().0@ == input@.skip(8) && r.unwrap().1 == signed64(
            le_value(input@.subrange(0, 8)),
        ),
{
    match nom::number::complete::le_i64::<&[u8], nom::error::Error<&[u8]>>(input) {
        Ok((rest, v)) => Some((rest, v)),
        Err(_) => None,
    }
}

/// Calls `nom::bytes::complete::take`. When the input is shorter than
/// `count` nom reports an error; otherwise it splits the input at `count`.
/// The pair is (what follows, what was taken), in nom's order.
#[verifier::external_body]
pub(crate) fn take_bytes<'a>(input: &'a [u8], count: usize) -> (r: Option<(&'a [u8], &'a [u8])>)
    ensures
        r is Some <==> input@.len() >= count,
        r is Some ==> r.unwrap().0@ == input@.skip(count as int) && r.unwrap().1@
            == input@.subrange(0, count as int),
{
    match nom::bytes::complete::take::<usize, &[u8], nom::error::Error<&[u8]>>(count)(input) {
        Ok((rest, taken)) => Some((rest, taken)),
        Err(_) => None,
    }
}

/// Calls `nom::bytes::complete::tag`. nom accepts exactly when the input
/// begins with `tag`, and then hands back the input after it.
#[verifier::external_body]
pub(crate) fn match_tag<'a>(input: &'a [u8], tag: &[u8]) -> (r: Option<&'a [u8]>)
    ensures
        r is Some <==> starts_with(input@, tag@),
        r is Some ==> r.unwrap()@ == input@.skip(tag@.len() as int),
{
    match nom::bytes::complete::tag::<&[u8], &[u8], nom::error::Error<&[u8]>>(tag)(input) {
        Ok((rest, _)) => Some(rest),
        Err(_) => None,
    }
}

/// Calls `std::str::from_utf8`, which accepts exactly the well-formed
/// UTF-8 byte strings and returns a `str` over the same bytes.
#[verifier::external_body]
pub(crate) fn utf8_text<'a>(bytes: &'a [u8]) -> (r: Option<&'a str>)
    ensures
        r is Some <==> valid_utf8(bytes@),
        r is Some ==> r.unwrap().spec_bytes() == bytes@,
{
    match std::str::from_utf8(bytes) {
        Ok(s) => Some(s),
        Err(_) => None,
    }
}

} // verus!
