//! The binary snapshot format.
//!
//! A snapshot is the entry count as eight little-endian bytes, followed by the
//! entries in order. Each entry is its key followed by its value, and each of
//! those is its UTF-8 byte length as eight little-endian bytes followed by the
//! UTF-8 bytes themselves. Decoding the encoding of any entry sequence yields
//! that sequence back, and a zero-length buffer never decodes.

use vstd::prelude::*;
use vstd::bytes::{
    lemma_auto_spec_u64_to_from_le_bytes, spec_u64_from_le_bytes, spec_u64_to_le_bytes,
    u64_from_le_bytes, u64_to_le_bytes,
};
use vstd::slice::{slice_subrange, slice_to_vec};
use vstd::utf8::{
    decode_utf8, decode_utf8_encode_utf8, encode_utf8, encode_utf8_decode_utf8,
    encode_utf8_valid_utf8, valid_utf8,
};

verus! {

/// Decoding failed: the buffer is empty, truncated, or otherwise malformed.
#[derive(Clone, Copy, Debug)]
pub struct DecodeError;

/// The text's UTF-8 byte length fits the 64-bit length field of the format.
/// Every text held in actual memory satisfies this.
pub open spec fn text_fits(s: Seq<char>) -> bool {
    encode_utf8(s).len() <= u64::MAX
}

/// Every key and value of the entry sequence fits its length field, and the
/// entry count fits the count field.
pub open spec fn entries_fit(e: Seq<(Seq<char>, Seq<char>)>) -> bool {
    &&& e.len() <= u64::MAX
    &&& forall|i: int| 0 <= i < e.len() ==> text_fits(#[trigger] e[i].0) && text_fits(e[i].1)
}

/// Encoding of one text: length field, then UTF-8 bytes.
pub open spec fn spec_encode_text(s: Seq<char>) -> Seq<u8> {
    spec_u64_to_le_bytes(encode_utf8(s).len() as u64) + encode_utf8(s)
}

/// Encoding of one entry: key, then value.
pub open spec fn spec_encode_entry(p: (Seq<char>, Seq<char>)) -> Seq<u8> {
    spec_encode_text(p.0) + spec_encode_text(p.1)
}

/// Encoding of the entries in order.
pub open spec fn spec_encode_entries(e: Seq<(Seq<char>, Seq<char>)>) -> Seq<u8>
    decreases e.len(),
{
    if e.len() == 0 {
        Seq::empty()
    } else {
        spec_encode_entry(e.first()) + spec_encode_entries(e.drop_first())
    }
}

/// Encoding of a whole entry sequence: count field, then the entries.
pub open spec fn spec_encode(e: Seq<(Seq<char>, Seq<char>)>) -> Seq<u8> {
    spec_u64_to_le_bytes(e.len() as u64) + spec_encode_entries(e)
}

/// Decoding of one text from the front of `b`: the decoded characters and the
/// remaining bytes, or nothing if `b` is truncated or not valid UTF-8.
pub open spec fn spec_decode_text(b: Seq<u8>) -> Option<(Seq<char>, Seq<u8>)> {
    if b.len() < 8 {
        None
    } else {
        let n = spec_u64_from_le_bytes(b.take(8)) as int;
        if b.len() - 8 < n {
            None
        } else {
            let tb = b.subrange(8, 8 + n);
            if valid_utf8(tb) {
                Some((decode_utf8(tb), b.skip(8 + n)))
            } else {
                None
            }
        }
    }
}

/// Decoding of exactly `n` entries that must consume all of `b`.
pub open spec fn spec_decode_entries(b: Seq<u8>, n: nat) -> Option<Seq<(Seq<char>, Seq<char>)>>
    decreases n,
{
    if n == 0 {
        if b.len() == 0 {
            Some(Seq::empty())
        } else {
            None
        }
    } else {
        match spec_decode_text(b) {
            None => None,
            Some((k, r1)) => match spec_decode_text(r1) {
                None => None,
                Some((v, r2)) => match spec_decode_entries(r2, (n - 1) as nat) {
                    None => None,
                    Some(e) => Some(seq![(k, v)] + e),
                },
            },
        }
    }
}

/// Decoding of a whole snapshot buffer.
pub open spec fn spec_decode(b: Seq<u8>) -> Option<Seq<(Seq<char>, Seq<char>)>> {
    if b.len() < 8 {
        None
    } else {
        spec_decode_entries(b.skip(8), spec_u64_from_le_bytes(b.take(8)) as nat)
    }
}

proof fn lemma_decode_text_of_encode(s: Seq<char>, rest: Seq<u8>)
    requires
        text_fits(s),
    ensures
        spec_decode_text(spec_encode_text(s) + rest) == Some((s, rest)),
{
    lemma_auto_spec_u64_to_from_le_bytes();
    broadcast use encode_utf8_valid_utf8;
    broadcast use encode_utf8_decode_utf8;

    let sb = encode_utf8(s);
    let b = spec_encode_text(s) + rest;
    assert(b.take(8) =~= spec_u64_to_le_bytes(sb.len() as u64));
    assert(b.len() - 8 >= sb.len());
    assert(b.subrange(8, 8 + sb.len() as int) =~= sb);
    assert(b.skip(8 + sb.len() as int) =~= rest);
}

proof fn lemma_decode_entries_of_encode(e: Seq<(Seq<char>, Seq<char>)>)
    requires
        forall|i: int| 0 <= i < e.len() ==> text_fits(#[trigger] e[i].0) && text_fits(e[i].1),
    ensures
        spec_decode_entries(spec_encode_entries(e), e.len()) == Some(e),
    decreases e.len(),
{
    if e.len() == 0 {
        assert(spec_encode_entries(e).len() == 0);
        assert(Seq::<(Seq<char>, Seq<char>)>::empty() =~= e);
    } else {
        let p = e.first();
        let tail = spec_encode_entries(e.drop_first());
        let b = spec_encode_entries(e);
        assert(b =~= spec_encode_text(p.0) + (spec_encode_text(p.1) + tail));
        lemma_decode_text_of_encode(p.0, spec_encode_text(p.1) + tail);
        lemma_decode_text_of_encode(p.1, tail);
        lemma_decode_entries_of_encode(e.drop_first());
        assert(seq![(p.0, p.1)] + e.drop_first() =~= e);
    }
}

/// Round-trip fidelity of the snapshot format: decoding the encoding of any
/// entry sequence that fits the format's length fields yields exactly that
/// sequence.
pub proof fn lemma_encode_decode(e: Seq<(Seq<char>, Seq<char>)>)
    requires
        entries_fit(e),
    ensures
        spec_decode(spec_encode(e)) == Some(e),
{
    lemma_auto_spec_u64_to_from_le_bytes();
    let b = spec_encode(e);
    assert(b.take(8) =~= spec_u64_to_le_bytes(e.len() as u64));
    assert(b.skip(8) =~= spec_encode_entries(e));
    lemma_decode_entries_of_encode(e);
}

/// Relies on `String::from_utf8`: it succeeds exactly on valid UTF-8 input and
/// returns the string those bytes encode.
#[verifier::external_body]
fn string_from_utf8(bytes: Vec<u8>) -> (r: Option<String>)
    ensures
        r is Some <==> valid_utf8(bytes@),
        r matches Some(s) ==> s@ == decode_utf8(bytes@),
{
    String::from_utf8(bytes).ok()
}

/// Appends the encoding of one text to `buf`.
pub(crate) fn append_text(buf: &mut Vec<u8>, s: &String)
    ensures
        final(buf)@ == old(buf)@ + spec_encode_text(s@),
        text_fits(s@),
{
    let bytes: &[u8] = s.as_str().as_bytes();
    let mut len_bytes = u64_to_le_bytes(bytes.len() as u64);
    buf.append(&mut len_bytes);
    let mut text_bytes = slice_to_vec(bytes);
    buf.append(&mut text_bytes);
}

/// Decodes one text starting at `pos`, returning it with the position of the
/// byte that follows it.
pub(crate) fn read_text(bytes: &[u8], pos: usize) -> (r: Result<(String, usize), DecodeError>)
    requires
        pos <= bytes@.len(),
    ensures
        match r {
            Ok(p) => {
                &&& spec_decode_text(bytes@.skip(pos as int)) == Some(
                    (p.0@, bytes@.skip(p.1 as int)),
                )
                &&& pos <= p.1 <= bytes@.len()
                &&& text_fits(p.0@)
            },
            Err(_) => spec_decode_text(bytes@.skip(pos as int)) is None,
        },
{
    proof {
        lemma_auto_spec_u64_to_from_le_bytes();
        broadcast use decode_utf8_encode_utf8;

    }
    let ghost b = bytes@.skip(pos as int);
    if bytes.len() - pos < 8 {
        return Err(DecodeError);
    }
    let len_bytes = slice_subrange(bytes, pos, pos + 8);
    assert(len_bytes@ =~= b.take(8));
    let text_len = u64_from_le_bytes(len_bytes);
    let remaining = bytes.len() - pos - 8;
    if text_len > remaining as u64 {
        return Err(DecodeError);
    }
    let n = text_len as usize;
    let text_bytes = slice_subrange(bytes, pos + 8, pos + 8 + n);
    assert(text_bytes@ =~= b.subrange(8, 8 + n as int));
    let text_vec = slice_to_vec(text_bytes);
    match string_from_utf8(text_vec) {
        Some(s) => {
            let newpos = pos + 8 + n;
            assert(bytes@.skip(newpos as int) =~= b.skip(8 + n as int));
            Ok((s, newpos))
        },
        None => Err(DecodeError),
    }
}

} // verus!
