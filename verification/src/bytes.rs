//! Binary primitives shared by every storage table: fixed-width
//! little-endian integers and length-prefixed UTF-8 strings.
//!
//! Each exec reader is matched by a spec-level reader over the byte
//! sequence, so decoders can be characterized exactly, and each encoding
//! has an inversion lemma showing the spec reader recovers the value.

use vstd::prelude::*;
use vstd::bytes::*;
use vstd::utf8::*;
use vstd::slice::{slice_index_get, slice_subrange, slice_to_vec};
use crate::AconfigStorageError;

verus! {

// ---------------------------------------------------------------------------
// Spec-level readers. Each returns the value read and the next position,
// or `None` when the read would run past the end of the buffer.
// ---------------------------------------------------------------------------

pub open spec fn spec_read_u8(buf: Seq<u8>, pos: int) -> Option<(u8, int)> {
    if 0 <= pos && pos + 1 <= buf.len() {
        Some((buf[pos], pos + 1))
    } else {
        None
    }
}

pub open spec fn spec_read_u16(buf: Seq<u8>, pos: int) -> Option<(u16, int)> {
    if 0 <= pos && pos + 2 <= buf.len() {
        Some((spec_u16_from_le_bytes(buf.subrange(pos, pos + 2)), pos + 2))
    } else {
        None
    }
}

pub open spec fn spec_read_u32(buf: Seq<u8>, pos: int) -> Option<(u32, int)> {
    if 0 <= pos && pos + 4 <= buf.len() {
        Some((spec_u32_from_le_bytes(buf.subrange(pos, pos + 4)), pos + 4))
    } else {
        None
    }
}

pub open spec fn spec_read_u64(buf: Seq<u8>, pos: int) -> Option<(u64, int)> {
    if 0 <= pos && pos + 8 <= buf.len() {
        Some((spec_u64_from_le_bytes(buf.subrange(pos, pos + 8)), pos + 8))
    } else {
        None
    }
}

/// Reads a u32 length followed by that many bytes of UTF-8.
pub open spec fn spec_read_str(buf: Seq<u8>, pos: int) -> Option<(Seq<char>, int)> {
    match spec_read_u32(buf, pos) {
        None => None,
        Some((n, p)) => {
            if p + n <= buf.len() && valid_utf8(buf.subrange(p, p + n)) {
                Some((decode_utf8(buf.subrange(p, p + n)), p + n))
            } else {
                None
            }
        },
    }
}

// ---------------------------------------------------------------------------
// Spec-level encoders.
// ---------------------------------------------------------------------------

/// The length-prefixed UTF-8 encoding of a string.
pub open spec fn spec_str_bytes(s: Seq<char>) -> Seq<u8> {
    spec_u32_to_le_bytes(encode_utf8(s).len() as u32) + encode_utf8(s)
}

/// The string's UTF-8 form fits the u32 length prefix.
pub open spec fn str_bytes_wf(s: Seq<char>) -> bool {
    encode_utf8(s).len() <= u32::MAX
}

// ---------------------------------------------------------------------------
// Exec readers, each exactly matching its spec-level reader.
// ---------------------------------------------------------------------------

pub fn read_u8_from_bytes(buf: &[u8], head: &mut usize) -> (r: Result<u8, AconfigStorageError>)
    ensures
        match spec_read_u8(buf@, *old(head) as int) {
            Some(vp) => r == Ok::<u8, AconfigStorageError>(vp.0) && *final(head) == vp.1,
            None => r == Err::<u8, AconfigStorageError>(AconfigStorageError::BytesParseFail)
                && *final(head) == *old(head),
        },
{
    if *head < buf.len() {
        let v: u8 = *slice_index_get(buf, *head);
        *head = *head + 1;
        Ok(v)
    } else {
        Err(AconfigStorageError::BytesParseFail)
    }
}

pub fn read_u16_from_bytes(buf: &[u8], head: &mut usize) -> (r: Result<u16, AconfigStorageError>)
    ensures
        match spec_read_u16(buf@, *old(head) as int) {
            Some(vp) => r == Ok::<u16, AconfigStorageError>(vp.0) && *final(head) == vp.1,
            None => r == Err::<u16, AconfigStorageError>(AconfigStorageError::BytesParseFail)
                && *final(head) == *old(head),
        },
{
    if buf.len() >= 2 && *head <= buf.len() - 2 {
        let s = slice_subrange(buf, *head, *head + 2);
        let v = u16_from_le_bytes(s);
        *head = *head + 2;
        Ok(v)
    } else {
        Err(AconfigStorageError::BytesParseFail)
    }
}

pub fn read_u32_from_bytes(buf: &[u8], head: &mut usize) -> (r: Result<u32, AconfigStorageError>)
    ensures
        match spec_read_u32(buf@, *old(head) as int) {
            Some(vp) => r == Ok::<u32, AconfigStorageError>(vp.0) && *final(head) == vp.1,
            None => r == Err::<u32, AconfigStorageError>(AconfigStorageError::BytesParseFail)
                && *final(head) == *old(head),
        },
{
    if buf.len() >= 4 && *head <= buf.len() - 4 {
        let s = slice_subrange(buf, *head, *head + 4);
        let v = u32_from_le_bytes(s);
        *head = *head + 4;
        Ok(v)
    } else {
        Err(AconfigStorageError::BytesParseFail)
    }
}

pub fn read_u64_from_bytes(buf: &[u8], head: &mut usize) -> (r: Result<u64, AconfigStorageError>)
    ensures
        match spec_read_u64(buf@, *old(head) as int) {
            Some(vp) => r == Ok::<u64, AconfigStorageError>(vp.0) && *final(head) == vp.1,
            None => r == Err::<u64, AconfigStorageError>(AconfigStorageError::BytesParseFail)
                && *final(head) == *old(head),
        },
{
    if buf.len() >= 8 && *head <= buf.len() - 8 {
        let s = slice_subrange(buf, *head, *head + 8);
        let v = u64_from_le_bytes(s);
        *head = *head + 8;
        Ok(v)
    } else {
        Err(AconfigStorageError::BytesParseFail)
    }
}

/// Relies on String::from_utf8: it returns Ok exactly when the bytes are
/// valid UTF-8, and the returned string is their decoding.
#[verifier::external_body]
pub(crate) fn string_from_utf8(bytes: Vec<u8>) -> (r: Option<String>)
    ensures
        r is Some <==> valid_utf8(bytes@),
        r matches Some(s) ==> s@ == decode_utf8(bytes@),
{
    String::from_utf8(bytes).ok()
}

pub fn read_str_from_bytes(buf: &[u8], head: &mut usize) -> (r: Result<
    String,
    AconfigStorageError,
>)
    ensures
        match spec_read_str(buf@, *old(head) as int) {
            Some(vp) => r matches Ok(s) && s@ == vp.0 && *final(head) == vp.1,
            None => r == Err::<String, AconfigStorageError>(AconfigStorageError::BytesParseFail)
                && *final(head) == *old(head),
        },
{
    let saved: usize = *head;
    let n = match read_u32_from_bytes(buf, head) {
        Ok(v) => v,
        Err(e) => {
            return Err(e);
        },
    };
    let n_us = n as usize;
    if n_us <= buf.len() - *head {
        let s = slice_subrange(buf, *head, *head + n_us);
        let v = slice_to_vec(s);
        match string_from_utf8(v) {
            Some(st) => {
                *head = *head + n_us;
                Ok(st)
            },
            None => {
                *head = saved;
                Err(AconfigStorageError::BytesParseFail)
            },
        }
    } else {
        *head = saved;
        Err(AconfigStorageError::BytesParseFail)
    }
}

// ---------------------------------------------------------------------------
// Exec writers.
// ---------------------------------------------------------------------------

pub fn push_u8(out: &mut Vec<u8>, v: u8)
    ensures
        final(out)@ == old(out)@ + seq![v],
{
    out.push(v);
    proof {
        assert(out@ =~= old(out)@ + seq![v]);
    }
}

pub fn push_u16_le(out: &mut Vec<u8>, v: u16)
    ensures
        final(out)@ == old(out)@ + spec_u16_to_le_bytes(v),
{
    let mut b = u16_to_le_bytes(v);
    out.append(&mut b);
}

pub fn push_u32_le(out: &mut Vec<u8>, v: u32)
    ensures
        final(out)@ == old(out)@ + spec_u32_to_le_bytes(v),
{
    let mut b = u32_to_le_bytes(v);
    out.append(&mut b);
}

pub fn push_u64_le(out: &mut Vec<u8>, v: u64)
    ensures
        final(out)@ == old(out)@ + spec_u64_to_le_bytes(v),
{
    let mut b = u64_to_le_bytes(v);
    out.append(&mut b);
}

pub fn push_str_bytes(out: &mut Vec<u8>, s: &str)
    requires
        str_bytes_wf(s@),
    ensures
        final(out)@ == old(out)@ + spec_str_bytes(s@),
{
    let b = s.as_bytes();
    push_u32_le(out, b.len() as u32);
    let mut v = slice_to_vec(b);
    out.append(&mut v);
    proof {
        assert(out@ =~= old(out)@ + spec_str_bytes(s@));
    }
}

// ---------------------------------------------------------------------------
// Inversion lemmas: a spec reader applied at the position of an encoding
// recovers the encoded value.
// ---------------------------------------------------------------------------

/// A character encodes to at most four bytes, so any string short of a
/// quarter of the u32 range fits the length prefix.
pub proof fn lemma_encode_utf8_len_bound(s: Seq<char>)
    ensures
        encode_utf8(s).len() <= 4 * s.len(),
    decreases s.len(),
{
    if s.len() > 0 {
        lemma_encode_utf8_len_bound(s.drop_first());
    }
}

pub proof fn lemma_u16_le_len(v: u16)
    ensures
        spec_u16_to_le_bytes(v).len() == 2,
{
    lemma_auto_spec_u16_to_from_le_bytes();
}

pub proof fn lemma_u32_le_len(v: u32)
    ensures
        spec_u32_to_le_bytes(v).len() == 4,
{
    lemma_auto_spec_u32_to_from_le_bytes();
}

pub proof fn lemma_u64_le_len(v: u64)
    ensures
        spec_u64_to_le_bytes(v).len() == 8,
{
    lemma_auto_spec_u64_to_from_le_bytes();
}

pub proof fn lemma_str_bytes_len(s: Seq<char>)
    ensures
        spec_str_bytes(s).len() == 4 + encode_utf8(s).len(),
{
    lemma_u32_le_len(encode_utf8(s).len() as u32);
}

/// A subrange of a matching region equals the corresponding subrange of
/// the encoding it matches.
pub proof fn lemma_subrange_of_matching(buf: Seq<u8>, pos: int, full: Seq<u8>, lo: int, hi: int)
    requires
        0 <= pos,
        pos + full.len() <= buf.len(),
        buf.subrange(pos, pos + full.len()) == full,
        0 <= lo <= hi <= full.len(),
    ensures
        buf.subrange(pos + lo, pos + hi) =~= full.subrange(lo, hi),
{
    assert forall|i: int| 0 <= i < hi - lo implies buf.subrange(pos + lo, pos + hi)[i]
        == full.subrange(lo, hi)[i] by {
        assert(buf.subrange(pos, pos + full.len())[lo + i] == full[lo + i]);
    }
}

pub proof fn lemma_read_u8_of_encoding(buf: Seq<u8>, pos: int, v: u8)
    requires
        0 <= pos,
        pos + 1 <= buf.len(),
        buf.subrange(pos, pos + 1) == seq![v],
    ensures
        spec_read_u8(buf, pos) == Some((v, pos + 1)),
{
    assert(buf[pos] == buf.subrange(pos, pos + 1)[0]);
}

pub proof fn lemma_read_u16_of_encoding(buf: Seq<u8>, pos: int, v: u16)
    requires
        0 <= pos,
        pos + 2 <= buf.len(),
        buf.subrange(pos, pos + 2) == spec_u16_to_le_bytes(v),
    ensures
        spec_read_u16(buf, pos) == Some((v, pos + 2)),
{
    lemma_auto_spec_u16_to_from_le_bytes();
    assert(spec_u16_to_le_bytes(v).len() == 2);
    assert(spec_u16_from_le_bytes(buf.subrange(pos, pos + 2)) == v);
}

pub proof fn lemma_read_u32_of_encoding(buf: Seq<u8>, pos: int, v: u32)
    requires
        0 <= pos,
        pos + 4 <= buf.len(),
        buf.subrange(pos, pos + 4) == spec_u32_to_le_bytes(v),
    ensures
        spec_read_u32(buf, pos) == Some((v, pos + 4)),
{
    lemma_auto_spec_u32_to_from_le_bytes();
    assert(spec_u32_to_le_bytes(v).len() == 4);
    assert(spec_u32_from_le_bytes(buf.subrange(pos, pos + 4)) == v);
}

pub proof fn lemma_read_u64_of_encoding(buf: Seq<u8>, pos: int, v: u64)
    requires
        0 <= pos,
        pos + 8 <= buf.len(),
        buf.subrange(pos, pos + 8) == spec_u64_to_le_bytes(v),
    ensures
        spec_read_u64(buf, pos) == Some((v, pos + 8)),
{
    lemma_auto_spec_u64_to_from_le_bytes();
    assert(spec_u64_to_le_bytes(v).len() == 8);
    assert(spec_u64_from_le_bytes(buf.subrange(pos, pos + 8)) == v);
}

pub proof fn lemma_read_str_of_encoding(buf: Seq<u8>, pos: int, s: Seq<char>)
    requires
        0 <= pos,
        str_bytes_wf(s),
        pos + spec_str_bytes(s).len() <= buf.len(),
        buf.subrange(pos, pos + spec_str_bytes(s).len()) == spec_str_bytes(s),
    ensures
        spec_read_str(buf, pos) == Some((s, pos + spec_str_bytes(s).len())),
{
    let e = encode_utf8(s);
    let full = spec_str_bytes(s);
    lemma_auto_spec_u32_to_from_le_bytes();
    assert(spec_u32_to_le_bytes(e.len() as u32).len() == 4);
    assert(full.len() == 4 + e.len());
    lemma_subrange_of_matching(buf, pos, full, 0, 4);
    assert(full.subrange(0, 4) =~= spec_u32_to_le_bytes(e.len() as u32));
    lemma_read_u32_of_encoding(buf, pos, e.len() as u32);
    lemma_subrange_of_matching(buf, pos, full, 4, full.len() as int);
    assert(full.subrange(4, full.len() as int) =~= e);
    assert(buf.subrange(pos + 4, pos + 4 + e.len()) =~= e);
    encode_utf8_valid_utf8(s);
    encode_utf8_decode_utf8(s);
}

} // verus!
