//! Fixed, endian-stable framing shared by every on-store format: 4-byte
//! little-endian tags and 8-byte little-endian length prefixes.
use vstd::bytes::*;
use vstd::prelude::*;
use vstd::slice::{slice_subrange, slice_to_vec};

verus! {

/// The four bytes that encode a tag.
pub open spec fn tag_bytes(t: u32) -> Seq<u8> {
    spec_u32_to_le_bytes(t)
}

/// A byte string preceded by its length as a little-endian `u64`.
pub open spec fn blob_bytes(b: Seq<u8>) -> Seq<u8> {
    spec_u64_to_le_bytes(b.len() as u64) + b
}

/// The eight bytes that encode a count.
pub open spec fn u64_bytes(n: u64) -> Seq<u8> {
    spec_u64_to_le_bytes(n)
}

/// The count that starts at `pos`, and the position after it.
pub open spec fn parse_u64(s: Seq<u8>, pos: int) -> Option<(u64, int)> {
    if 0 <= pos && pos + 8 <= s.len() {
        Some((spec_u64_from_le_bytes(s.subrange(pos, pos + 8)), pos + 8))
    } else {
        None
    }
}

pub proof fn lemma_parse_u64(n: u64, pre: Seq<u8>, rest: Seq<u8>)
    ensures
        u64_bytes(n).len() == 8,
        parse_u64(pre + u64_bytes(n) + rest, pre.len() as int) == Some((n, pre.len() + 8int)),
{
    lemma_auto_spec_u64_to_from_le_bytes();
    let s = pre + u64_bytes(n) + rest;
    assert(s.subrange(pre.len() as int, pre.len() + 8int) =~= u64_bytes(n));
}

/// Appends the eight bytes of `n`.
pub fn push_u64(out: &mut Vec<u8>, n: u64)
    ensures
        final(out)@ == old(out)@ + u64_bytes(n),
{
    let b = u64_to_le_bytes(n);
    out.extend_from_slice(b.as_slice());
}

/// Reads the count at `pos`.
pub fn read_u64(s: &[u8], pos: usize) -> (r: Option<(u64, usize)>)
    ensures
        match r {
            Some((n, p)) => parse_u64(s@, pos as int) == Some((n, p as int)),
            None => parse_u64(s@, pos as int) is None,
        },
{
    if pos > s.len() || s.len() - pos < 8 {
        return None;
    }
    let n = u64_from_le_bytes(slice_subrange(s, pos, pos + 8));
    Some((n, pos + 8))
}

/// The tag that starts at `pos`, and the position after it.
pub open spec fn parse_tag(s: Seq<u8>, pos: int) -> Option<(u32, int)> {
    if 0 <= pos && pos + 4 <= s.len() {
        Some((spec_u32_from_le_bytes(s.subrange(pos, pos + 4)), pos + 4))
    } else {
        None
    }
}

/// The length-prefixed byte string that starts at `pos`, and the position after it.
pub open spec fn parse_blob(s: Seq<u8>, pos: int) -> Option<(Seq<u8>, int)> {
    if 0 <= pos && pos + 8 <= s.len() {
        let n = spec_u64_from_le_bytes(s.subrange(pos, pos + 8)) as int;
        if pos + 8 + n <= s.len() {
            Some((s.subrange(pos + 8, pos + 8 + n), pos + 8 + n))
        } else {
            None
        }
    } else {
        None
    }
}

pub proof fn lemma_parse_tag(t: u32, pre: Seq<u8>, rest: Seq<u8>)
    ensures
        tag_bytes(t).len() == 4,
        parse_tag(pre + tag_bytes(t) + rest, pre.len() as int) == Some((t, pre.len() + 4int)),
{
    lemma_auto_spec_u32_to_from_le_bytes();
    let s = pre + tag_bytes(t) + rest;
    assert(s.subrange(pre.len() as int, pre.len() + 4int) =~= tag_bytes(t));
}

pub proof fn lemma_parse_blob(b: Seq<u8>, pre: Seq<u8>, rest: Seq<u8>)
    requires
        b.len() <= u64::MAX,
    ensures
        blob_bytes(b).len() == 8 + b.len(),
        parse_blob(pre + blob_bytes(b) + rest, pre.len() as int) == Some(
            (b, pre.len() + 8int + b.len()),
        ),
{
    lemma_auto_spec_u64_to_from_le_bytes();
    let s = pre + blob_bytes(b) + rest;
    let p = pre.len() as int;
    assert(s.subrange(p, p + 8) =~= spec_u64_to_le_bytes(b.len() as u64));
    assert(s.subrange(p + 8, p + 8 + b.len()) =~= b);
}

/// Appends the four bytes of `t`.
pub fn push_tag(out: &mut Vec<u8>, t: u32)
    ensures
        final(out)@ == old(out)@ + tag_bytes(t),
{
    let b = u32_to_le_bytes(t);
    out.extend_from_slice(b.as_slice());
}

/// Appends `b` behind its length prefix.
pub fn push_blob(out: &mut Vec<u8>, b: &[u8])
    ensures
        final(out)@ == old(out)@ + blob_bytes(b@),
{
    let n = u64_to_le_bytes(b.len() as u64);
    out.extend_from_slice(n.as_slice());
    out.extend_from_slice(b);
}

/// Reads the tag at `pos`.
pub fn read_tag(s: &[u8], pos: usize) -> (r: Option<(u32, usize)>)
    ensures
        match r {
            Some((t, p)) => parse_tag(s@, pos as int) == Some((t, p as int)),
            None => parse_tag(s@, pos as int) is None,
        },
{
    if pos > s.len() || s.len() - pos < 4 {
        return None;
    }
    let t = u32_from_le_bytes(slice_subrange(s, pos, pos + 4));
    Some((t, pos + 4))
}

/// Reads the length-prefixed byte string at `pos`.
pub fn read_blob(s: &[u8], pos: usize) -> (r: Option<(Vec<u8>, usize)>)
    ensures
        match r {
            Some((b, p)) => parse_blob(s@, pos as int) == Some((b@, p as int)),
            None => parse_blob(s@, pos as int) is None,
        },
{
    if pos > s.len() || s.len() - pos < 8 {
        return None;
    }
    let n = u64_from_le_bytes(slice_subrange(s, pos, pos + 8));
    let start = pos + 8;
    if n > (s.len() - start) as u64 {
        return None;
    }
    let end = start + n as usize;
    let b = slice_to_vec(slice_subrange(s, start, end));
    Some((b, end))
}

} // verus!
