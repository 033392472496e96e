//! The data map that self-encryption leaves behind, and the two-armed tagged
//! union that an immutable data object carries, with their byte formats.
use crate::error::CoreError;
use crate::wire::{
    blob_bytes, lemma_parse_blob, lemma_parse_tag, lemma_parse_u64, parse_blob, parse_tag,
    parse_u64, push_blob, push_tag, push_u64, read_blob, read_tag, read_u64, tag_bytes, u64_bytes,
};
use vstd::prelude::*;

verus! {

/// Tag of a data map that holds its payload inline.
pub const TAG_CONTENT: u32 = 0;

/// Tag of a data map that lists self-encrypted chunks.
pub const TAG_CHUNKS: u32 = 1;

/// Tag of an encoding whose payload is the bytes themselves.
pub const TAG_SERIALISED: u32 = 0;

/// Tag of an encoding whose payload is a data map to reassemble.
pub const TAG_DATA_MAP: u32 = 1;

/// What a data map says, as mathematical values.
pub enum DataMapModel {
    Content(Seq<u8>),
    Chunks(Seq<u8>, Seq<Seq<u8>>),
}

/// How to get a payload back: inline, or from self-encrypted chunks.
pub enum DataMap {
    /// A payload too small to self-encrypt, held as it is.
    Content(Vec<u8>),
    /// The serialised self-encryption map and the address of every chunk it needs.
    Chunks { encrypted_map: Vec<u8>, chunk_names: Vec<Vec<u8>> },
}

/// The views of a list of byte strings.
pub open spec fn names_view(v: Seq<Vec<u8>>) -> Seq<Seq<u8>> {
    v.map_values(|x: Vec<u8>| x@)
}

impl View for DataMap {
    type V = DataMapModel;

    open spec fn view(&self) -> DataMapModel {
        match self {
            DataMap::Content(b) => DataMapModel::Content(b@),
            DataMap::Chunks { encrypted_map, chunk_names } => DataMapModel::Chunks(
                encrypted_map@,
                names_view(chunk_names@),
            ),
        }
    }
}

/// Whether every length in `ns` fits the 8-byte prefix.
pub open spec fn names_framable(ns: Seq<Seq<u8>>) -> bool {
    &&& ns.len() <= u64::MAX
    &&& forall|i: int| 0 <= i < ns.len() ==> #[trigger] ns[i].len() <= u64::MAX
}

/// Whether every length in `m` fits the 8-byte prefix.
pub open spec fn data_map_framable(m: DataMapModel) -> bool {
    match m {
        DataMapModel::Content(b) => b.len() <= u64::MAX,
        DataMapModel::Chunks(e, ns) => e.len() <= u64::MAX && names_framable(ns),
    }
}

/// A list of byte strings, each behind its length.
pub open spec fn names_bytes(ns: Seq<Seq<u8>>) -> Seq<u8>
    decreases ns.len(),
{
    if ns.len() == 0 {
        Seq::empty()
    } else {
        names_bytes(ns.drop_last()) + blob_bytes(ns.last())
    }
}

/// The serialised data map.
pub open spec fn data_map_bytes(m: DataMapModel) -> Seq<u8> {
    match m {
        DataMapModel::Content(b) => tag_bytes(TAG_CONTENT) + blob_bytes(b),
        DataMapModel::Chunks(e, ns) => tag_bytes(TAG_CHUNKS) + blob_bytes(e) + u64_bytes(
            ns.len() as u64,
        ) + names_bytes(ns),
    }
}

/// The `n` byte strings that start at `pos`, and the position after them.
pub open spec fn parse_names(s: Seq<u8>, pos: int, n: nat) -> Option<(Seq<Seq<u8>>, int)>
    decreases n,
{
    if n == 0 {
        Some((Seq::empty(), pos))
    } else {
        match parse_names(s, pos, (n - 1) as nat) {
            Some((ns, p)) => match parse_blob(s, p) {
                Some((b, q)) => Some((ns.push(b), q)),
                None => None,
            },
            None => None,
        }
    }
}

/// The data map serialised from `pos` to the very end of `s`.
pub open spec fn parse_data_map_at(s: Seq<u8>, pos: int) -> Option<DataMapModel> {
    match parse_tag(s, pos) {
        Some((t, p)) => if t == TAG_CONTENT {
            match parse_blob(s, p) {
                Some((b, q)) => if q == s.len() {
                    Some(DataMapModel::Content(b))
                } else {
                    None
                },
                None => None,
            }
        } else if t == TAG_CHUNKS {
            match parse_blob(s, p) {
                Some((e, q)) => match parse_u64(s, q) {
                    Some((n, r)) => match parse_names(s, r, n as nat) {
                        Some((ns, end)) => if end == s.len() {
                            Some(DataMapModel::Chunks(e, ns))
                        } else {
                            None
                        },
                        None => None,
                    },
                    None => None,
                },
                None => None,
            }
        } else {
            None
        },
        None => None,
    }
}

/// The data map that `s` serialises, if it is exactly one.
pub open spec fn parse_data_map(s: Seq<u8>) -> Option<DataMapModel> {
    parse_data_map_at(s, 0)
}

pub proof fn lemma_parse_names(ns: Seq<Seq<u8>>, pre: Seq<u8>, rest: Seq<u8>)
    requires
        names_framable(ns),
    ensures
        parse_names(pre + names_bytes(ns) + rest, pre.len() as int, ns.len()) == Some(
            (ns, pre.len() + names_bytes(ns).len() as int),
        ),
    decreases ns.len(),
{
    if ns.len() == 0 {
        assert(ns =~= Seq::<Seq<u8>>::empty());
    } else {
        let init = ns.drop_last();
        let last = ns.last();
        assert(last.len() <= u64::MAX);
        assert(names_framable(init));
        let tail = blob_bytes(last) + rest;
        assert(pre + names_bytes(ns) + rest =~= pre + names_bytes(init) + tail);
        lemma_parse_names(init, pre, tail);
        assert(init.len() == (ns.len() - 1) as nat);
        assert(pre + names_bytes(ns) + rest =~= (pre + names_bytes(init)) + blob_bytes(last)
            + rest);
        lemma_parse_blob(last, pre + names_bytes(init), rest);
        assert(init.push(last) =~= ns);
    }
}

/// Once a list stops parsing, every longer list fails too.
pub proof fn lemma_parse_names_stuck(s: Seq<u8>, pos: int, k: nat, n: nat)
    requires
        k <= n,
        parse_names(s, pos, k) is None,
    ensures
        parse_names(s, pos, n) is None,
    decreases n - k,
{
    if k < n {
        lemma_parse_names_stuck(s, pos, k + 1, n);
    }
}

pub proof fn lemma_parse_data_map_at(m: DataMapModel, pre: Seq<u8>)
    requires
        data_map_framable(m),
    ensures
        parse_data_map_at(pre + data_map_bytes(m), pre.len() as int) == Some(m),
{
    let s = pre + data_map_bytes(m);
    match m {
        DataMapModel::Content(b) => {
            assert(s =~= pre + tag_bytes(TAG_CONTENT) + blob_bytes(b));
            lemma_parse_tag(TAG_CONTENT, pre, blob_bytes(b));
            assert(s =~= (pre + tag_bytes(TAG_CONTENT)) + blob_bytes(b) + Seq::<u8>::empty());
            lemma_parse_blob(b, pre + tag_bytes(TAG_CONTENT), Seq::empty());
        },
        DataMapModel::Chunks(e, ns) => {
            let after_tag = blob_bytes(e) + u64_bytes(ns.len() as u64) + names_bytes(ns);
            assert(s =~= pre + tag_bytes(TAG_CHUNKS) + after_tag);
            lemma_parse_tag(TAG_CHUNKS, pre, after_tag);
            let at_map = pre + tag_bytes(TAG_CHUNKS);
            assert(s =~= at_map + blob_bytes(e) + (u64_bytes(ns.len() as u64) + names_bytes(ns)));
            lemma_parse_blob(e, at_map, u64_bytes(ns.len() as u64) + names_bytes(ns));
            let at_count = at_map + blob_bytes(e);
            assert(s =~= at_count + u64_bytes(ns.len() as u64) + names_bytes(ns));
            lemma_parse_u64(ns.len() as u64, at_count, names_bytes(ns));
            let at_names = at_count + u64_bytes(ns.len() as u64);
            assert(s =~= at_names + names_bytes(ns) + Seq::<u8>::empty());
            lemma_parse_names(ns, at_names, Seq::empty());
        },
    }
}

pub proof fn lemma_parse_data_map(m: DataMapModel)
    requires
        data_map_framable(m),
    ensures
        parse_data_map(data_map_bytes(m)) == Some(m),
{
    lemma_parse_data_map_at(m, Seq::empty());
    assert(Seq::<u8>::empty() + data_map_bytes(m) =~= data_map_bytes(m));
}

/// Appends the serialised data map.
pub fn push_data_map(out: &mut Vec<u8>, dm: &DataMap)
    ensures
        final(out)@ == old(out)@ + data_map_bytes(dm@),
{
    match dm {
        DataMap::Content(b) => {
            push_tag(out, TAG_CONTENT);
            push_blob(out, b.as_slice());
            assert(out@ =~= old(out)@ + data_map_bytes(dm@));
        },
        DataMap::Chunks { encrypted_map, chunk_names } => {
            push_tag(out, TAG_CHUNKS);
            push_blob(out, encrypted_map.as_slice());
            push_u64(out, chunk_names.len() as u64);
            let ghost mid = out@;
            let ghost all = names_view(chunk_names@);
            let mut i: usize = 0;
            while i < chunk_names.len()
                invariant
                    i <= chunk_names@.len(),
                    all == names_view(chunk_names@),
                    out@ == mid + names_bytes(all.subrange(0, i as int)),
                decreases chunk_names@.len() - i,
            {
                push_blob(out, chunk_names[i].as_slice());
                proof {
                    let pre = all.subrange(0, i + 1);
                    assert(pre.drop_last() =~= all.subrange(0, i as int));
                    assert(pre.last() == chunk_names@[i as int]@);
                }
                i = i + 1;
            }
            assert(all.subrange(0, i as int) =~= all);
            assert(out@ =~= old(out)@ + data_map_bytes(dm@));
        },
    }
}

/// The serialised data map.
pub fn serialise_data_map(dm: &DataMap) -> (r: Vec<u8>)
    ensures
        r@ == data_map_bytes(dm@),
{
    let mut out: Vec<u8> = Vec::new();
    push_data_map(&mut out, dm);
    assert(out@ =~= data_map_bytes(dm@));
    out
}

/// Reads the data map serialised from `pos` to the end of `s`.
pub fn read_data_map_at(s: &[u8], pos: usize) -> (r: Result<DataMap, CoreError>)
    ensures
        match r {
            Ok(dm) => parse_data_map_at(s@, pos as int) == Some(dm@),
            Err(e) => e == CoreError::DecodeFailure && parse_data_map_at(s@, pos as int) is None,
        },
{
    let (t, p) = match read_tag(s, pos) {
        Some(x) => x,
        None => return Err(CoreError::DecodeFailure),
    };
    if t == TAG_CONTENT {
        match read_blob(s, p) {
            Some((b, q)) => {
                if q == s.len() {
                    Ok(DataMap::Content(b))
                } else {
                    Err(CoreError::DecodeFailure)
                }
            },
            None => Err(CoreError::DecodeFailure),
        }
    } else if t == TAG_CHUNKS {
        let (e, q) = match read_blob(s, p) {
            Some(x) => x,
            None => return Err(CoreError::DecodeFailure),
        };
        let (n, r) = match read_u64(s, q) {
            Some(x) => x,
            None => return Err(CoreError::DecodeFailure),
        };
        let mut names: Vec<Vec<u8>> = Vec::new();
        let mut at: usize = r;
        let mut k: u64 = 0;
        while k < n
            invariant
                k <= n,
                t == TAG_CHUNKS,
                parse_tag(s@, pos as int) == Some((t, p as int)),
                parse_blob(s@, p as int) == Some((e@, q as int)),
                parse_u64(s@, q as int) == Some((n, r as int)),
                parse_names(s@, r as int, k as nat) == Some((names_view(names@), at as int)),
            decreases n - k,
        {
            match read_blob(s, at) {
                Some((b, next)) => {
                    proof {
                        assert(names_view(names@.push(b)) =~= names_view(names@).push(b@));
                    }
                    names.push(b);
                    at = next;
                },
                None => {
                    proof {
                        lemma_parse_names_stuck(s@, r as int, (k + 1) as nat, n as nat);
                    }
                    return Err(CoreError::DecodeFailure);
                },
            }
            k = k + 1;
        }
        if at == s.len() {
            Ok(DataMap::Chunks { encrypted_map: e, chunk_names: names })
        } else {
            Err(CoreError::DecodeFailure)
        }
    } else {
        Err(CoreError::DecodeFailure)
    }
}

/// Reads back a serialised data map.
pub fn deserialise_data_map(s: &[u8]) -> (r: Result<DataMap, CoreError>)
    ensures
        match r {
            Ok(dm) => parse_data_map(s@) == Some(dm@),
            Err(e) => e == CoreError::DecodeFailure && parse_data_map(s@) is None,
        },
{
    read_data_map_at(s, 0)
}

/// What an encoding says, as mathematical values.
pub enum EncodingModel {
    Serialised(Seq<u8>),
    DataMap(DataMapModel),
}

/// The payload of an immutable data object: the bytes themselves, or a data
/// map whose reassembled chunks are the next object inward.
pub enum DataTypeEncoding {
    Serialised(Vec<u8>),
    DataMap(DataMap),
}

impl View for DataTypeEncoding {
    type V = EncodingModel;

    open spec fn view(&self) -> EncodingModel {
        match self {
            DataTypeEncoding::Serialised(b) => EncodingModel::Serialised(b@),
            DataTypeEncoding::DataMap(dm) => EncodingModel::DataMap(dm@),
        }
    }
}

/// Whether every length in `e` fits the 8-byte prefix.
pub open spec fn encoding_framable(e: EncodingModel) -> bool {
    match e {
        EncodingModel::Serialised(b) => b.len() <= u64::MAX,
        EncodingModel::DataMap(m) => data_map_framable(m),
    }
}

/// The serialised encoding: its tag, then its payload.
pub open spec fn encoding_bytes(e: EncodingModel) -> Seq<u8> {
    match e {
        EncodingModel::Serialised(b) => tag_bytes(TAG_SERIALISED) + blob_bytes(b),
        EncodingModel::DataMap(m) => tag_bytes(TAG_DATA_MAP) + data_map_bytes(m),
    }
}

/// The encoding that `s` serialises, if it is exactly one.
pub open spec fn parse_encoding(s: Seq<u8>) -> Option<EncodingModel> {
    match parse_tag(s, 0) {
        Some((t, p)) => if t == TAG_SERIALISED {
            match parse_blob(s, p) {
                Some((b, q)) => if q == s.len() {
                    Some(EncodingModel::Serialised(b))
                } else {
                    None
                },
                None => None,
            }
        } else if t == TAG_DATA_MAP {
            match parse_data_map_at(s, p) {
                Some(m) => Some(EncodingModel::DataMap(m)),
                None => None,
            }
        } else {
            None
        },
        None => None,
    }
}

pub proof fn lemma_parse_encoding(e: EncodingModel)
    requires
        encoding_framable(e),
    ensures
        parse_encoding(encoding_bytes(e)) == Some(e),
{
    let s = encoding_bytes(e);
    let nil = Seq::<u8>::empty();
    match e {
        EncodingModel::Serialised(b) => {
            assert(s =~= nil + tag_bytes(TAG_SERIALISED) + blob_bytes(b));
            lemma_parse_tag(TAG_SERIALISED, nil, blob_bytes(b));
            assert(s =~= (nil + tag_bytes(TAG_SERIALISED)) + blob_bytes(b) + nil);
            lemma_parse_blob(b, nil + tag_bytes(TAG_SERIALISED), nil);
        },
        EncodingModel::DataMap(m) => {
            assert(s =~= nil + tag_bytes(TAG_DATA_MAP) + data_map_bytes(m));
            lemma_parse_tag(TAG_DATA_MAP, nil, data_map_bytes(m));
            assert(s =~= (nil + tag_bytes(TAG_DATA_MAP)) + data_map_bytes(m));
            lemma_parse_data_map_at(m, nil + tag_bytes(TAG_DATA_MAP));
        },
    }
}

/// The serialised encoding.
pub fn serialise_encoding(e: &DataTypeEncoding) -> (r: Vec<u8>)
    ensures
        r@ == encoding_bytes(e@),
{
    let mut out: Vec<u8> = Vec::new();
    match e {
        DataTypeEncoding::Serialised(b) => {
            push_tag(&mut out, TAG_SERIALISED);
            push_blob(&mut out, b.as_slice());
        },
        DataTypeEncoding::DataMap(dm) => {
            push_tag(&mut out, TAG_DATA_MAP);
            push_data_map(&mut out, dm);
        },
    }
    assert(out@ =~= encoding_bytes(e@));
    out
}

/// Reads back a serialised encoding.
pub fn deserialise_encoding(s: &[u8]) -> (r: Result<DataTypeEncoding, CoreError>)
    ensures
        match r {
            Ok(e) => parse_encoding(s@) == Some(e@),
            Err(e) => e == CoreError::DecodeFailure && parse_encoding(s@) is None,
        },
{
    let (t, p) = match read_tag(s, 0) {
        Some(x) => x,
        None => return Err(CoreError::DecodeFailure),
    };
    if t == TAG_SERIALISED {
        match read_blob(s, p) {
            Some((b, q)) => {
                if q == s.len() {
                    Ok(DataTypeEncoding::Serialised(b))
                } else {
                    Err(CoreError::DecodeFailure)
                }
            },
            None => Err(CoreError::DecodeFailure),
        }
    } else if t == TAG_DATA_MAP {
        match read_data_map_at(s, p) {
            Ok(dm) => Ok(DataTypeEncoding::DataMap(dm)),
            Err(e) => Err(e),
        }
    } else {
        Err(CoreError::DecodeFailure)
    }
}

} // verus!
