//! One self-encryption layer: a payload becomes a data map plus stored
//! chunks, and a data map plus the store gives the payload back.
use crate::client::{fetch_spec, get_chunk, grows, lemma_put_all_grows, put_chunk, store_put_all, Client};
use crate::data_map::{data_map_framable, names_view, DataMap, DataMapModel};
use crate::error::{bytes_result, outcome, CoreError};
use crate::idata::{content_name, fits_one_chunk, hash_content, MAX_IMMUTABLE_DATA_SIZE_IN_BYTES};
use vstd::prelude::*;
use vstd::slice::slice_to_vec;

verus! {

/// Payloads shorter than this are kept inline rather than self-encrypted.
pub const MIN_ENCRYPTABLE_SIZE: usize = 3;

/// The serialised self-encryption map and the encrypted chunks of `content`,
/// if self-encryption accepts it.
pub uninterp spec fn self_encrypted(content: Seq<u8>) -> Option<(Seq<u8>, Seq<Seq<u8>>)>;

/// The payload that `chunks` decrypt to under the serialised map `map`, if any.
pub uninterp spec fn self_decrypted(map: Seq<u8>, chunks: Seq<Seq<u8>>) -> Option<Seq<u8>>;

/// Relies on self_encryption::encrypt, whose map is kept in the form that
/// DataMap::to_bytes gives: the map and chunks depend on the content alone,
/// there are at least three chunks, and decrypting those chunks under that
/// map gives the content back.
#[verifier::external_body]
fn self_encrypt(content: &[u8]) -> (r: Option<(Vec<u8>, Vec<Vec<u8>>)>)
    ensures
        match r {
            Some((m, cs)) => self_encrypted(content@) == Some((m@, names_view(cs@)))
                && self_decrypted(m@, names_view(cs@)) == Some(content@) && cs@.len() >= 3,
            None => self_encrypted(content@) is None,
        },
{
    let (map, chunks) = self_encryption::encrypt(bytes::Bytes::copy_from_slice(content)).ok()?;
    let map = map.to_bytes().ok()?;
    Some((map, chunks.into_iter().map(|c| c.content.to_vec()).collect()))
}

/// Relies on self_encryption::decrypt, with the map read by
/// DataMap::from_bytes: the payload, or a failure when the map does not
/// parse or the chunks do not decrypt.
#[verifier::external_body]
fn self_decrypt(map: &[u8], chunks: &Vec<Vec<u8>>) -> (r: Option<Vec<u8>>)
    ensures
        match r {
            Some(b) => self_decrypted(map@, names_view(chunks@)) == Some(b@),
            None => self_decrypted(map@, names_view(chunks@)) is None,
        },
{
    let map = self_encryption::DataMap::from_bytes(map).ok()?;
    let chunks: Vec<self_encryption::EncryptedChunk> = chunks
        .iter()
        .map(|c| self_encryption::EncryptedChunk { content: bytes::Bytes::copy_from_slice(c) })
        .collect();
    self_encryption::decrypt(&map, &chunks).ok().map(|b| b.to_vec())
}

/// Whether every one of `cs` fits in one network object.
pub open spec fn all_fit(cs: Seq<Seq<u8>>) -> bool {
    forall|i: int| 0 <= i < cs.len() ==> fits_one_chunk(#[trigger] cs[i])
}

/// The data map that encoding `content` gives, and the chunks it stores.
/// Self-encryption counts only with a map that decrypts its chunks back to
/// the content, which every map it returns does, and with chunks that each
/// fit one network object.
pub open spec fn encode_layer_spec(content: Seq<u8>) -> Option<(DataMapModel, Seq<Seq<u8>>)> {
    if content.len() < MIN_ENCRYPTABLE_SIZE {
        Some((DataMapModel::Content(content), Seq::empty()))
    } else {
        match self_encrypted(content) {
            Some((m, cs)) => if self_decrypted(m, cs) == Some(content) && data_map_framable(
                DataMapModel::Chunks(m, cs.map_values(|c: Seq<u8>| content_name(c))),
            ) && all_fit(cs) {
                Some((DataMapModel::Chunks(m, cs.map_values(|c: Seq<u8>| content_name(c))), cs))
            } else {
                None
            },
            None => None,
        }
    }
}

/// Whether encoding `content` puts anything into the store.
pub open spec fn layer_writes(content: Seq<u8>) -> bool {
    encode_layer_spec(content) is Some && encode_layer_spec(content)->Some_0.1.len() > 0
}

/// Whether decoding the data map `dm` fetches anything from the store.
pub open spec fn layer_reads(dm: DataMapModel) -> bool {
    match dm {
        DataMapModel::Chunks(_, names) => names.len() > 0,
        DataMapModel::Content(_) => false,
    }
}

/// What fetching every chunk named in `names`, in order, gives: the first
/// failure, or all the chunks.
pub open spec fn fetch_all_spec(st: Map<Seq<u8>, Seq<u8>>, names: Seq<Seq<u8>>) -> Result<
    Seq<Seq<u8>>,
    CoreError,
>
    decreases names.len(),
{
    if names.len() == 0 {
        Ok(Seq::empty())
    } else {
        match fetch_all_spec(st, names.drop_last()) {
            Ok(cs) => match fetch_spec(st, names.last()) {
                Ok(c) => Ok(cs.push(c)),
                Err(e) => Err(e),
            },
            Err(e) => Err(e),
        }
    }
}

/// What decoding the data map `dm` against a store holding `st` gives.
pub open spec fn decode_layer_spec(dm: DataMapModel, st: Map<Seq<u8>, Seq<u8>>) -> Result<
    Seq<u8>,
    CoreError,
> {
    match dm {
        DataMapModel::Content(b) => Ok(b),
        DataMapModel::Chunks(m, names) => match fetch_all_spec(st, names) {
            Ok(cs) => match self_decrypted(m, cs) {
                Some(b) => Ok(b),
                None => Err(CoreError::SelfEncryptionFailure),
            },
            Err(e) => Err(e),
        },
    }
}

/// Whether the store `st` serves every one of `cs` under its address.
pub open spec fn serves_all(st: Map<Seq<u8>, Seq<u8>>, cs: Seq<Seq<u8>>) -> bool {
    forall|i: int|
        0 <= i < cs.len() ==> {
            &&& st.contains_key(content_name(#[trigger] cs[i]))
            &&& st[content_name(cs[i])] == cs[i]
        }
}

pub proof fn lemma_fetch_all(st: Map<Seq<u8>, Seq<u8>>, cs: Seq<Seq<u8>>)
    requires
        serves_all(st, cs),
    ensures
        fetch_all_spec(st, cs.map_values(|c: Seq<u8>| content_name(c))) == Ok::<
            Seq<Seq<u8>>,
            CoreError,
        >(cs),
    decreases cs.len(),
{
    let names = cs.map_values(|c: Seq<u8>| content_name(c));
    if cs.len() == 0 {
        assert(cs =~= Seq::<Seq<u8>>::empty());
    } else {
        let init = cs.drop_last();
        assert(serves_all(st, init)) by {
            assert forall|i: int| 0 <= i < init.len() implies {
                &&& st.contains_key(content_name(#[trigger] init[i]))
                &&& st[content_name(init[i])] == init[i]
            } by {
                assert(init[i] == cs[i]);
            }
        }
        lemma_fetch_all(st, init);
        assert(names.drop_last() =~= init.map_values(|c: Seq<u8>| content_name(c)));
        assert(serves_all(st, cs));
        let k = cs.len() - 1;
        assert(st.contains_key(content_name(cs[k])));
        assert(names.last() == content_name(cs.last()));
        assert(init.push(cs.last()) =~= cs);
    }
}

/// Decoding the data map of an encoding gives back its content, whenever
/// the store serves the chunks that encoding stored.
pub proof fn lemma_decode_encoded_layer(content: Seq<u8>, st: Map<Seq<u8>, Seq<u8>>)
    requires
        encode_layer_spec(content) is Some,
        serves_all(st, encode_layer_spec(content)->Some_0.1),
    ensures
        decode_layer_spec(encode_layer_spec(content)->Some_0.0, st) == Ok::<Seq<u8>, CoreError>(
            content,
        ),
{
    if content.len() >= MIN_ENCRYPTABLE_SIZE {
        let (m, cs) = self_encrypted(content)->0;
        lemma_fetch_all(st, cs);
    }
}

/// Whether every one of `chunks` fits one network object; hashes each on the
/// way, so every address is known to be 32 bytes long.
fn chunks_fit(chunks: &Vec<Vec<u8>>) -> (r: bool)
    ensures
        r == all_fit(names_view(chunks@)),
        r ==> forall|i: int|
            0 <= i < chunks@.len() ==> (#[trigger] content_name(names_view(chunks@)[i])).len()
                == 32,
{
    let ghost cs = names_view(chunks@);
    let mut k: usize = 0;
    while k < chunks.len()
        invariant
            k <= chunks@.len(),
            cs == names_view(chunks@),
            forall|j: int| 0 <= j < k ==> fits_one_chunk(#[trigger] cs[j]),
            forall|j: int| 0 <= j < k ==> (#[trigger] content_name(cs[j])).len() == 32,
        decreases chunks@.len() - k,
    {
        if chunks[k].len() as u64 > MAX_IMMUTABLE_DATA_SIZE_IN_BYTES - 8 {
            assert(cs[k as int] == chunks@[k as int]@);
            assert(!fits_one_chunk(cs[k as int]));
            return false;
        }
        let digest = hash_content(chunks[k].as_slice());
        assert(cs[k as int] == chunks@[k as int]@);
        assert(digest@.len() == 32);
        k = k + 1;
    }
    true
}

/// Checks that each of `chunks` fits one network object, stores them through
/// `client`, and returns the data map that lists them after `map`.
pub fn store_chunks<C: Client>(client: &mut C, map: Vec<u8>, chunks: Vec<Vec<u8>>) -> (r: Result<
    DataMap,
    CoreError,
>)
    requires
        old(client).inv(),
    ensures
        final(client).inv(),
        final(client).infallible() == old(client).infallible(),
        grows(old(client).stored(), final(client).stored()),
        all_fit(names_view(chunks@)) ==> forall|i: int|
            0 <= i < chunks@.len() ==> (#[trigger] content_name(names_view(chunks@)[i])).len()
                == 32,
        match r {
            Ok(d) => all_fit(names_view(chunks@)) && d@ == DataMapModel::Chunks(
                map@,
                names_view(chunks@).map_values(|c: Seq<u8>| content_name(c)),
            ) && final(client).stored() == store_put_all(
                old(client).stored(),
                names_view(chunks@),
            ),
            Err(e) => (e == CoreError::NetworkUnavailable && !old(client).infallible()
                && chunks@.len() > 0 && all_fit(names_view(chunks@))) || (e == CoreError::SelfEncryptionFailure && !all_fit(
                names_view(chunks@),
            ) && final(client).stored() == old(client).stored()),
        },
{
    let ghost cs = names_view(chunks@);
    let ghost start = client.stored();
    if !chunks_fit(&chunks) {
        return Err(CoreError::SelfEncryptionFailure);
    }
    let mut names: Vec<Vec<u8>> = Vec::new();
    let mut i: usize = 0;
    while i < chunks.len()
        invariant
            client.inv(),
            client.infallible() == old(client).infallible(),
            start == old(client).stored(),
            i <= chunks@.len(),
            cs == names_view(chunks@),
            all_fit(cs),
            forall|j: int| 0 <= j < cs.len() ==> (#[trigger] content_name(cs[j])).len() == 32,
            names_view(names@) == cs.subrange(0, i as int).map_values(
                |c: Seq<u8>| content_name(c),
            ),
            client.stored() == store_put_all(start, cs.subrange(0, i as int)),
            grows(start, client.stored()),
        decreases chunks@.len() - i,
    {
        let chunk = slice_to_vec(chunks[i].as_slice());
        assert(chunk@ == cs[i as int]);
        let name = match put_chunk(client, chunk) {
            Ok(n) => n,
            Err(e) => {
                assert(e == CoreError::NetworkUnavailable);
                return Err(e);
            },
        };
        assert(name@ == content_name(cs[i as int]));
        proof {
            let pre = cs.subrange(0, i + 1);
            assert(pre.drop_last() =~= cs.subrange(0, i as int));
            assert(pre.last() == cs[i as int]);
            assert(names_view(names@.push(name)) =~= names_view(names@).push(name@));
            assert(pre.map_values(|c: Seq<u8>| content_name(c)) =~= cs.subrange(0, i as int).map_values(
                |c: Seq<u8>| content_name(c),
            ).push(content_name(cs[i as int])));
            lemma_put_all_grows(start, pre);
        }
        names.push(name);
        i = i + 1;
    }
    assert(cs.subrange(0, i as int) =~= cs);
    Ok(DataMap::Chunks { encrypted_map: map, chunk_names: names })
}

/// Self-encrypts `content` (or keeps it inline when it is short), stores
/// the chunks through `client`, and returns the data map.
pub fn encode_layer<C: Client>(client: &mut C, content: &[u8]) -> (r: Result<DataMap, CoreError>)
    requires
        old(client).inv(),
    ensures
        final(client).inv(),
        final(client).infallible() == old(client).infallible(),
        grows(old(client).stored(), final(client).stored()),
        content@.len() < MIN_ENCRYPTABLE_SIZE ==> r is Ok,
        encode_layer_spec(content@) is None ==> r == Err::<DataMap, CoreError>(
            CoreError::SelfEncryptionFailure,
        ),
        match r {
            Ok(d) => encode_layer_spec(content@) is Some && d@ == encode_layer_spec(
                content@,
            )->Some_0.0 && final(client).stored() == store_put_all(
                old(client).stored(),
                encode_layer_spec(content@)->Some_0.1,
            ),
            Err(e) => (e == CoreError::NetworkUnavailable && !old(client).infallible()
                && layer_writes(content@)) || (e == CoreError::SelfEncryptionFailure
                && encode_layer_spec(content@) is None),
        },
{
    if content.len() < MIN_ENCRYPTABLE_SIZE {
        return Ok(DataMap::Content(slice_to_vec(content)));
    }
    let (map, chunks) = match self_encrypt(content) {
        Some(x) => x,
        None => return Err(CoreError::SelfEncryptionFailure),
    };
    let ghost cs = names_view(chunks@);
    let mlen = map.len();
    let clen = chunks.len();
    assert(map@.len() == mlen && cs.len() == clen);
    let r = store_chunks(client, map, chunks);
    proof {
        if all_fit(cs) {
            let names = cs.map_values(|c: Seq<u8>| content_name(c));
            assert forall|i: int| 0 <= i < names.len() implies #[trigger] names[i].len() <= u64::MAX by {
                assert(content_name(cs[i]).len() == 32);
            }
        }
    }
    r
}

/// Fetches every chunk named in `names`, in order.
fn fetch_all<C: Client>(client: &C, names: &Vec<Vec<u8>>) -> (r: Result<Vec<Vec<u8>>, CoreError>)
    requires
        client.inv(),
    ensures
        match r {
            Ok(cs) => fetch_all_spec(client.stored(), names_view(names@)) == Ok::<
                Seq<Seq<u8>>,
                CoreError,
            >(names_view(cs@)),
            Err(e) => (e == CoreError::NetworkUnavailable && !client.infallible() && names@.len()
                > 0) || fetch_all_spec(client.stored(), names_view(names@)) == Err::<
                Seq<Seq<u8>>,
                CoreError,
            >(e),
        },
{
    let ghost all = names_view(names@);
    let mut cs: Vec<Vec<u8>> = Vec::new();
    assert(all.subrange(0, 0) =~= Seq::<Seq<u8>>::empty());
    assert(names_view(cs@) =~= Seq::<Seq<u8>>::empty());
    let mut i: usize = 0;
    while i < names.len()
        invariant
            client.inv(),
            i <= names@.len(),
            all == names_view(names@),
            fetch_all_spec(client.stored(), all.subrange(0, i as int)) == Ok::<
                Seq<Seq<u8>>,
                CoreError,
            >(names_view(cs@)),
        decreases names@.len() - i,
    {
        let ghost pre = all.subrange(0, i + 1);
        proof {
            assert(pre.drop_last() =~= all.subrange(0, i as int));
            assert(pre.last() == names@[i as int]@);
        }
        match get_chunk(client, &names[i]) {
            Ok(c) => {
                proof {
                    assert(names_view(cs@.push(c)) =~= names_view(cs@).push(c@));
                }
                cs.push(c);
            },
            Err(e) => {
                proof {
                    if fetch_spec(client.stored(), names@[i as int]@) == Err::<Seq<u8>, CoreError>(
                        e,
                    ) {
                        lemma_fetch_all_stuck(client.stored(), all, i as int + 1);
                    }
                }
                return Err(e);
            },
        }
        i = i + 1;
    }
    assert(all.subrange(0, i as int) =~= all);
    Ok(cs)
}

/// Once fetching a prefix fails, fetching the whole list fails the same way.
proof fn lemma_fetch_all_stuck(st: Map<Seq<u8>, Seq<u8>>, names: Seq<Seq<u8>>, k: int)
    requires
        0 <= k <= names.len(),
        fetch_all_spec(st, names.subrange(0, k)) is Err,
    ensures
        fetch_all_spec(st, names) == fetch_all_spec(st, names.subrange(0, k)),
    decreases names.len() - k,
{
    if k < names.len() {
        let pre = names.subrange(0, k + 1);
        assert(pre.drop_last() =~= names.subrange(0, k));
        lemma_fetch_all_stuck(st, names, k + 1);
    } else {
        assert(names.subrange(0, k) =~= names);
    }
}

/// Reassembles the payload that the data map `dm` describes.
pub fn decode_layer<C: Client>(client: &C, dm: &DataMap) -> (r: Result<Vec<u8>, CoreError>)
    requires
        client.inv(),
    ensures
        outcome(
            bytes_result(r),
            decode_layer_spec(dm@, client.stored()),
            client.infallible() || !layer_reads(dm@),
        ),
{
    match dm {
        DataMap::Content(b) => Ok(slice_to_vec(b.as_slice())),
        DataMap::Chunks { encrypted_map, chunk_names } => {
            let cs = match fetch_all(client, chunk_names) {
                Ok(cs) => cs,
                Err(e) => return Err(e),
            };
            match self_decrypt(encrypted_map.as_slice(), &cs) {
                Some(b) => Ok(b),
                None => Err(CoreError::SelfEncryptionFailure),
            }
        },
    }
}

} // verus!
