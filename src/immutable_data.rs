//! Creating immutable data out of raw bytes, and getting the bytes back.
//!
//! Writing self-encrypts the payload, serialises its data map (sealed under
//! the caller's key, when one is given), and packs the result: an object too
//! large for one chunk is self-encrypted again and replaced by the encoding
//! of its data map, until it fits. Reading walks the same layers inward.
use crate::client::{fetch_spec, grows, lemma_put_all_grows, store_put_all, Client};
use crate::data_map::{
    data_map_bytes, deserialise_data_map, deserialise_encoding,
    encoding_bytes, lemma_parse_data_map, lemma_parse_encoding, parse_data_map, parse_encoding,
    serialise_data_map, serialise_encoding, DataMap, DataMapModel, DataTypeEncoding,
    EncodingModel, TAG_CHUNKS, TAG_CONTENT,
};
use crate::envelope::{
    derive_nonce, envelope_bytes, lemma_open_sealed, nonce_for, open_envelope, open_spec, parse_envelope,
    seal_envelope, secretbox_opened, secretbox_sealed, SymmetricKey, TAG_SEALED,
};
use crate::error::{bytes_result, outcome, CoreError};
use crate::idata::{
    content_name, fits_one_chunk, idata_bytes, lemma_parse_idata, parse_idata, ImmutableData,
};
use crate::self_encryptor::{
    decode_layer, decode_layer_spec, encode_layer, encode_layer_spec, layer_reads, layer_writes,
    lemma_decode_encoded_layer, serves_all,
};
use crate::wire::{lemma_parse_tag, tag_bytes};
use vstd::prelude::*;

verus! {

/// How many times packing may re-encode an object, and reading may unwrap
/// a data map layer, before the data is taken to be corrupt.
pub const MAX_PACK_LEVELS: usize = 4;

/// The key's bytes, if there is a key.
pub open spec fn key_view(key: Option<SymmetricKey>) -> Option<Seq<u8>> {
    match key {
        Some(k) => Some(k.0@),
        None => None,
    }
}

/// The root value and the stored chunks that packing `v` gives, with
/// `levels` re-encodings left.
pub open spec fn pack_spec(v: Seq<u8>, levels: nat) -> Option<(Seq<u8>, Seq<Seq<u8>>)>
    decreases levels,
{
    if fits_one_chunk(v) {
        Some((v, Seq::empty()))
    } else if levels == 0 || v.len() > u64::MAX {
        None
    } else {
        match encode_layer_spec(idata_bytes(v)) {
            Some((dm, cs)) => match pack_spec(
                encoding_bytes(EncodingModel::DataMap(dm)),
                (levels - 1) as nat,
            ) {
                Some((root, more)) => Some((root, cs + more)),
                None => None,
            },
            None => None,
        }
    }
}

/// What reading the root value `v` gives, with `levels` data map layers left
/// to unwrap.
pub open spec fn unpack_spec(v: Seq<u8>, st: Map<Seq<u8>, Seq<u8>>, levels: nat) -> Result<
    Seq<u8>,
    CoreError,
>
    decreases levels,
{
    match parse_encoding(v) {
        Some(EncodingModel::Serialised(b)) => Ok(b),
        Some(EncodingModel::DataMap(dm)) => if levels == 0 {
            Err(CoreError::SelfEncryptionFailure)
        } else {
            match decode_layer_spec(dm, st) {
                Ok(bytes) => match parse_idata(bytes) {
                    Some(inner) => unpack_spec(inner, st, (levels - 1) as nat),
                    None => Err(CoreError::DecodeFailure),
                },
                Err(e) => Err(e),
            }
        },
        None => Err(CoreError::DecodeFailure),
    }
}

/// The serialised data map, sealed under `key` when there is one, with the
/// nonce derived from the key and the map. Sealing counts only with a box
/// that opens back to the map, which every box does.
pub open spec fn sealed_map_spec(m: Seq<u8>, key: Option<Seq<u8>>) -> Result<Seq<u8>, CoreError> {
    match key {
        None => Ok(m),
        Some(k) => match secretbox_sealed(m, k, nonce_for(k, m)) {
            Some(b) => if content_name(k + m).len() == 32 && secretbox_opened(
                b,
                k,
                nonce_for(k, m),
            ) == Some(m) && b.len() == m.len() + 16 && b.len() <= u64::MAX {
                Ok(envelope_bytes(nonce_for(k, m), b))
            } else {
                Err(CoreError::CryptoFailure)
            },
            None => Err(CoreError::CryptoFailure),
        },
    }
}

/// The encoding that packing starts from when creating out of `value`.
pub open spec fn first_encoding(value: Seq<u8>, key: Option<Seq<u8>>) -> Seq<u8> {
    encoding_bytes(
        EncodingModel::Serialised(
            sealed_map_spec(data_map_bytes(encode_layer_spec(value)->Some_0.0), key)->Ok_0,
        ),
    )
}

/// The root value that creating immutable data out of `value` gives, and
/// every chunk stored on the way.
pub open spec fn create_spec(value: Seq<u8>, key: Option<Seq<u8>>) -> Result<
    (Seq<u8>, Seq<Seq<u8>>),
    CoreError,
> {
    match encode_layer_spec(value) {
        Some((dm, cs)) => match sealed_map_spec(data_map_bytes(dm), key) {
            Ok(s) => if s.len() <= u64::MAX {
                match pack_spec(
                    encoding_bytes(EncodingModel::Serialised(s)),
                    MAX_PACK_LEVELS as nat,
                ) {
                    Some((root, more)) => Ok((root, cs + more)),
                    None => Err(CoreError::SelfEncryptionFailure),
                }
            } else {
                Err(CoreError::SelfEncryptionFailure)
            },
            Err(e) => Err(e),
        },
        None => Err(CoreError::SelfEncryptionFailure),
    }
}

/// Whether packing `v` puts anything into the store.
pub open spec fn pack_writes(v: Seq<u8>, levels: nat) -> bool
    decreases levels,
{
    if fits_one_chunk(v) || levels == 0 || v.len() > u64::MAX {
        false
    } else {
        match encode_layer_spec(idata_bytes(v)) {
            Some((dm, cs)) => cs.len() > 0 || pack_writes(
                encoding_bytes(EncodingModel::DataMap(dm)),
                (levels - 1) as nat,
            ),
            None => false,
        }
    }
}

/// Whether creating out of `value` puts anything into the store.
pub open spec fn create_writes(value: Seq<u8>, key: Option<Seq<u8>>) -> bool {
    layer_writes(value) || (encode_layer_spec(value) is Some && sealed_map_spec(
        data_map_bytes(encode_layer_spec(value)->Some_0.0),
        key,
    ) is Ok && sealed_map_spec(data_map_bytes(encode_layer_spec(value)->Some_0.0), key)->Ok_0.len()
        <= u64::MAX && pack_writes(first_encoding(value, key), MAX_PACK_LEVELS as nat))
}

/// Whether reading the root value `v` fetches anything from the store.
pub open spec fn unpack_reads(v: Seq<u8>, st: Map<Seq<u8>, Seq<u8>>, levels: nat) -> bool
    decreases levels,
{
    match parse_encoding(v) {
        Some(EncodingModel::DataMap(dm)) => levels > 0 && (layer_reads(dm) || match decode_layer_spec(
            dm,
            st,
        ) {
            Ok(bytes) => match parse_idata(bytes) {
                Some(inner) => unpack_reads(inner, st, (levels - 1) as nat),
                None => false,
            },
            Err(_) => false,
        }),
        _ => false,
    }
}

/// What reading back the payload of the root value `v` gives, against a
/// store holding `st`.
pub open spec fn extract_spec(v: Seq<u8>, key: Option<Seq<u8>>, st: Map<Seq<u8>, Seq<u8>>) -> Result<
    Seq<u8>,
    CoreError,
> {
    match unpack_spec(v, st, MAX_PACK_LEVELS as nat) {
        Ok(s) => {
            let plain = match key {
                None => Ok(s),
                Some(k) => open_spec(s, k),
            };
            match plain {
                Ok(p) => match parse_data_map(p) {
                    Some(dm) => decode_layer_spec(dm, st),
                    None => Err(CoreError::DecodeFailure),
                },
                Err(e) => Err(e),
            }
        },
        Err(e) => Err(e),
    }
}

/// What fetching the root named `name` and reading its payload gives.
pub open spec fn get_value_spec(name: Seq<u8>, key: Option<Seq<u8>>, st: Map<Seq<u8>, Seq<u8>>) -> Result<
    Seq<u8>,
    CoreError,
> {
    match fetch_spec(st, name) {
        Ok(v) => extract_spec(v, key, st),
        Err(e) => Err(e),
    }
}

/// Whether reading back the payload of the root value `v` fetches anything
/// from the store.
pub open spec fn extract_reads(v: Seq<u8>, key: Option<Seq<u8>>, st: Map<Seq<u8>, Seq<u8>>) -> bool {
    unpack_reads(v, st, MAX_PACK_LEVELS as nat) || match unpack_spec(
        v,
        st,
        MAX_PACK_LEVELS as nat,
    ) {
        Ok(s) => {
            let plain = match key {
                None => Ok(s),
                Some(k) => open_spec(s, k),
            };
            match plain {
                Ok(p) => match parse_data_map(p) {
                    Some(dm) => layer_reads(dm),
                    None => false,
                },
                Err(_) => false,
            }
        },
        Err(_) => false,
    }
}

/// Whether a create that returned `r` and left the store at `after` (from
/// `before`) did what `expected` says, but for a transport failure, which
/// only a client that may fail can report, and only where the store is
/// written (`writes`).
pub open spec fn created(
    r: Result<ImmutableData, CoreError>,
    expected: Result<(Seq<u8>, Seq<Seq<u8>>), CoreError>,
    before: Map<Seq<u8>, Seq<u8>>,
    after: Map<Seq<u8>, Seq<u8>>,
    infallible: bool,
    writes: bool,
) -> bool {
    match r {
        Ok(d) => match expected {
            Ok((root, cs)) => d@ == root && after == store_put_all(before, cs),
            Err(_) => false,
        },
        Err(e) => (e == CoreError::NetworkUnavailable && !infallible && writes) || expected
            == Err::<(Seq<u8>, Seq<Seq<u8>>), CoreError>(e),
    }
}

pub proof fn lemma_store_put_all_append(
    st: Map<Seq<u8>, Seq<u8>>,
    a: Seq<Seq<u8>>,
    b: Seq<Seq<u8>>,
)
    ensures
        store_put_all(st, a + b) == store_put_all(store_put_all(st, a), b),
    decreases b.len(),
{
    if b.len() == 0 {
        assert(a + b =~= a);
    } else {
        assert((a + b).drop_last() =~= a + b.drop_last());
        assert((a + b).last() == b.last());
        lemma_store_put_all_append(st, a, b.drop_last());
    }
}

/// Packing never yields a root that exceeds one chunk.
pub proof fn lemma_pack_fits(v: Seq<u8>, levels: nat)
    requires
        pack_spec(v, levels) is Some,
    ensures
        fits_one_chunk(pack_spec(v, levels)->Some_0.0),
    decreases levels,
{
    if !fits_one_chunk(v) {
        let (dm, cs) = encode_layer_spec(idata_bytes(v))->Some_0;
        lemma_pack_fits(encoding_bytes(EncodingModel::DataMap(dm)), (levels - 1) as nat);
    }
}

/// Reading a packed root walks back to the value that was packed, whenever
/// the store serves every chunk that packing stored.
pub proof fn lemma_unpack_packed(
    v: Seq<u8>,
    levels: nat,
    st: Map<Seq<u8>, Seq<u8>>,
    s: Seq<u8>,
    m0: nat,
)
    requires
        pack_spec(v, levels) is Some,
        serves_all(st, pack_spec(v, levels)->Some_0.1),
        forall|m: nat| m >= m0 ==> #[trigger] unpack_spec(v, st, m) == Ok::<Seq<u8>, CoreError>(s),
    ensures
        unpack_spec(pack_spec(v, levels)->Some_0.0, st, levels + m0) == Ok::<Seq<u8>, CoreError>(s),
    decreases levels,
{
    if !fits_one_chunk(v) {
        let (dm, cs) = encode_layer_spec(idata_bytes(v))->Some_0;
        let inner = encoding_bytes(EncodingModel::DataMap(dm));
        let more = pack_spec(inner, (levels - 1) as nat)->Some_0.1;
        assert(pack_spec(v, levels)->Some_0.1 == cs + more);
        assert(serves_all(st, cs)) by {
            assert forall|i: int| 0 <= i < cs.len() implies {
                &&& st.contains_key(content_name(#[trigger] cs[i]))
                &&& st[content_name(cs[i])] == cs[i]
            } by {
                assert((cs + more)[i] == cs[i]);
            }
        }
        assert(serves_all(st, more)) by {
            assert forall|i: int| 0 <= i < more.len() implies {
                &&& st.contains_key(content_name(#[trigger] more[i]))
                &&& st[content_name(more[i])] == more[i]
            } by {
                assert((cs + more)[cs.len() + i] == more[i]);
            }
        }
        lemma_decode_encoded_layer(idata_bytes(v), st);
        lemma_parse_idata(v);
        lemma_parse_encoding(EncodingModel::DataMap(dm));
        assert forall|m: nat| m >= m0 + 1 implies #[trigger] unpack_spec(inner, st, m) == Ok::<
            Seq<u8>,
            CoreError,
        >(s) by {
            assert(unpack_spec(v, st, (m - 1) as nat) == Ok::<Seq<u8>, CoreError>(s));
        }
        lemma_unpack_packed(inner, (levels - 1) as nat, st, s, m0 + 1);
        assert((levels - 1) as nat + (m0 + 1) == levels + m0);
    }
}

/// Whether putting `cs` into a store holding `st` leaves each chunk
/// retrievable: no address in `st` holds other bytes than a chunk that
/// hashes to it, and no two different chunks share an address.
pub open spec fn collision_free(st: Map<Seq<u8>, Seq<u8>>, cs: Seq<Seq<u8>>) -> bool {
    &&& forall|i: int|
        0 <= i < cs.len() && st.contains_key(content_name(#[trigger] cs[i])) ==> st[content_name(
            cs[i],
        )] == cs[i]
    &&& forall|i: int, j: int|
        0 <= i < cs.len() && 0 <= j < cs.len() && content_name(#[trigger] cs[i]) == content_name(
            #[trigger] cs[j],
        ) ==> cs[i] == cs[j]
}

pub proof fn lemma_put_all_serves(st: Map<Seq<u8>, Seq<u8>>, cs: Seq<Seq<u8>>)
    requires
        collision_free(st, cs),
    ensures
        serves_all(store_put_all(st, cs), cs),
    decreases cs.len(),
{
    if cs.len() > 0 {
        let init = cs.drop_last();
        let last = cs.last();
        let k = cs.len() - 1;
        assert(collision_free(st, init)) by {
            assert forall|i: int, j: int|
                0 <= i < init.len() && 0 <= j < init.len() && content_name(#[trigger] init[i])
                    == content_name(#[trigger] init[j]) implies init[i] == init[j] by {
                assert(init[i] == cs[i] && init[j] == cs[j]);
            }
            assert forall|i: int|
                0 <= i < init.len() && st.contains_key(content_name(#[trigger] init[i])) implies st[content_name(init[i])] == init[i] by {
                assert(init[i] == cs[i]);
            }
        }
        lemma_put_all_serves(st, init);
        lemma_put_all_keeps(st, init, content_name(last));
        let before = store_put_all(st, init);
        assert forall|i: int| 0 <= i < cs.len() implies {
            &&& store_put_all(st, cs).contains_key(content_name(#[trigger] cs[i]))
            &&& store_put_all(st, cs)[content_name(cs[i])] == cs[i]
        } by {
            if i < k {
                assert(init[i] == cs[i]);
            } else {
                if before.contains_key(content_name(last)) {
                    if st.contains_key(content_name(last)) {
                        assert(st[content_name(cs[k])] == cs[k]);
                    } else {
                        let j = choose|j: int| 0 <= j < init.len() && content_name(#[trigger] init[j]) == content_name(last);
                        assert(init[j] == cs[j]);
                    }
                }
            }
        }
    }
}

/// Every address in the store after putting `cs` either was there before,
/// keeping its bytes, or is the address of one of `cs`.
pub proof fn lemma_put_all_keeps(st: Map<Seq<u8>, Seq<u8>>, cs: Seq<Seq<u8>>, name: Seq<u8>)
    ensures
        store_put_all(st, cs).contains_key(name) ==> (st.contains_key(name) && store_put_all(
            st,
            cs,
        )[name] == st[name]) || exists|j: int|
            0 <= j < cs.len() && content_name(#[trigger] cs[j]) == name && store_put_all(
                st,
                cs,
            )[name] == cs[j],
        st.contains_key(name) ==> store_put_all(st, cs).contains_key(name),
    decreases cs.len(),
{
    if cs.len() > 0 {
        let init = cs.drop_last();
        lemma_put_all_keeps(st, init, name);
        let before = store_put_all(st, init);
        if before.contains_key(name) && !st.contains_key(name) {
            let j = choose|j: int| 0 <= j < init.len() && content_name(#[trigger] init[j]) == name
                && before[name] == init[j];
            assert(cs[j] == init[j]);
        }
        if !before.contains_key(name) && content_name(cs.last()) == name {
            assert(content_name(cs[cs.len() - 1]) == name);
        }
    }
}

/// Packs `value` into a root object that fits one chunk, self-encrypting
/// and re-encoding it for as long as it does not.
pub fn pack<C: Client>(client: &mut C, value: Vec<u8>) -> (r: Result<ImmutableData, CoreError>)
    requires
        old(client).inv(),
    ensures
        final(client).inv(),
        final(client).infallible() == old(client).infallible(),
        grows(old(client).stored(), final(client).stored()),
        fits_one_chunk(value@) ==> r is Ok && r->Ok_0@ == value@ && final(client).stored() == old(
            client,
        ).stored(),
        match r {
            Ok(d) => pack_spec(value@, MAX_PACK_LEVELS as nat) is Some && d@ == pack_spec(
                value@,
                MAX_PACK_LEVELS as nat,
            )->Some_0.0 && final(client).stored() == store_put_all(
                old(client).stored(),
                pack_spec(value@, MAX_PACK_LEVELS as nat)->Some_0.1,
            ),
            Err(e) => (e == CoreError::NetworkUnavailable && !old(client).infallible()
                && pack_writes(value@, MAX_PACK_LEVELS as nat)) || (e
                == CoreError::SelfEncryptionFailure && pack_spec(value@, MAX_PACK_LEVELS as nat)
                is None),
        },
{
    let ghost start = client.stored();
    let ghost mut done: Seq<Seq<u8>> = Seq::empty();
    let mut v = value;
    let mut levels: usize = MAX_PACK_LEVELS;
    loop
        invariant
            client.inv(),
            client.infallible() == old(client).infallible(),
            levels <= MAX_PACK_LEVELS,
            start == old(client).stored(),
            client.stored() == store_put_all(start, done),
            grows(start, client.stored()),
            pack_writes(value@, MAX_PACK_LEVELS as nat) == (done.len() > 0 || pack_writes(
                v@,
                levels as nat,
            )),
            levels == MAX_PACK_LEVELS ==> v@ == value@ && done.len() == 0,
            match pack_spec(v@, levels as nat) {
                Some((root, cs)) => pack_spec(value@, MAX_PACK_LEVELS as nat) == Some(
                    (root, done + cs),
                ),
                None => pack_spec(value@, MAX_PACK_LEVELS as nat) is None,
            },
        decreases levels,
    {
        let vlen = v.len();
        assert(v@.len() == vlen);
        let ghost vv = v@;
        let data = ImmutableData::new(v);
        if data.validate_size() {
            assert(pack_spec(vv, levels as nat) == Some((vv, Seq::<Seq<u8>>::empty())));
            assert(done + Seq::<Seq<u8>>::empty() =~= done);
            return Ok(data);
        }
        if levels == 0 {
            return Err(CoreError::SelfEncryptionFailure);
        }
        let bytes = data.serialise();
        let dm = match encode_layer(client, bytes.as_slice()) {
            Ok(dm) => dm,
            Err(e) => return Err(e),
        };
        let ghost cs = encode_layer_spec(idata_bytes(data@))->Some_0.1;
        proof {
            lemma_store_put_all_append(start, done, cs);
            lemma_put_all_grows(start, done + cs);
            match pack_spec(encoding_bytes(EncodingModel::DataMap(dm@)), (levels - 1) as nat) {
                Some((root, more)) => {
                    assert(done + (cs + more) =~= (done + cs) + more);
                },
                None => {},
            }
            done = done + cs;
        }
        v = serialise_encoding(&DataTypeEncoding::DataMap(dm));
        levels = levels - 1;
    }
}

/// Walks from the root object inward, through every data map layer, to the
/// serialised bytes at its heart.
pub fn unpack<C: Client>(client: &C, data: &ImmutableData) -> (r: Result<Vec<u8>, CoreError>)
    requires
        client.inv(),
    ensures
        outcome(
            bytes_result(r),
            unpack_spec(data@, client.stored(), MAX_PACK_LEVELS as nat),
            client.infallible() || !unpack_reads(data@, client.stored(), MAX_PACK_LEVELS as nat),
        ),
{
    let mut cur: Vec<u8> = vstd::slice::slice_to_vec(data.value().as_slice());
    let mut levels: usize = MAX_PACK_LEVELS;
    loop
        invariant
            client.inv(),
            levels <= MAX_PACK_LEVELS,
            unpack_spec(data@, client.stored(), MAX_PACK_LEVELS as nat) == unpack_spec(
                cur@,
                client.stored(),
                levels as nat,
            ),
            unpack_reads(cur@, client.stored(), levels as nat) ==> unpack_reads(
                data@,
                client.stored(),
                MAX_PACK_LEVELS as nat,
            ),
        decreases levels,
    {
        let enc = match deserialise_encoding(cur.as_slice()) {
            Ok(e) => e,
            Err(e) => return Err(e),
        };
        match enc {
            DataTypeEncoding::Serialised(b) => {
                return Ok(b);
            },
            DataTypeEncoding::DataMap(dm) => {
                if levels == 0 {
                    return Err(CoreError::SelfEncryptionFailure);
                }
                let bytes = match decode_layer(client, &dm) {
                    Ok(b) => b,
                    Err(e) => return Err(e),
                };
                match ImmutableData::deserialise(bytes.as_slice()) {
                    Some(inner) => {
                        cur = inner.into_value();
                    },
                    None => return Err(CoreError::DecodeFailure),
                }
                levels = levels - 1;
            },
        }
    }
}

/// Creates immutable data out of `value`: self-encrypts it, stores the
/// chunks through `client`, seals the data map under `encryption_key` when
/// one is given, and packs the result into a root that fits one chunk. The
/// root is returned, not stored. The same value and key always give the same
/// root and the same chunks.
pub fn create<C: Client>(
    client: &mut C,
    value: &[u8],
    encryption_key: Option<SymmetricKey>,
) -> (r: Result<ImmutableData, CoreError>)
    requires
        old(client).inv(),
    ensures
        final(client).inv(),
        final(client).infallible() == old(client).infallible(),
        grows(old(client).stored(), final(client).stored()),
        created(
            r,
            create_spec(value@, key_view(encryption_key)),
            old(client).stored(),
            final(client).stored(),
            old(client).infallible(),
            create_writes(value@, key_view(encryption_key)),
        ),
        r != Err::<ImmutableData, CoreError>(CoreError::CryptoFailure),
        r is Ok ==> fits_one_chunk(r->Ok_0@),
{
    let ghost start = client.stored();
    let dm = match encode_layer(client, value) {
        Ok(dm) => dm,
        Err(e) => return Err(e),
    };
    let ghost cs = encode_layer_spec(value@)->Some_0.1;
    let ghost mid = client.stored();
    let serialised = serialise_data_map(&dm);
    let sealed = match encryption_key {
        Some(key) => {
            let nonce = derive_nonce(&key, serialised.as_slice());
            match seal_envelope(serialised.as_slice(), &key, &nonce) {
                Ok(b) => b,
                Err(e) => return Err(e),
            }
        },
        None => serialised,
    };
    let slen = sealed.len();
    assert(sealed@.len() == slen);
    let encoded = serialise_encoding(&DataTypeEncoding::Serialised(sealed));
    assert(encoded@ == first_encoding(value@, key_view(encryption_key)));
    let root = match pack(client, encoded) {
        Ok(d) => d,
        Err(e) => return Err(e),
    };
    proof {
        let more = pack_spec(encoding_bytes(EncodingModel::Serialised(sealed@)), MAX_PACK_LEVELS as nat)->Some_0.1;
        lemma_store_put_all_append(start, cs, more);
        lemma_pack_fits(encoding_bytes(EncodingModel::Serialised(sealed@)), MAX_PACK_LEVELS as nat);
    }
    Ok(root)
}

/// Reads back the bytes that `create` made `data` out of, opening the
/// envelope with `decryption_key` when one is given.
pub fn extract_value<C: Client>(
    client: &C,
    data: &ImmutableData,
    decryption_key: Option<SymmetricKey>,
) -> (r: Result<Vec<u8>, CoreError>)
    requires
        client.inv(),
    ensures
        outcome(
            bytes_result(r),
            extract_spec(data@, key_view(decryption_key), client.stored()),
            client.infallible() || !extract_reads(
                data@,
                key_view(decryption_key),
                client.stored(),
            ),
        ),
{
    let value = match unpack(client, data) {
        Ok(v) => v,
        Err(e) => return Err(e),
    };
    let plain = match decryption_key {
        Some(key) => match open_envelope(value.as_slice(), &key) {
            Ok(p) => p,
            Err(e) => return Err(e),
        },
        None => value,
    };
    let dm = match deserialise_data_map(plain.as_slice()) {
        Ok(dm) => dm,
        Err(e) => return Err(e),
    };
    decode_layer(client, &dm)
}

/// Fetches the root named `name` and reads back its bytes, opening the
/// envelope with `decryption_key` when one is given.
pub fn get_value<C: Client>(
    client: &C,
    name: &Vec<u8>,
    decryption_key: Option<SymmetricKey>,
) -> (r: Result<Vec<u8>, CoreError>)
    requires
        client.inv(),
    ensures
        outcome(
            bytes_result(r),
            get_value_spec(name@, key_view(decryption_key), client.stored()),
            client.infallible(),
        ),
{
    let data = match client.get_idata(name) {
        Ok(d) => d,
        Err(e) => return Err(e),
    };
    if !crate::client::bytes_equal(data.name().as_slice(), name.as_slice()) {
        return Err(CoreError::ChunkCorrupt);
    }
    extract_value(client, &data, decryption_key)
}

/// The serialised data map, sealed or not, that creating `value` packs.
pub open spec fn created_map_spec(value: Seq<u8>, key: Option<Seq<u8>>) -> Seq<u8> {
    sealed_map_spec(data_map_bytes(encode_layer_spec(value)->Some_0.0), key)->Ok_0
}

proof fn lemma_serves_split(st: Map<Seq<u8>, Seq<u8>>, a: Seq<Seq<u8>>, b: Seq<Seq<u8>>)
    requires
        serves_all(st, a + b),
    ensures
        serves_all(st, a),
        serves_all(st, b),
{
    assert forall|i: int| 0 <= i < a.len() implies {
        &&& st.contains_key(content_name(#[trigger] a[i]))
        &&& st[content_name(a[i])] == a[i]
    } by {
        assert((a + b)[i] == a[i]);
    }
    assert forall|i: int| 0 <= i < b.len() implies {
        &&& st.contains_key(content_name(#[trigger] b[i]))
        &&& st[content_name(b[i])] == b[i]
    } by {
        assert((a + b)[a.len() + i] == b[i]);
    }
}

/// Unwrapping the root of a create, against a store that serves every chunk
/// the create put, walks back to the serialised (and possibly sealed) data
/// map.
proof fn lemma_unpack_created(st: Map<Seq<u8>, Seq<u8>>, value: Seq<u8>, key: Option<Seq<u8>>)
    requires
        create_spec(value, key) is Ok,
        serves_all(st, create_spec(value, key)->Ok_0.1),
    ensures
        unpack_spec(create_spec(value, key)->Ok_0.0, st, MAX_PACK_LEVELS as nat) == Ok::<
            Seq<u8>,
            CoreError,
        >(created_map_spec(value, key)),
        serves_all(st, encode_layer_spec(value)->Some_0.1),
{
    let (dm, cs1) = encode_layer_spec(value)->Some_0;
    let s = created_map_spec(value, key);
    let v0 = encoding_bytes(EncodingModel::Serialised(s));
    let more = pack_spec(v0, MAX_PACK_LEVELS as nat)->Some_0.1;
    assert(create_spec(value, key)->Ok_0.1 == cs1 + more);
    lemma_serves_split(st, cs1, more);
    lemma_parse_encoding(EncodingModel::Serialised(s));
    assert forall|m: nat| m >= 0 implies #[trigger] unpack_spec(v0, st, m) == Ok::<
        Seq<u8>,
        CoreError,
    >(s) by {}
    lemma_unpack_packed(v0, MAX_PACK_LEVELS as nat, st, s, 0);
}

/// Round trip: reading back the root of a create, with the key it was
/// created with (or with none when it had none), gives back the bytes it was
/// made of, from any store that still serves every chunk the create put.
pub proof fn lemma_round_trip(st: Map<Seq<u8>, Seq<u8>>, value: Seq<u8>, key: Option<Seq<u8>>)
    requires
        create_spec(value, key) is Ok,
        serves_all(st, create_spec(value, key)->Ok_0.1),
    ensures
        extract_spec(create_spec(value, key)->Ok_0.0, key, st) == Ok::<Seq<u8>, CoreError>(value),
{
    let (dm, cs1) = encode_layer_spec(value)->Some_0;
    lemma_unpack_created(st, value, key);
    match key {
        Some(k) => {
            lemma_open_sealed(data_map_bytes(dm), k, nonce_for(k, data_map_bytes(dm)));
        },
        None => {},
    }
    lemma_parse_data_map(dm);
    lemma_decode_encoded_layer(value, st);
}

/// Reading data created without a key, with a key, fails to decode: the
/// serialised data map is no envelope.
pub proof fn lemma_keyed_read_of_plain_data_fails(
    st: Map<Seq<u8>, Seq<u8>>,
    value: Seq<u8>,
    key: Seq<u8>,
)
    requires
        create_spec(value, None) is Ok,
        serves_all(st, create_spec(value, None)->Ok_0.1),
    ensures
        extract_spec(create_spec(value, None)->Ok_0.0, Some(key), st) == Err::<Seq<u8>, CoreError>(
            CoreError::DecodeFailure,
        ),
{
    let (dm, cs1) = encode_layer_spec(value)->Some_0;
    lemma_unpack_created(st, value, None);
    let nil = Seq::<u8>::empty();
    match dm {
        DataMapModel::Content(b) => {
            assert(data_map_bytes(dm) =~= nil + tag_bytes(TAG_CONTENT) + crate::wire::blob_bytes(b));
            lemma_parse_tag(TAG_CONTENT, nil, crate::wire::blob_bytes(b));
        },
        DataMapModel::Chunks(e, ns) => {
            let rest = crate::wire::blob_bytes(e) + crate::wire::u64_bytes(ns.len() as u64)
                + crate::data_map::names_bytes(ns);
            assert(data_map_bytes(dm) =~= nil + tag_bytes(TAG_CHUNKS) + rest);
            lemma_parse_tag(TAG_CHUNKS, nil, rest);
        },
    }
    assert(parse_envelope(data_map_bytes(dm)) is None);
}

/// Fetching by name the stored root of data created without a key, and
/// reading it with a key, fails to decode rather than return bytes.
pub proof fn lemma_keyed_get_of_plain_data_fails(
    st: Map<Seq<u8>, Seq<u8>>,
    value: Seq<u8>,
    key: Seq<u8>,
)
    requires
        create_spec(value, None) is Ok,
        serves_all(
            st,
            create_spec(value, None)->Ok_0.1.push(create_spec(value, None)->Ok_0.0),
        ),
    ensures
        get_value_spec(content_name(create_spec(value, None)->Ok_0.0), Some(key), st) == Err::<
            Seq<u8>,
            CoreError,
        >(CoreError::DecodeFailure),
{
    let (root, cs) = create_spec(value, None)->Ok_0;
    assert(cs.push(root) =~= cs + seq![root]);
    lemma_serves_split(st, cs, seq![root]);
    assert(seq![root][0] == root);
    lemma_keyed_read_of_plain_data_fails(st, value, key);
}

/// Reading data created with a key, without one, fails to decode: the
/// envelope is no serialised data map.
pub proof fn lemma_plain_read_of_sealed_data_fails(
    st: Map<Seq<u8>, Seq<u8>>,
    value: Seq<u8>,
    key: Seq<u8>,
)
    requires
        create_spec(value, Some(key)) is Ok,
        serves_all(st, create_spec(value, Some(key))->Ok_0.1),
    ensures
        extract_spec(create_spec(value, Some(key))->Ok_0.0, None, st) == Err::<
            Seq<u8>,
            CoreError,
        >(CoreError::DecodeFailure),
{
    lemma_unpack_created(st, value, Some(key));
    let s = created_map_spec(value, Some(key));
    let (dm, cs1) = encode_layer_spec(value)->Some_0;
    let nonce = nonce_for(key, data_map_bytes(dm));
    let b = secretbox_sealed(data_map_bytes(dm), key, nonce)->0;
    let nil = Seq::<u8>::empty();
    assert(s =~= nil + tag_bytes(TAG_SEALED) + (nonce + crate::wire::blob_bytes(b)));
    lemma_parse_tag(TAG_SEALED, nil, nonce + crate::wire::blob_bytes(b));
    assert(parse_data_map(s) is None);
}

/// A store that already holds every address of `cs` is left as it is by
/// putting them.
proof fn lemma_put_all_present(st: Map<Seq<u8>, Seq<u8>>, cs: Seq<Seq<u8>>)
    requires
        forall|i: int| 0 <= i < cs.len() ==> st.contains_key(content_name(#[trigger] cs[i])),
    ensures
        store_put_all(st, cs) == st,
    decreases cs.len(),
{
    if cs.len() > 0 {
        let init = cs.drop_last();
        assert forall|i: int| 0 <= i < init.len() implies st.contains_key(
            content_name(#[trigger] init[i]),
        ) by {
            assert(init[i] == cs[i]);
        }
        lemma_put_all_present(st, init);
        assert(st.contains_key(content_name(cs[cs.len() - 1])));
    }
}

/// Idempotent store: creating the same data a second time, with the same
/// key, stores nothing new.
pub proof fn lemma_create_twice_stores_nothing_new(
    st: Map<Seq<u8>, Seq<u8>>,
    value: Seq<u8>,
    key: Option<Seq<u8>>,
)
    requires
        create_spec(value, key) is Ok,
    ensures
        store_put_all(
            store_put_all(st, create_spec(value, key)->Ok_0.1),
            create_spec(value, key)->Ok_0.1,
        ) == store_put_all(st, create_spec(value, key)->Ok_0.1),
{
    let cs = create_spec(value, key)->Ok_0.1;
    let after = store_put_all(st, cs);
    assert forall|i: int| 0 <= i < cs.len() implies after.contains_key(
        content_name(#[trigger] cs[i]),
    ) by {
        lemma_put_all_contains(st, cs, i);
    }
    lemma_put_all_present(after, cs);
}

/// Every chunk put is present afterwards under its address.
proof fn lemma_put_all_contains(st: Map<Seq<u8>, Seq<u8>>, cs: Seq<Seq<u8>>, i: int)
    requires
        0 <= i < cs.len(),
    ensures
        store_put_all(st, cs).contains_key(content_name(cs[i])),
    decreases cs.len(),
{
    let init = cs.drop_last();
    if i < cs.len() - 1 {
        lemma_put_all_contains(st, init, i);
        assert(init[i] == cs[i]);
    }
}

} // verus!
