//! The optional symmetric envelope around a serialised data map: an
//! authenticated secret box under a caller's key, with its nonce carried along.
use crate::error::CoreError;
use crate::idata::{content_name, hash_content};
use crate::wire::{
    blob_bytes, lemma_parse_blob, lemma_parse_tag, parse_blob, parse_tag, push_blob, push_tag,
    read_blob, read_tag, tag_bytes,
};
use crypto_secretbox::aead::{Aead, KeyInit};
use vstd::prelude::*;
use vstd::slice::slice_subrange;

verus! {

/// Tag that opens every envelope. Serialised data maps open with another tag,
/// so an envelope is never mistaken for a data map, nor the reverse.
pub const TAG_SEALED: u32 = 2;

/// A 256-bit key shared by whoever may read the data map.
#[derive(Clone, Copy)]
pub struct SymmetricKey(pub [u8; 32]);

/// A 192-bit nonce, used once per sealing.
#[derive(Clone, Copy)]
pub struct Nonce(pub [u8; 24]);

/// The secret box of `plain` under `key` and `nonce`, if sealing succeeds.
pub uninterp spec fn secretbox_sealed(plain: Seq<u8>, key: Seq<u8>, nonce: Seq<u8>) -> Option<
    Seq<u8>,
>;

/// The plaintext of the secret box `boxed`, if it authenticates under `key` and `nonce`.
pub uninterp spec fn secretbox_opened(boxed: Seq<u8>, key: Seq<u8>, nonce: Seq<u8>) -> Option<
    Seq<u8>,
>;

/// Relies on crypto_secretbox's XSalsa20Poly1305 `encrypt` (no associated
/// data): it succeeds, the box is the plaintext plus a 16-byte tag, it
/// depends on its arguments alone, and `decrypt` with the same key and nonce
/// gives the plaintext back.
#[verifier::external_body]
fn secretbox_seal(plain: &[u8], key: &[u8; 32], nonce: &[u8; 24]) -> (r: Option<Vec<u8>>)
    ensures
        r is Some <==> secretbox_sealed(plain@, key@, nonce@) is Some,
        r is Some ==> secretbox_sealed(plain@, key@, nonce@) == Some(r->0@),
        r is Some ==> secretbox_opened(r->0@, key@, nonce@) == Some(plain@),
        r is Some,
        r->0@.len() == plain@.len() + 16,
{
    let cipher = crypto_secretbox::XSalsa20Poly1305::new(key.into());
    cipher.encrypt(nonce.into(), plain).ok()
}

/// Relies on crypto_secretbox's XSalsa20Poly1305 `decrypt` (no associated
/// data): the plaintext, or a failure when the tag does not authenticate.
#[verifier::external_body]
fn secretbox_open(boxed: &[u8], key: &[u8; 32], nonce: &[u8; 24]) -> (r: Option<Vec<u8>>)
    ensures
        match r {
            Some(p) => secretbox_opened(boxed@, key@, nonce@) == Some(p@),
            None => secretbox_opened(boxed@, key@, nonce@) is None,
        },
{
    let cipher = crypto_secretbox::XSalsa20Poly1305::new(key.into());
    cipher.decrypt(nonce.into(), boxed).ok()
}

/// The nonce that sealing `plain` under `key` uses: the first 24 bytes of
/// the digest of the key followed by the plaintext. The same map under the
/// same key always gets the same envelope.
pub open spec fn nonce_for(key: Seq<u8>, plain: Seq<u8>) -> Seq<u8> {
    content_name(key + plain).subrange(0, 24)
}

/// Derives the nonce for sealing `plain` under `key`.
pub fn derive_nonce(key: &SymmetricKey, plain: &[u8]) -> (r: Nonce)
    ensures
        content_name(key.0@ + plain@).len() == 32,
        r.0@ == nonce_for(key.0@, plain@),
{
    let mut buf: Vec<u8> = Vec::new();
    buf.extend_from_slice(key.0.as_slice());
    buf.extend_from_slice(plain);
    let digest = hash_content(buf.as_slice());
    let mut nonce: [u8; 24] = [0u8; 24];
    let mut i: usize = 0;
    while i < 24
        invariant
            i <= 24,
            digest@.len() == 32,
            forall|j: int| 0 <= j < i ==> nonce@[j] == digest@[j],
        decreases 24 - i,
    {
        nonce[i] = digest[i];
        i = i + 1;
    }
    assert(nonce@ =~= digest@.subrange(0, 24));
    assert(buf@ =~= key.0@ + plain@);
    Nonce(nonce)
}

/// The serialised envelope: its tag, the nonce, then the box behind its length.
pub open spec fn envelope_bytes(nonce: Seq<u8>, boxed: Seq<u8>) -> Seq<u8> {
    tag_bytes(TAG_SEALED) + nonce + blob_bytes(boxed)
}

/// The nonce and the box of an envelope, if `s` is exactly one.
pub open spec fn parse_envelope(s: Seq<u8>) -> Option<(Seq<u8>, Seq<u8>)> {
    match parse_tag(s, 0) {
        Some((t, p)) => if t == TAG_SEALED && s.len() >= 28 {
            match parse_blob(s, 28) {
                Some((b, q)) => if q == s.len() {
                    Some((s.subrange(4, 28), b))
                } else {
                    None
                },
                None => None,
            }
        } else {
            None
        },
        None => None,
    }
}

/// What sealing `plain` gives.
pub open spec fn seal_spec(plain: Seq<u8>, key: Seq<u8>, nonce: Seq<u8>) -> Result<
    Seq<u8>,
    CoreError,
> {
    match secretbox_sealed(plain, key, nonce) {
        Some(b) => Ok(envelope_bytes(nonce, b)),
        None => Err(CoreError::CryptoFailure),
    }
}

/// What opening the envelope `s` gives.
pub open spec fn open_spec(s: Seq<u8>, key: Seq<u8>) -> Result<Seq<u8>, CoreError> {
    match parse_envelope(s) {
        Some((nonce, b)) => match secretbox_opened(b, key, nonce) {
            Some(p) => Ok(p),
            None => Err(CoreError::CryptoFailure),
        },
        None => Err(CoreError::DecodeFailure),
    }
}

pub proof fn lemma_parse_envelope(nonce: Seq<u8>, boxed: Seq<u8>)
    requires
        nonce.len() == 24,
        boxed.len() <= u64::MAX,
    ensures
        parse_envelope(envelope_bytes(nonce, boxed)) == Some((nonce, boxed)),
{
    let nil = Seq::<u8>::empty();
    let s = envelope_bytes(nonce, boxed);
    assert(s =~= nil + tag_bytes(TAG_SEALED) + (nonce + blob_bytes(boxed)));
    lemma_parse_tag(TAG_SEALED, nil, nonce + blob_bytes(boxed));
    assert(s =~= (tag_bytes(TAG_SEALED) + nonce) + blob_bytes(boxed) + nil);
    lemma_parse_blob(boxed, tag_bytes(TAG_SEALED) + nonce, nil);
    assert(s.subrange(4, 28) =~= nonce);
}

/// A sealed envelope opens, under the same key, to what was sealed.
pub proof fn lemma_open_sealed(plain: Seq<u8>, key: Seq<u8>, nonce: Seq<u8>)
    requires
        nonce.len() == 24,
        seal_spec(plain, key, nonce) is Ok,
        secretbox_opened(secretbox_sealed(plain, key, nonce)->0, key, nonce) == Some(plain),
        secretbox_sealed(plain, key, nonce)->0.len() <= u64::MAX,
    ensures
        open_spec(seal_spec(plain, key, nonce)->Ok_0, key) == Ok::<Seq<u8>, CoreError>(plain),
{
    lemma_parse_envelope(nonce, secretbox_sealed(plain, key, nonce)->0);
}

/// Seals `plain` under `key` and `nonce` into an envelope.
pub fn seal_envelope(plain: &[u8], key: &SymmetricKey, nonce: &Nonce) -> (r: Result<
    Vec<u8>,
    CoreError,
>)
    ensures
        match r {
            Ok(s) => seal_spec(plain@, key.0@, nonce.0@) == Ok::<Seq<u8>, CoreError>(s@)
                && secretbox_opened(secretbox_sealed(plain@, key.0@, nonce.0@)->0, key.0@, nonce.0@)
                == Some(plain@) && secretbox_sealed(plain@, key.0@, nonce.0@)->0.len()
                <= u64::MAX,
            Err(e) => seal_spec(plain@, key.0@, nonce.0@) == Err::<Seq<u8>, CoreError>(e),
        },
        r is Ok,
        secretbox_sealed(plain@, key.0@, nonce.0@)->0.len() == plain@.len() + 16,
{
    match secretbox_seal(plain, &key.0, &nonce.0) {
        Some(b) => {
            let blen = b.len();
            assert(b@.len() == blen);
            let mut out: Vec<u8> = Vec::new();
            push_tag(&mut out, TAG_SEALED);
            out.extend_from_slice(nonce.0.as_slice());
            push_blob(&mut out, b.as_slice());
            assert(out@ =~= envelope_bytes(nonce.0@, b@));
            Ok(out)
        },
        None => Err(CoreError::CryptoFailure),
    }
}

/// Opens the envelope `s` under `key`.
pub fn open_envelope(s: &[u8], key: &SymmetricKey) -> (r: Result<Vec<u8>, CoreError>)
    ensures
        match r {
            Ok(p) => open_spec(s@, key.0@) == Ok::<Seq<u8>, CoreError>(p@),
            Err(e) => open_spec(s@, key.0@) == Err::<Seq<u8>, CoreError>(e),
        },
{
    let (t, _p) = match read_tag(s, 0) {
        Some(x) => x,
        None => return Err(CoreError::DecodeFailure),
    };
    if t != TAG_SEALED || s.len() < 28 {
        return Err(CoreError::DecodeFailure);
    }
    let (b, q) = match read_blob(s, 28) {
        Some(x) => x,
        None => return Err(CoreError::DecodeFailure),
    };
    if q != s.len() {
        return Err(CoreError::DecodeFailure);
    }
    let n = slice_subrange(s, 4, 28);
    let mut nonce: [u8; 24] = [0u8; 24];
    let mut i: usize = 0;
    while i < 24
        invariant
            i <= 24,
            n@.len() == 24,
            forall|j: int| 0 <= j < i ==> nonce@[j] == n@[j],
        decreases 24 - i,
    {
        nonce[i] = n[i];
        i = i + 1;
    }
    assert(nonce@ =~= s@.subrange(4, 28));
    match secretbox_open(b.as_slice(), &key.0, &nonce) {
        Some(p) => Ok(p),
        None => Err(CoreError::CryptoFailure),
    }
}

} // verus!
