//! The network object that carries one payload under the hash of its bytes.
use crate::wire::{blob_bytes, parse_blob, push_blob, read_blob};
use vstd::prelude::*;

verus! {

/// The largest serialised immutable data object that fits in one network
/// chunk: the largest chunk self-encryption writes (4 MiB), with room for
/// the object's framing.
pub const MAX_IMMUTABLE_DATA_SIZE_IN_BYTES: u64 = 4 * 1024 * 1024 + 10 * 1024;

/// The content address of a byte string: its 32-byte digest.
pub uninterp spec fn content_name(content: Seq<u8>) -> Seq<u8>;

/// Relies on self_encryption::hash::content_hash: a 32-byte digest that
/// depends on the bytes alone.
#[verifier::external_body]
pub(crate) fn hash_content(content: &[u8]) -> (r: Vec<u8>)
    ensures
        r@ == content_name(content@),
        r@.len() == 32,
{
    self_encryption::hash::content_hash(content).0.to_vec()
}

/// The serialised form of an immutable data object holding `value`.
pub open spec fn idata_bytes(value: Seq<u8>) -> Seq<u8> {
    blob_bytes(value)
}

/// Whether an object holding `value` fits in one chunk.
pub open spec fn fits_one_chunk(value: Seq<u8>) -> bool {
    8 + value.len() <= MAX_IMMUTABLE_DATA_SIZE_IN_BYTES
}

/// The value held by a serialised immutable data object, if `bytes` is one
/// and nothing follows it.
pub open spec fn parse_idata(bytes: Seq<u8>) -> Option<Seq<u8>> {
    match parse_blob(bytes, 0) {
        Some((v, end)) => if end == bytes.len() {
            Some(v)
        } else {
            None
        },
        None => None,
    }
}

pub proof fn lemma_parse_idata(value: Seq<u8>)
    requires
        value.len() <= u64::MAX,
    ensures
        parse_idata(idata_bytes(value)) == Some(value),
{
    crate::wire::lemma_parse_blob(value, Seq::empty(), Seq::empty());
    assert(Seq::<u8>::empty() + blob_bytes(value) + Seq::<u8>::empty() =~= blob_bytes(value));
}

/// A payload together with its content address.
pub struct ImmutableData {
    name: Vec<u8>,
    value: Vec<u8>,
}

impl View for ImmutableData {
    type V = Seq<u8>;

    closed spec fn view(&self) -> Seq<u8> {
        self.value@
    }
}

impl ImmutableData {
    #[verifier::type_invariant]
    spec fn named_by_content(&self) -> bool {
        self.name@ == content_name(self.value@) && self.name@.len() == 32
    }

    /// Wraps `value`, addressing it by its digest.
    pub fn new(value: Vec<u8>) -> (r: Self)
        ensures
            r@ == value@,
    {
        let name = hash_content(value.as_slice());
        ImmutableData { name, value }
    }

    /// The content address: the digest of the value.
    pub fn name(&self) -> (r: &Vec<u8>)
        ensures
            r@ == content_name(self@),
            r@.len() == 32,
    {
        proof {
            use_type_invariant(self);
        }
        &self.name
    }

    /// The payload.
    pub fn value(&self) -> (r: &Vec<u8>)
        ensures
            r@ == self@,
    {
        &self.value
    }

    /// Takes the payload out.
    pub fn into_value(self) -> (r: Vec<u8>)
        ensures
            r@ == self@,
    {
        self.value
    }

    /// The length of the serialised object, saturating at `u64::MAX`.
    pub fn serialised_size(&self) -> (r: u64)
        ensures
            r == if 8 + self@.len() <= u64::MAX {
                8 + self@.len() as int
            } else {
                u64::MAX as int
            },
    {
        (self.value.len() as u64).saturating_add(8)
    }

    /// Whether the serialised object fits in one chunk.
    pub fn validate_size(&self) -> (r: bool)
        ensures
            r == fits_one_chunk(self@),
    {
        self.value.len() as u64 <= MAX_IMMUTABLE_DATA_SIZE_IN_BYTES - 8
    }

    /// The serialised object: the value behind its length.
    pub fn serialise(&self) -> (r: Vec<u8>)
        ensures
            r@ == idata_bytes(self@),
    {
        let mut out: Vec<u8> = Vec::new();
        push_blob(&mut out, self.value.as_slice());
        assert(out@ =~= idata_bytes(self@));
        out
    }

    /// Reads back a serialised object; `None` unless `bytes` is exactly one.
    pub fn deserialise(bytes: &[u8]) -> (r: Option<Self>)
        ensures
            match r {
                Some(d) => parse_idata(bytes@) == Some(d@),
                None => parse_idata(bytes@) is None,
            },
    {
        match read_blob(bytes, 0) {
            Some((v, end)) => {
                if end == bytes.len() {
                    Some(ImmutableData::new(v))
                } else {
                    None
                }
            },
            None => None,
        }
    }
}

} // verus!
