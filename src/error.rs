use vstd::prelude::*;

verus! {

/// Every way an immutable-data operation can fail.
#[derive(Debug, Clone, Copy, PartialEq, Eq, Structural)]
pub enum CoreError {
    /// The client could not reach the network.
    NetworkUnavailable,
    /// The store holds nothing under a requested address.
    ChunkNotFound,
    /// The store returned bytes that do not hash to their address.
    ChunkCorrupt,
    /// A tagged union, data map or immutable data could not be decoded.
    DecodeFailure,
    /// The symmetric envelope failed to seal or to authenticate.
    CryptoFailure,
    /// Self-encryption refused its input or its chunks, or the packing depth
    /// was exceeded.
    SelfEncryptionFailure,
}

/// A byte-valued result, viewed.
pub open spec fn bytes_result(r: Result<Vec<u8>, CoreError>) -> Result<Seq<u8>, CoreError> {
    match r {
        Ok(v) => Ok(v@),
        Err(e) => Err(e),
    }
}

/// Whether `r` is `expected`, or a transport failure that only a fallible
/// client may report.
pub open spec fn outcome<T>(r: Result<T, CoreError>, expected: Result<T, CoreError>, infallible: bool) -> bool {
    r == expected || (r == Err::<T, CoreError>(CoreError::NetworkUnavailable) && !infallible)
}

} // verus!
