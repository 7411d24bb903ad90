use vstd::prelude::*;
use crypto::digest::Digest;
use crypto::ripemd160::Ripemd160;
use crypto::sha2::Sha256;

verus! {

/// The SHA-256 digest of a message: 32 bytes.
pub uninterp spec fn sha256(data: Seq<u8>) -> Seq<u8>;

/// The RIPEMD-160 digest of a message: 20 bytes.
pub uninterp spec fn ripemd160(data: Seq<u8>) -> Seq<u8>;

/// The hash engines count the message in bits in a `u64` and stop the
/// program when that count overflows; a message must stay below this many
/// bytes.
pub const MAX_MESSAGE_LEN: u64 = 0x2000_0000_0000_0000;

/// Whether a message of `len` bytes can be hashed.
pub open spec fn hashable(len: nat) -> bool {
    len < MAX_MESSAGE_LEN
}

/// `crypto::sha2::Sha256`: a fresh engine is fed `data` once and its
/// 32-byte result is read. The result depends on the message alone.
#[verifier::external_body]
pub(crate) fn sha256_digest(data: &[u8]) -> (out: Vec<u8>)
    requires
        hashable(data@.len()),
    ensures
        out@ == sha256(data@),
        out@.len() == 32,
{
    let mut hasher = Sha256::new();
    hasher.input(data);
    let mut out = vec![0u8; 32];
    hasher.result(&mut out);
    out
}

/// `crypto::ripemd160::Ripemd160`: a fresh engine is fed `data` once and
/// its 20-byte result is read. The result depends on the message alone.
#[verifier::external_body]
pub(crate) fn ripemd160_digest(data: &[u8]) -> (out: Vec<u8>)
    requires
        hashable(data@.len()),
    ensures
        out@ == ripemd160(data@),
        out@.len() == 20,
{
    let mut hasher = Ripemd160::new();
    hasher.input(data);
    let mut out = vec![0u8; 20];
    hasher.result(&mut out);
    out
}

} // verus!
