use vstd::prelude::*;
use crypto::ed25519;

verus! {

/// The Ed25519 key pair that a seed determines: the signing secret first,
/// then the public key.
pub uninterp spec fn ed25519_keypair(seed: Seq<u8>) -> (Seq<u8>, Seq<u8>);

/// The Ed25519 signature of a message under a signing secret.
pub uninterp spec fn ed25519_signature(message: Seq<u8>, secret_key: Seq<u8>) -> Seq<u8>;

/// Whether an Ed25519 signature of a message holds under a public key.
pub uninterp spec fn ed25519_verify(message: Seq<u8>, public_key: Seq<u8>, signature: Seq<u8>) -> bool;

/// The size of a signing secret.
pub const SECRET_KEY_LEN: usize = 64;

/// The size of a public key.
pub const PUBLIC_KEY_LEN: usize = 32;

/// The size of a signature.
pub const SIGNATURE_LEN: usize = 64;

/// `crypto::ed25519::keypair`: derives the 64-byte signing secret and the
/// 32-byte public key from a seed; both depend on the seed alone.
#[verifier::external_body]
pub(crate) fn keypair(seed: &[u8]) -> (pair: (Vec<u8>, Vec<u8>))
    ensures
        (pair.0@, pair.1@) == ed25519_keypair(seed@),
        pair.0@.len() == SECRET_KEY_LEN,
        pair.1@.len() == PUBLIC_KEY_LEN,
{
    let (secret, public) = ed25519::keypair(seed);
    (secret.to_vec(), public.to_vec())
}

/// `crypto::ed25519::signature`: the 64-byte signature of `message`; it
/// depends on the message and the secret alone. The outside function reads
/// the first 64 bytes of the secret and stops the program on a shorter one.
#[verifier::external_body]
pub(crate) fn sign(message: &[u8], secret_key: &[u8]) -> (sig: Vec<u8>)
    requires
        secret_key@.len() >= SECRET_KEY_LEN,
    ensures
        sig@ == ed25519_signature(message@, secret_key@),
        sig@.len() == SIGNATURE_LEN,
{
    ed25519::signature(message, secret_key).to_vec()
}

/// `crypto::ed25519::verify`: whether `signature` holds for `message` under
/// `public_key`; the answer depends on the three alone. The outside function
/// reads 32 bytes of the key and 64 bytes of the signature and stops the
/// program where either is shorter.
#[verifier::external_body]
pub(crate) fn verify(message: &[u8], public_key: &[u8], signature: &[u8]) -> (ok: bool)
    requires
        public_key@.len() >= PUBLIC_KEY_LEN,
        signature@.len() >= SIGNATURE_LEN,
    ensures
        ok == ed25519_verify(message@, public_key@, signature@),
{
    ed25519::verify(message, public_key, signature)
}

} // verus!
