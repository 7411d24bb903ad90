use vstd::prelude::*;
use rand::rngs::OsRng;
use rand::RngCore;
use std::time::{SystemTime, UNIX_EPOCH};

verus! {

/// `SystemTime::now` and `duration_since(UNIX_EPOCH)`: the milliseconds
/// since the Unix epoch, or nothing where the clock stands before it.
/// Nothing is known of the value.
#[verifier::external_body]
pub(crate) fn now_millis() -> Option<u128> {
    match SystemTime::now().duration_since(UNIX_EPOCH) {
        Ok(elapsed) => Some(elapsed.as_millis()),
        Err(_) => None,
    }
}

/// `OsRng::try_fill_bytes` on a buffer of 32 bytes: the filled buffer, or
/// nothing where the operating system gave no randomness. Only the length
/// is known of the bytes.
#[verifier::external_body]
pub(crate) fn random_seed() -> (seed: Option<Vec<u8>>)
    ensures
        seed matches Some(bytes) ==> bytes@.len() == 32,
{
    let mut bytes = vec![0u8; 32];
    match OsRng.try_fill_bytes(&mut bytes) {
        Ok(()) => Some(bytes),
        Err(_) => None,
    }
}

} // verus!
