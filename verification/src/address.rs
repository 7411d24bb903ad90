use vstd::prelude::*;
use vstd::utf8::*;
use bitcoincash_addr::{Address, HashType, Network, Scheme};

verus! {

/// The Base58 text of a script-hash address on the main network with the
/// given body.
pub uninterp spec fn address_text(body: Seq<u8>) -> Seq<char>;

/// The body that an address text decodes to, if it decodes.
pub uninterp spec fn address_body(text: Seq<char>) -> Option<Seq<u8>>;

/// The length of a public-key hash, the body of every address of this ledger.
pub const BODY_LEN: usize = 20;

/// The byte of the colon, which parts a prefix from the payload in the
/// prefixed address form. This ledger issues and reads the Base58 form only.
pub const PREFIX_MARK: u8 = 0x3a;

/// Whether a text is free of the prefix mark.
pub open spec fn unprefixed(text: Seq<char>) -> bool {
    !encode_utf8(text).contains(PREFIX_MARK)
}

/// `bitcoincash_addr::Address::encode` on a Base58 script-hash address of
/// the main network. The text depends on the body alone and is made of
/// Base58 digits, so it holds no colon. For a 20-byte body the text is 25
/// bytes in Base58 (version, body, checksum), which `Address::decode` reads
/// back to the same body. The Base58 form never fails to encode.
#[verifier::external_body]
pub(crate) fn encode_address(body: &Vec<u8>) -> (text: String)
    ensures
        text@ == address_text(body@),
        unprefixed(text@),
        body@.len() == BODY_LEN ==> address_body(text@) == Some(body@),
{
    let address = Address::new(body.clone(), Scheme::Base58, HashType::Script, Network::Main);
    match address.encode() {
        Ok(text) => text,
        Err(_) => String::new(),
    }
}

/// `bitcoincash_addr::Address::decode` on a text without a colon: the
/// prefixed form is then refused at once and the Base58 form decides, whose
/// body is always 20 bytes. The answer depends on the text alone.
#[verifier::external_body]
pub(crate) fn decode_address(text: &str) -> (body: Option<Vec<u8>>)
    requires
        unprefixed(text@),
    ensures
        body matches Some(b) ==> address_body(text@) == Some(b@) && b@.len() == BODY_LEN,
        body is None ==> address_body(text@) is None,
{
    match Address::decode(text) {
        Ok(address) => Some(address.body),
        Err(_) => None,
    }
}

/// The public-key hash that an address of this ledger stands for.
pub open spec fn decoded_body(text: Seq<char>) -> Option<Seq<u8>> {
    if unprefixed(text) {
        address_body(text)
    } else {
        None
    }
}

/// Decodes an address; the prefixed form and malformed text give nothing.
pub fn decode(text: &str) -> (body: Option<Vec<u8>>)
    ensures
        match body {
            Some(b) => decoded_body(text@) == Some(b@) && b@.len() == BODY_LEN,
            None => decoded_body(text@) is None,
        },
{
    let bytes = text.as_bytes();
    let mut i: usize = 0;
    while i < bytes.len()
        invariant
            i <= bytes.len(),
            bytes@ == encode_utf8(text@),
            forall|j: int| 0 <= j < i ==> bytes@[j] != PREFIX_MARK,
        decreases bytes.len() - i,
    {
        if bytes[i] == PREFIX_MARK {
            return None;
        }
        i += 1;
    }
    decode_address(text)
}

} // verus!
