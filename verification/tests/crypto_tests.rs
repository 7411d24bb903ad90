use crypto::digest::Digest;
use crypto::ed25519;
use crypto::ripemd160::Ripemd160;
use crypto::sha2::Sha256;
use utxo_chain::address;
use utxo_chain::errors::LedgerError;
use utxo_chain::merkle::merge;
use utxo_chain::transaction::{Transaction, REWARD};
use utxo_chain::tx::{TxInput, TxOutput};
use utxo_chain::wallet::Wallet;

fn unhex(text: &str) -> Vec<u8> {
    (0..text.len() / 2).map(|i| u8::from_str_radix(&text[2 * i..2 * i + 2], 16).unwrap()).collect()
}

fn reference_tx_hash(tx: &Transaction) -> String {
    let vin: Vec<(String, i32, Vec<u8>, Vec<u8>)> = tx
        .vin
        .iter()
        .map(|i| (i.txid.clone(), i.vout, i.signature.clone(), i.pub_key.clone()))
        .collect();
    let vout: Vec<(i32, Vec<u8>)> =
        tx.vout.iter().map(|o| (o.value, o.pub_key_hash.clone())).collect();
    let bytes = bincode::serialize(&(tx.id.clone(), vin, vout)).unwrap();
    let mut hasher = Sha256::new();
    hasher.input(&bytes);
    hasher.result_str()
}

#[test]
fn merge_is_sha256_of_left_then_right() {
    // SHA-256 of "abc"
    assert_eq!(
        merge(&b"a".to_vec(), &b"bc".to_vec()),
        Ok(unhex("ba7816bf8f01cfea414140de5dae2223b00361a396177a9cb410ff61f20015ad"))
    );
    // SHA-256 of the empty message
    assert_eq!(
        merge(&vec![], &vec![]),
        Ok(unhex("e3b0c44298fc1c149afbf4c8996fb92427ae41e4649b934ca495991b7852b855"))
    );
}

#[test]
fn transaction_hash_is_hex_sha256_of_its_bytes() {
    let tx = Transaction {
        id: String::from("x"),
        vin: vec![TxInput { txid: String::from("p"), vout: 2, signature: vec![1], pub_key: vec![2] }],
        vout: vec![TxOutput { value: 9, pub_key_hash: vec![3; 20] }],
    };
    let hash = tx.hash().unwrap();
    assert_eq!(hash.len(), 64);
    assert_eq!(hash, reference_tx_hash(&tx));
    let mut other = tx.clone();
    other.vin[0].signature = vec![2];
    assert_ne!(other.hash().unwrap(), hash);
}

#[test]
fn hash_pub_key_is_ripemd160_of_sha256() {
    let mut key = Vec::new();
    Wallet::hash_pub_key(&mut key);
    // the well-known hash of the empty key
    assert_eq!(key, unhex("b472a266d0bd89c13706a4132ccfb16f7c3b9fcb"));

    let mut key = vec![0x42u8; 32];
    Wallet::hash_pub_key(&mut key);
    let mut inner = [0u8; 32];
    let mut sha = Sha256::new();
    sha.input(&[0x42u8; 32]);
    sha.result(&mut inner);
    let mut outer = [0u8; 20];
    let mut ripemd = Ripemd160::new();
    ripemd.input(&inner);
    ripemd.result(&mut outer);
    assert_eq!(key, outer.to_vec());
    assert_eq!(key.len(), 20);
}

#[test]
fn wallet_from_seed_is_the_ed25519_key_pair_of_the_seed() {
    // first test vector of RFC 8032
    let seed = unhex("9d61b19deffd5a60ba844af492ec2cc44449c5697b326919703bac031cae7f60");
    let wallet = Wallet::from_seed(&seed);
    assert_eq!(
        wallet.public_key,
        unhex("d75a980182b10ab7d54bfed3c964073a0ee172f3daa62325af021a68f707511a")
    );
    assert_eq!(wallet.private_key.len(), 64);
    assert_eq!(wallet.private_key[..32].to_vec(), seed);
    assert_eq!(wallet.private_key[32..].to_vec(), wallet.public_key);
}

#[test]
fn wallet_new_makes_distinct_key_pairs() {
    let a = Wallet::new().unwrap();
    let b = Wallet::new().unwrap();
    assert_eq!(a.private_key.len(), 64);
    assert_eq!(a.public_key.len(), 32);
    assert_ne!(a, b);
    assert_ne!(a.get_address(), b.get_address());
}

#[test]
fn address_of_wallet_decodes_to_the_hash_of_its_public_key() {
    let wallet = Wallet::from_seed(&[11u8; 32]);
    let address = wallet.get_address();
    let mut hash = wallet.public_key.clone();
    Wallet::hash_pub_key(&mut hash);
    assert_eq!(address::decode(&address), Some(hash.clone()));
    let expected = bitcoincash_addr::Address::new(
        hash.clone(),
        bitcoincash_addr::Scheme::Base58,
        bitcoincash_addr::HashType::Script,
        bitcoincash_addr::Network::Main,
    )
    .encode()
    .unwrap();
    assert_eq!(address, expected);
    assert_ne!(address.as_bytes(), &hash[..]);
    let output = TxOutput::new(7, address).unwrap();
    assert_eq!(output, TxOutput { value: 7, pub_key_hash: hash });
}

#[test]
fn decode_reads_base58_addresses() {
    assert_eq!(
        address::decode("1NM2HFXin4cEQRBLjkNZAS98qLX9JKzjKn"),
        Some(unhex("ea2407829a5055466b27784cde8cf463167946bf"))
    );
}

#[test]
fn decode_refuses_malformed_and_prefixed_addresses() {
    assert_eq!(address::decode(""), None);
    assert_eq!(address::decode("0"), None);
    assert_eq!(address::decode("1000000000000000000000000000000000"), None);
    assert_eq!(address::decode("1NM2HFXin4cEQRBLjkNZAS98qLX9JKzjKm"), None);
    assert_eq!(address::decode("not an address"), None);
    assert_eq!(address::decode("zażółć"), None);
    assert_eq!(
        address::decode("bitcoincash:qr6m7j9njldwwzlg9v7v53unlr4jkmx6eylep8ekg2"),
        None
    );
    assert_eq!(address::decode("bitcoincash:"), None);
    assert_eq!(address::decode(":"), None);
}

#[test]
fn output_new_refuses_a_malformed_address() {
    assert_eq!(TxOutput::new(1, String::from("nope")), Err(LedgerError::AddressDecode));
    assert_eq!(
        TxOutput::new(1, String::from("bitcoincash:qr6m7j9njldwwzlg9v7v53unlr4jkmx6eylep8ekg2")),
        Err(LedgerError::AddressDecode)
    );
    let mut output = TxOutput { value: 3, pub_key_hash: vec![1] };
    assert_eq!(output.lock("nope"), Err(LedgerError::AddressDecode));
    assert_eq!(output, TxOutput { value: 3, pub_key_hash: vec![1] });
    assert_eq!(output.lock("1NM2HFXin4cEQRBLjkNZAS98qLX9JKzjKn"), Ok(()));
    assert_eq!(output.value, 3);
    assert_eq!(output.pub_key_hash, unhex("ea2407829a5055466b27784cde8cf463167946bf"));
}

#[test]
fn coinbase_pays_the_reward_and_carries_memo_and_salt() {
    let wallet = Wallet::from_seed(&[1u8; 32]);
    let address = wallet.get_address();
    let mut hash = wallet.public_key.clone();
    Wallet::hash_pub_key(&mut hash);
    let salt = [6u8; 32];
    let tx = Transaction::coinbase(address.clone(), String::from("Genesis Block"), &salt).unwrap();
    assert!(tx.is_coinbase());
    assert_eq!(REWARD, 100);
    assert_eq!(tx.vout, vec![TxOutput { value: 100, pub_key_hash: hash }]);
    assert_eq!(tx.vin.len(), 1);
    assert_eq!(tx.vin[0].txid, "");
    assert_eq!(tx.vin[0].vout, -1);
    assert!(tx.vin[0].signature.is_empty());
    let mut expected = b"Genesis Block".to_vec();
    expected.extend_from_slice(&salt);
    assert_eq!(tx.vin[0].pub_key, expected);
    let mut draft = tx.clone();
    draft.id = String::new();
    assert_eq!(tx.id, reference_tx_hash(&draft));
    assert_eq!(tx.id, draft.hash().unwrap());
}

#[test]
fn coinbase_without_memo_names_the_recipient() {
    let address = Wallet::from_seed(&[1u8; 32]).get_address();
    let tx = Transaction::coinbase(address.clone(), String::new(), &[0u8; 32]).unwrap();
    let mut expected = format!("Reward to '{}'", address).into_bytes();
    expected.extend_from_slice(&[0u8; 32]);
    assert_eq!(tx.vin[0].pub_key, expected);
}

#[test]
fn coinbase_to_a_malformed_address_is_refused() {
    assert_eq!(
        Transaction::coinbase(String::from("???"), String::new(), &[0u8; 32]),
        Err(LedgerError::AddressDecode)
    );
    assert_eq!(
        Transaction::new_coinbase(String::from("???"), String::new()),
        Err(LedgerError::AddressDecode)
    );
}

#[test]
fn new_coinbase_is_unique_each_time() {
    let address = Wallet::from_seed(&[1u8; 32]).get_address();
    let a = Transaction::new_coinbase(address.clone(), String::from("same")).unwrap();
    let b = Transaction::new_coinbase(address.clone(), String::from("same")).unwrap();
    assert!(a.is_coinbase() && b.is_coinbase());
    assert_eq!(a.vin[0].pub_key.len(), 4 + 32);
    assert_ne!(a.vin[0].pub_key, b.vin[0].pub_key);
    assert_ne!(a.id, b.id);
    assert_eq!(a.vout, b.vout);
}

#[test]
fn coinbase_verifies_without_signature_and_is_not_signed() {
    let wallet = Wallet::from_seed(&[1u8; 32]);
    let mut tx =
        Transaction::coinbase(wallet.get_address(), String::from("m"), &[0u8; 32]).unwrap();
    assert_eq!(tx.verify(&vec![]), Ok(true));
    let before = tx.clone();
    assert_eq!(tx.sign(&wallet.private_key, &vec![]), Ok(()));
    assert_eq!(tx, before);
    // even a secret of the wrong size leaves a coinbase alone
    assert_eq!(tx.sign(&[1, 2, 3], &vec![]), Ok(()));
    assert_eq!(tx, before);
}

fn spend_of(prev: &Transaction, owner: &Wallet) -> Transaction {
    let mut tx = Transaction {
        id: String::new(),
        vin: vec![
            TxInput {
                txid: prev.id.clone(),
                vout: 0,
                signature: vec![],
                pub_key: owner.public_key.clone(),
            },
            TxInput {
                txid: prev.id.clone(),
                vout: 1,
                signature: vec![],
                pub_key: owner.public_key.clone(),
            },
        ],
        vout: vec![TxOutput { value: 5, pub_key_hash: vec![1; 20] }],
    };
    tx.id = tx.hash().unwrap();
    tx
}

fn funding_tx(owner: &Wallet) -> Transaction {
    let mut hash = owner.public_key.clone();
    Wallet::hash_pub_key(&mut hash);
    let mut tx = Transaction {
        id: String::new(),
        vin: vec![TxInput { txid: String::from("older"), vout: 0, signature: vec![], pub_key: vec![] }],
        vout: vec![
            TxOutput { value: 2, pub_key_hash: hash.clone() },
            TxOutput { value: 3, pub_key_hash: vec![0x77; 20] },
        ],
    };
    tx.id = tx.hash().unwrap();
    tx
}

#[test]
fn sign_follows_the_trim_and_rehash_ritual() {
    let owner = Wallet::from_seed(&[21u8; 32]);
    let prev = funding_tx(&owner);
    let mut tx = spend_of(&prev, &owner);
    let unsigned = tx.clone();
    assert_eq!(tx.sign(&owner.private_key, &vec![prev.clone()]), Ok(()));
    assert_eq!(tx.id, unsigned.id);
    assert_eq!(tx.vout, unsigned.vout);

    // the ritual, step by step, with the outside primitives
    let mut copy = unsigned.clone();
    for input in copy.vin.iter_mut() {
        input.signature = vec![];
        input.pub_key = vec![];
    }
    for i in 0..2 {
        copy.vin[i].pub_key = prev.vout[i].pub_key_hash.clone();
        copy.id = reference_tx_hash(&copy);
        copy.vin[i].pub_key = vec![];
        let expected = ed25519::signature(copy.id.as_bytes(), &owner.private_key);
        assert_eq!(tx.vin[i].signature, expected.to_vec());
        assert_eq!(tx.vin[i].signature.len(), 64);
        assert_eq!(tx.vin[i].pub_key, owner.public_key);
        assert_eq!(tx.vin[i].txid, prev.id);
        assert!(ed25519::verify(copy.id.as_bytes(), &owner.public_key, &tx.vin[i].signature));
    }
    assert_ne!(tx.vin[0].signature, tx.vin[1].signature);
    assert_eq!(tx.verify(&vec![prev.clone()]), Ok(true));
}

#[test]
fn verify_is_false_on_any_mismatch() {
    let owner = Wallet::from_seed(&[21u8; 32]);
    let thief = Wallet::from_seed(&[22u8; 32]);
    let prev = funding_tx(&owner);
    let mut tx = spend_of(&prev, &owner);
    assert_eq!(tx.verify(&vec![prev.clone()]), Ok(false));
    tx.sign(&owner.private_key, &vec![prev.clone()]).unwrap();
    assert_eq!(tx.verify(&vec![prev.clone()]), Ok(true));

    let mut flipped = tx.clone();
    flipped.vin[1].signature[10] ^= 1;
    assert_eq!(flipped.verify(&vec![prev.clone()]), Ok(false));

    let mut other_key = tx.clone();
    other_key.vin[0].pub_key = thief.public_key.clone();
    assert_eq!(other_key.verify(&vec![prev.clone()]), Ok(false));

    let mut other_output = tx.clone();
    other_output.vout[0].value = 6;
    assert_eq!(other_output.verify(&vec![prev.clone()]), Ok(false));

    let mut short = tx.clone();
    short.vin[0].signature.pop();
    assert_eq!(short.verify(&vec![prev.clone()]), Ok(false));
    let mut long = tx.clone();
    long.vin[0].signature.push(0);
    assert_eq!(long.verify(&vec![prev.clone()]), Ok(false));
    let mut short_key = tx.clone();
    short_key.vin[0].pub_key.pop();
    assert_eq!(short_key.verify(&vec![prev.clone()]), Ok(false));

    // the output that the input spends is locked to another hash
    let mut relocked = prev.clone();
    relocked.vout[0].pub_key_hash[0] ^= 1;
    assert_eq!(tx.verify(&vec![relocked]), Ok(false));

    let mut by_thief = spend_of(&prev, &owner);
    by_thief.sign(&thief.private_key, &vec![prev.clone()]).unwrap();
    assert_eq!(by_thief.verify(&vec![prev.clone()]), Ok(false));
}

#[test]
fn sign_and_verify_need_the_prior_transactions() {
    let owner = Wallet::from_seed(&[21u8; 32]);
    let prev = funding_tx(&owner);
    let mut tx = spend_of(&prev, &owner);
    let before = tx.clone();
    assert_eq!(tx.sign(&owner.private_key, &vec![]), Err(LedgerError::MissingPrevTx));
    assert_eq!(tx, before);
    assert_eq!(tx.verify(&vec![]), Err(LedgerError::MissingPrevTx));

    // a prior transaction without the output that is spent
    let mut stub = prev.clone();
    stub.vout.truncate(1);
    assert_eq!(tx.sign(&owner.private_key, &vec![stub.clone()]), Err(LedgerError::MissingPrevTx));
    assert_eq!(tx.verify(&vec![stub]), Err(LedgerError::MissingPrevTx));

    // an input whose index is negative
    let mut negative = before.clone();
    negative.vin[1].vout = -1;
    assert_eq!(negative.verify(&vec![prev.clone()]), Err(LedgerError::MissingPrevTx));

    // a prior transaction with an empty id
    let mut nameless = prev.clone();
    nameless.id = String::new();
    let mut to_nameless = before.clone();
    to_nameless.vin[0].txid = String::new();
    to_nameless.vin[1].txid = String::new();
    assert_eq!(to_nameless.verify(&vec![nameless]), Err(LedgerError::MissingPrevTx));
    assert_eq!(tx, before);
}

#[test]
fn sign_refuses_a_secret_of_the_wrong_size() {
    let owner = Wallet::from_seed(&[21u8; 32]);
    let prev = funding_tx(&owner);
    let mut tx = spend_of(&prev, &owner);
    let before = tx.clone();
    assert_eq!(tx.sign(&owner.private_key[..63], &vec![prev.clone()]), Err(LedgerError::InvalidKey));
    assert_eq!(tx.sign(&[], &vec![prev.clone()]), Err(LedgerError::InvalidKey));
    assert_eq!(tx, before);
}

#[test]
fn of_two_prior_transactions_with_one_id_the_last_counts() {
    let owner = Wallet::from_seed(&[21u8; 32]);
    let prev = funding_tx(&owner);
    let mut decoy = prev.clone();
    decoy.vout[0].pub_key_hash = vec![0; 20];
    decoy.vout[1].pub_key_hash = vec![0; 20];
    let mut tx = spend_of(&prev, &owner);
    tx.sign(&owner.private_key, &vec![decoy.clone(), prev.clone()]).unwrap();
    assert_eq!(tx.verify(&vec![decoy.clone(), prev.clone()]), Ok(true));
    assert_eq!(tx.verify(&vec![prev.clone()]), Ok(true));
    assert_eq!(tx.verify(&vec![prev.clone(), decoy.clone()]), Ok(false));
}

#[test]
fn error_messages() {
    assert_eq!(LedgerError::NotInitialized.message(), "must create a new blockchain first");
    assert_eq!(LedgerError::InvalidTransaction.message(), "invalid transaction");
    assert_eq!(
        LedgerError::InsufficientFunds.message(),
        "not enough outputs to fulfill transaction"
    );
    assert_eq!(LedgerError::MissingPrevTx.message(), "can't find a referenced transaction");
    assert_eq!(LedgerError::AddressDecode.message(), "malformed address");
    assert_eq!(LedgerError::StorageFailure.message(), "unreadable entry in a keyspace");
    assert_eq!(LedgerError::SerializationFailure.message(), "value has no canonical byte form");
    assert_eq!(LedgerError::UnknownWallet.message(), "no wallet under this address");
    assert_eq!(LedgerError::InvalidKey.message(), "signing secret of the wrong size");
    assert_eq!(LedgerError::EmptyBlock.message(), "a block needs at least one transaction");
    assert_eq!(LedgerError::Overflow.message(), "integer range exceeded");
    assert_eq!(LedgerError::ClockUnavailable.message(), "system clock is before the Unix epoch");
    assert_eq!(LedgerError::EntropyUnavailable.message(), "no random bytes available");
}
