use utxo_chain::block::Block;
use utxo_chain::hex::to_hex;
use utxo_chain::transaction::Transaction;
use utxo_chain::tx::{TxInput, TxOutput, TxOutputs};
use utxo_chain::wallet::Wallet;

fn sample_tx() -> Transaction {
    Transaction {
        id: String::from("ab12"),
        vin: vec![
            TxInput {
                txid: String::from("feed"),
                vout: 1,
                signature: vec![1, 2, 3],
                pub_key: vec![4, 5],
            },
            TxInput { txid: String::new(), vout: -1, signature: vec![], pub_key: vec![0xff] },
        ],
        vout: vec![
            TxOutput { value: 30, pub_key_hash: vec![7; 20] },
            TxOutput { value: -2, pub_key_hash: vec![] },
        ],
    }
}

type InputParts = (String, i32, Vec<u8>, Vec<u8>);
type OutputParts = (i32, Vec<u8>);
type TxParts = (String, Vec<InputParts>, Vec<OutputParts>);

fn tx_parts(tx: &Transaction) -> TxParts {
    let vin = tx
        .vin
        .iter()
        .map(|i| (i.txid.clone(), i.vout, i.signature.clone(), i.pub_key.clone()))
        .collect();
    let vout = tx.vout.iter().map(|o| (o.value, o.pub_key_hash.clone())).collect();
    (tx.id.clone(), vin, vout)
}

#[test]
fn hex_of_bytes_is_lowercase_pairs() {
    assert_eq!(to_hex(&[0x00, 0x0f, 0xa5, 0xff]), "000fa5ff");
    assert_eq!(to_hex(&[]), "");
    assert_eq!(to_hex(&[0x12, 0x34, 0x56, 0x78, 0x9a, 0xbc, 0xde, 0xf0]), "123456789abcdef0");
}

#[test]
fn output_bytes_are_value_then_length_prefixed_hash() {
    let out = TxOutput { value: 100, pub_key_hash: vec![0xaa, 0xbb] };
    assert_eq!(out.to_bytes(), vec![100, 0, 0, 0, 2, 0, 0, 0, 0, 0, 0, 0, 0xaa, 0xbb]);
    let negative = TxOutput { value: -1, pub_key_hash: vec![] };
    assert_eq!(negative.to_bytes(), vec![0xff, 0xff, 0xff, 0xff, 0, 0, 0, 0, 0, 0, 0, 0]);
}

#[test]
fn output_round_trip() {
    let out = TxOutput { value: i32::MIN, pub_key_hash: vec![9; 20] };
    assert_eq!(TxOutput::from_bytes(&out.to_bytes()), Some(out.clone()));
    assert_eq!(out.get_value(), i32::MIN);
}

#[test]
fn output_from_bytes_refuses_what_is_no_output() {
    let out = TxOutput { value: 5, pub_key_hash: vec![1, 2, 3] };
    let bytes = out.to_bytes();
    assert_eq!(TxOutput::from_bytes(&bytes[..bytes.len() - 1]), None);
    let mut longer = bytes.clone();
    longer.push(0);
    assert_eq!(TxOutput::from_bytes(&longer), None);
    assert_eq!(TxOutput::from_bytes(&[]), None);
    assert_eq!(TxOutput::from_bytes(&[1, 0, 0, 0, 0xff, 0xff, 0xff, 0xff, 0xff, 0xff, 0xff, 0xff]), None);
}

#[test]
fn transaction_bytes_match_the_field_by_field_layout() {
    let tx = sample_tx();
    assert_eq!(tx.to_bytes(), bincode::serialize(&tx_parts(&tx)).unwrap());
}

#[test]
fn transaction_round_trip() {
    let tx = sample_tx();
    assert_eq!(Transaction::from_bytes(&tx.to_bytes()), Some(tx.clone()));
    let empty = Transaction { id: String::new(), vin: vec![], vout: vec![] };
    assert_eq!(empty.to_bytes(), vec![0u8; 24]);
    assert_eq!(Transaction::from_bytes(&empty.to_bytes()), Some(empty));
}

#[test]
fn transaction_with_text_beyond_ascii_round_trips() {
    let tx = Transaction {
        id: String::from("zażółć-€-𝄞"),
        vin: vec![TxInput { txid: String::from("ü"), vout: 0, signature: vec![], pub_key: vec![] }],
        vout: vec![],
    };
    assert_eq!(tx.to_bytes(), bincode::serialize(&tx_parts(&tx)).unwrap());
    assert_eq!(Transaction::from_bytes(&tx.to_bytes()), Some(tx));
}

#[test]
fn transaction_from_bytes_refuses_what_is_no_transaction() {
    let tx = sample_tx();
    let bytes = tx.to_bytes();
    for cut in 0..bytes.len() {
        assert_eq!(Transaction::from_bytes(&bytes[..cut]), None);
    }
    let mut longer = bytes.clone();
    longer.push(7);
    assert_eq!(Transaction::from_bytes(&longer), None);
    // an id that is no UTF-8
    let mut bad = vec![1u8, 0, 0, 0, 0, 0, 0, 0, 0xff];
    bad.extend_from_slice(&[0u8; 16]);
    assert_eq!(Transaction::from_bytes(&bad), None);
    // a count of inputs far beyond what the bytes hold
    let mut greedy = vec![0u8; 8];
    greedy.extend_from_slice(&[0xff; 8]);
    greedy.extend_from_slice(&[0u8; 8]);
    assert_eq!(Transaction::from_bytes(&greedy), None);
}

#[test]
fn transaction_clone_and_trim_copy() {
    let tx = sample_tx();
    assert_eq!(tx.clone(), tx);
    let trimmed = tx.trim_copy();
    assert_eq!(trimmed.id, tx.id);
    assert_eq!(trimmed.vout, tx.vout);
    assert_eq!(trimmed.vin.len(), 2);
    for (bare, full) in trimmed.vin.iter().zip(tx.vin.iter()) {
        assert_eq!(bare.txid, full.txid);
        assert_eq!(bare.vout, full.vout);
        assert!(bare.signature.is_empty());
        assert!(bare.pub_key.is_empty());
    }
}

#[test]
fn is_coinbase_needs_one_input_that_refers_to_nothing() {
    let mut tx = Transaction {
        id: String::new(),
        vin: vec![TxInput { txid: String::new(), vout: -1, signature: vec![], pub_key: vec![1] }],
        vout: vec![],
    };
    assert!(tx.is_coinbase());
    tx.vin[0].vout = 0;
    assert!(!tx.is_coinbase());
    tx.vin[0].vout = -1;
    tx.vin[0].txid = String::from("a");
    assert!(!tx.is_coinbase());
    tx.vin[0].txid = String::new();
    tx.vin.push(TxInput { txid: String::new(), vout: -1, signature: vec![], pub_key: vec![] });
    assert!(!tx.is_coinbase());
    tx.vin.clear();
    assert!(!tx.is_coinbase());
}

#[test]
fn outputs_list_clones_each_output() {
    let list = TxOutputs {
        outputs: vec![
            TxOutput { value: 1, pub_key_hash: vec![1] },
            TxOutput { value: 2, pub_key_hash: vec![2, 2] },
        ],
    };
    assert_eq!(list.clone(), list);
}

#[test]
fn can_be_unlock_with_compares_the_whole_hash() {
    let out = TxOutput { value: 1, pub_key_hash: vec![1, 2, 3] };
    assert!(out.can_be_unlock_with(&[1, 2, 3]));
    assert!(!out.can_be_unlock_with(&[1, 2]));
    assert!(!out.can_be_unlock_with(&[1, 2, 4]));
    assert!(!out.can_be_unlock_with(&[]));
}

#[test]
fn wallet_round_trip() {
    let wallet = Wallet::from_seed(&[3u8; 32]);
    let bytes = wallet.to_bytes();
    assert_eq!(
        bytes,
        bincode::serialize(&(wallet.private_key.clone(), wallet.public_key.clone())).unwrap()
    );
    assert_eq!(Wallet::from_bytes(&bytes), Some(wallet.clone()));
    assert_eq!(Wallet::from_bytes(&bytes[1..]), None);
    let mut longer = bytes.clone();
    longer.push(0);
    assert_eq!(Wallet::from_bytes(&longer), None);
}

#[test]
fn block_bytes_match_the_field_by_field_layout_and_round_trip() {
    let wallet = Wallet::from_seed(&[5u8; 32]);
    let coinbase =
        Transaction::coinbase(wallet.get_address(), String::from("memo"), &[8u8; 32]).unwrap();
    let block = Block::mine(vec![coinbase.clone()], String::new(), 0, 1_700_000_000_004).unwrap();
    let parts = (
        block.get_timestamp(),
        vec![tx_parts(&coinbase)],
        block.get_prev_hash(),
        block.get_hash(),
        block.get_height(),
        block.get_nonce(),
    );
    let bytes = block.to_bytes();
    assert_eq!(bytes, bincode::serialize(&parts).unwrap());
    assert_eq!(Block::from_bytes(&bytes), Some(block.clone()));
    assert_eq!(Block::from_bytes(&bytes[..bytes.len() - 1]), None);
    let mut longer = bytes.clone();
    longer.push(0);
    assert_eq!(Block::from_bytes(&longer), None);
    assert_eq!(block.clone(), block);
}
