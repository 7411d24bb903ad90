use crypto::digest::Digest;
use crypto::sha2::Sha256;
use merkle_cbt::merkle_tree::{Merge, CBMT};
use utxo_chain::block::{Block, TARGET_HEX};
use utxo_chain::errors::LedgerError;
use utxo_chain::merkle::compute_root;
use utxo_chain::transaction::Transaction;
use utxo_chain::tx::{TxInput, TxOutput};
use utxo_chain::wallet::Wallet;

struct Sha256Merge {}

impl Merge for Sha256Merge {
    type Item = Vec<u8>;

    fn merge(left: &Self::Item, right: &Self::Item) -> Self::Item {
        let mut hasher = Sha256::new();
        let mut input = left.clone();
        input.extend_from_slice(right);
        hasher.input(&input);
        let mut output = [0u8; 32];
        hasher.result(&mut output);
        output.to_vec()
    }
}

fn sha256_of(data: &[u8]) -> Vec<u8> {
    let mut hasher = Sha256::new();
    hasher.input(data);
    let mut output = [0u8; 32];
    hasher.result(&mut output);
    output.to_vec()
}

fn joined(left: &[u8], right: &[u8]) -> Vec<u8> {
    let mut both = left.to_vec();
    both.extend_from_slice(right);
    both
}

fn reference_seal(block: &Block, root: Vec<u8>, nonce: i32) -> String {
    let data = (block.get_prev_hash(), block.get_timestamp(), root, TARGET_HEX, nonce);
    let mut hasher = Sha256::new();
    hasher.input(&bincode::serialize(&data).unwrap());
    hasher.result_str()
}

fn payment(id_seed: u8) -> Transaction {
    let mut tx = Transaction {
        id: String::new(),
        vin: vec![
            TxInput {
                txid: String::from("some-prior"),
                vout: id_seed as i32,
                signature: vec![id_seed; 64],
                pub_key: vec![id_seed; 32],
            },
        ],
        vout: vec![TxOutput { value: id_seed as i32, pub_key_hash: vec![id_seed; 20] }],
    };
    tx.id = tx.hash().unwrap();
    tx
}

#[test]
fn root_of_no_leaves_is_empty() {
    assert_eq!(compute_root(&vec![]), Ok(vec![]));
}

#[test]
fn root_of_one_leaf_is_the_leaf() {
    assert_eq!(compute_root(&vec![vec![1, 2, 3]]), Ok(vec![1, 2, 3]));
}

#[test]
fn root_of_two_and_three_leaves() {
    let a = vec![1u8; 4];
    let b = vec![2u8; 5];
    let c = vec![3u8; 6];
    assert_eq!(compute_root(&vec![a.clone(), b.clone()]), Ok(sha256_of(&joined(&a, &b))));
    // with three leaves the first stands a level higher: the root joins
    // the parent of the last two with the first
    let inner = sha256_of(&joined(&b, &c));
    assert_eq!(
        compute_root(&vec![a.clone(), b.clone(), c.clone()]),
        Ok(sha256_of(&joined(&inner, &a)))
    );
}

#[test]
fn root_matches_the_complete_binary_merkle_tree() {
    for count in 0usize..=17 {
        let leaves: Vec<Vec<u8>> =
            (0..count).map(|i| vec![i as u8; 1 + (i * 7) % 40]).collect();
        let expected = CBMT::<Vec<u8>, Sha256Merge>::build_merkle_tree(&leaves).root();
        assert_eq!(compute_root(&leaves), Ok(expected));
    }
}

#[test]
fn mined_block_meets_the_difficulty_with_the_first_nonce_that_does() {
    let wallet = Wallet::from_seed(&[5u8; 32]);
    let coinbase =
        Transaction::coinbase(wallet.get_address(), String::from("memo"), &[8u8; 32]).unwrap();
    let block =
        Block::mine(vec![coinbase.clone()], String::from("prev"), 3, 1_700_000_000_004).unwrap();
    assert_eq!(TARGET_HEX, 4);
    assert_eq!(block.get_prev_hash(), "prev");
    assert_eq!(block.get_height(), 3);
    assert_eq!(block.get_timestamp(), 1_700_000_000_004);
    assert_eq!(block.get_transactions(), &vec![coinbase.clone()]);
    assert_eq!(block.get_hash().len(), 64);
    assert!(block.get_hash().starts_with("0000"));
    assert!(block.get_nonce() >= 0);

    // the root of one transaction is the text of its hash
    let root = coinbase.hash().unwrap().into_bytes();
    assert_eq!(block.hash_transaction(), Ok(root.clone()));
    assert_eq!(block.get_hash(), reference_seal(&block, root.clone(), block.get_nonce()));
    for nonce in 0..block.get_nonce() {
        assert!(!reference_seal(&block, root.clone(), nonce).starts_with("0000"));
    }
    assert_eq!(block.validate(), Ok(true));
    assert_eq!(
        block.prepare_hash_data().unwrap(),
        bincode::serialize(&(
            String::from("prev"),
            1_700_000_000_004u128,
            root,
            4usize,
            block.get_nonce()
        ))
        .unwrap()
    );
}

#[test]
fn mining_is_a_function_of_the_fields() {
    let a = Block::mine(vec![payment(1), payment(2)], String::from("p"), 1, 42).unwrap();
    let b = Block::mine(vec![payment(1), payment(2)], String::from("p"), 1, 42).unwrap();
    assert_eq!(a, b);
    let c = Block::mine(vec![payment(2), payment(1)], String::from("p"), 1, 42).unwrap();
    assert_ne!(a.get_hash(), c.get_hash());
}

#[test]
fn block_root_is_the_tree_over_the_hash_texts() {
    let txs = vec![payment(1), payment(2), payment(3), payment(4), payment(5)];
    let block = Block::mine(txs.clone(), String::new(), 0, 7).unwrap();
    let leaves: Vec<Vec<u8>> = txs.iter().map(|tx| tx.hash().unwrap().into_bytes()).collect();
    let expected = CBMT::<Vec<u8>, Sha256Merge>::build_merkle_tree(&leaves).root();
    assert_eq!(block.hash_transaction(), Ok(expected.clone()));
    assert_eq!(block.get_hash(), reference_seal(&block, expected, block.get_nonce()));
    assert!(block.get_hash().starts_with("0000"));
}

#[test]
fn run_proof_of_work_on_a_mined_block_keeps_its_nonce() {
    let mut block = Block::mine(vec![payment(9)], String::new(), 0, 11).unwrap();
    let before = block.clone();
    assert_eq!(block.run_proof_of_work(), Ok(()));
    assert_eq!(block, before);
}

#[test]
fn a_tampered_block_does_not_validate() {
    let block = Block::mine(vec![payment(1)], String::new(), 0, 5).unwrap();
    let mut bytes = block.to_bytes();
    // the last four bytes hold the nonce
    let at = bytes.len() - 4;
    bytes[at] ^= 1;
    let tampered = Block::from_bytes(&bytes).unwrap();
    assert_eq!(tampered.get_nonce(), block.get_nonce() ^ 1);
    assert_eq!(tampered.get_hash(), block.get_hash());
    assert_eq!(tampered.validate(), Ok(false));
}

#[test]
fn a_block_needs_a_transaction() {
    assert_eq!(Block::mine(vec![], String::new(), 0, 1), Err(LedgerError::EmptyBlock));
    assert_eq!(Block::new_block(vec![], String::new(), 0), Err(LedgerError::EmptyBlock));
}

#[test]
fn new_block_takes_the_time_of_the_clock() {
    let block = Block::new_block(vec![payment(3)], String::from("before"), 8).unwrap();
    // later than 2023 and earlier than 2100, in milliseconds
    assert!(block.get_timestamp() > 1_672_531_200_000);
    assert!(block.get_timestamp() < 4_102_444_800_000);
    assert_eq!(block.get_prev_hash(), "before");
    assert_eq!(block.get_height(), 8);
    assert!(block.get_hash().starts_with("0000"));
    assert_eq!(block.validate(), Ok(true));
}

#[test]
fn genesis_block_has_no_block_before_it() {
    let wallet = Wallet::from_seed(&[5u8; 32]);
    let coinbase =
        Transaction::coinbase(wallet.get_address(), String::from("first"), &[1u8; 32]).unwrap();
    let block = Block::new_genesis_block(coinbase.clone()).unwrap();
    assert_eq!(block.get_prev_hash(), "");
    assert_eq!(block.get_height(), 0);
    assert_eq!(block.get_transactions(), &vec![coinbase]);
    assert!(block.get_hash().starts_with("0000"));
}

#[test]
fn root_of_two_transactions_is_a_digest_over_both_hash_texts() {
    let (a, b) = (payment(1), payment(2));
    let block = Block::mine(vec![a.clone(), b.clone()], String::new(), 0, 21).unwrap();
    let (ha, hb) = (a.hash().unwrap(), b.hash().unwrap());
    assert_eq!(ha.len(), 64);
    let root = block.hash_transaction().unwrap();
    assert_eq!(root.len(), 32);
    assert_eq!(root, sha256_of(&joined(ha.as_bytes(), hb.as_bytes())));
    let swapped = Block::mine(vec![b, a], String::new(), 0, 21).unwrap();
    assert_ne!(swapped.hash_transaction().unwrap(), root);
    // one transaction: the root is the text of its hash
    let single = Block::mine(vec![payment(3)], String::new(), 0, 21).unwrap();
    assert_eq!(single.hash_transaction().unwrap().len(), 64);
}
