use utxo_chain::block::Block;
use utxo_chain::blockchain::Blockchain;
use utxo_chain::cli::Cli;
use utxo_chain::errors::LedgerError;
use utxo_chain::keyspace::Keyspace;
use utxo_chain::transaction::Transaction;
use utxo_chain::tx::{TxInput, TxOutput};
use utxo_chain::utxo::{key_bytes, split_key};
use utxo_chain::utxoset::{sum_values, UTXOSet};
use utxo_chain::wallet::{Wallet, WalletManager};

const T0: u128 = 1_700_000_000_000;

struct Node {
    cli: Cli,
    set: UTXOSet,
    wallets: WalletManager,
    a: Wallet,
    b: Wallet,
}

fn pairs(db: &Keyspace) -> Vec<(Vec<u8>, Vec<u8>)> {
    let mut all: Vec<(Vec<u8>, Vec<u8>)> =
        (0..db.len()).map(|i| (db.key_at(i).clone(), db.value_at(i).clone())).collect();
    all.sort();
    all
}

fn hash_of(wallet: &Wallet) -> Vec<u8> {
    let mut hash = wallet.public_key.clone();
    Wallet::hash_pub_key(&mut hash);
    hash
}

fn node() -> Node {
    let a = Wallet::from_seed(&[1u8; 32]);
    let b = Wallet::from_seed(&[2u8; 32]);
    let mut db = Keyspace::new();
    db.insert(a.get_address().into_bytes(), a.to_bytes());
    db.insert(b.get_address().into_bytes(), b.to_bytes());
    let wallets = WalletManager::new(&db).unwrap();
    let cli = Cli::new().unwrap();
    let set = cli.create_at(a.get_address(), &[9u8; 32], T0).unwrap();
    Node { cli, set, wallets, a, b }
}

fn balance(node: &Node, wallet: &Wallet) -> i128 {
    node.cli.get_balance(&node.set, &wallet.get_address()).unwrap()
}

fn send(node: &mut Node, from: &Wallet, to: &Wallet, amount: i32, at: u128) -> Result<Block, LedgerError> {
    node.cli.transfer_at(
        &mut node.set,
        &node.wallets,
        &from.get_address(),
        &to.get_address(),
        amount,
        at,
    )
}

fn rebuilt(node: &Node) -> Vec<(Vec<u8>, Vec<u8>)> {
    pairs(&node.set.blockchain.find_all_utxos().unwrap())
}

#[test]
fn genesis_pays_creator() {
    let node = node();
    assert_eq!(balance(&node, &node.a), 100);
    assert_eq!(balance(&node, &node.b), 0);
    let blocks = node.set.blockchain.blocks().unwrap();
    assert_eq!(blocks.len(), 1);
    let genesis = &blocks[0];
    assert_eq!(genesis.get_height(), 0);
    assert_eq!(genesis.get_prev_hash(), "");
    assert_eq!(genesis.get_timestamp(), T0);
    assert!(genesis.get_hash().starts_with("0000"));
    assert_eq!(genesis.validate(), Ok(true));
    assert_eq!(node.set.blockchain.get_current_hash(), genesis.get_hash());
    let coinbase = &genesis.get_transactions()[0];
    assert_eq!(genesis.get_transactions().len(), 1);
    assert!(coinbase.is_coinbase());
    let mut memo = b"Genesis Block".to_vec();
    memo.extend_from_slice(&[9u8; 32]);
    assert_eq!(coinbase.vin[0].pub_key, memo);
    assert_eq!(coinbase.vout, vec![TxOutput { value: 100, pub_key_hash: hash_of(&node.a) }]);
    // the store holds the block under its hash and the hash under LAST
    let store = node.set.blockchain.store_entries();
    assert_eq!(store.len(), 2);
    assert_eq!(store.get(b"LAST"), Some(genesis.get_hash().into_bytes()));
    assert_eq!(store.get(genesis.get_hash().as_bytes()), Some(genesis.to_bytes()));
    // one unspent output, under the key of the coinbase's first output
    assert_eq!(
        pairs(&node.set.db),
        vec![(format!("{}-0", coinbase.id).into_bytes(), coinbase.vout[0].to_bytes())]
    );
}

#[test]
fn simple_transfer() {
    let mut node = node();
    let (a, b) = (node.a.clone(), node.b.clone());
    let block = send(&mut node, &a, &b, 30, T0 + 4).unwrap();
    assert_eq!(balance(&node, &a), 70);
    assert_eq!(balance(&node, &b), 30);
    assert_eq!(block.get_height(), 1);
    assert!(block.get_hash().starts_with("0000"));
    let blocks = node.set.blockchain.blocks().unwrap();
    assert_eq!(blocks.len(), 2);
    assert_eq!(blocks[0], block);
    assert_eq!(blocks[0].get_prev_hash(), blocks[1].get_hash());
    let tx = &block.get_transactions()[0];
    assert_eq!(tx.vin.len(), 1);
    assert_eq!(tx.vin[0].txid, blocks[1].get_transactions()[0].id);
    assert_eq!(tx.vin[0].vout, 0);
    assert_eq!(tx.vin[0].pub_key, a.public_key);
    assert_eq!(tx.vin[0].signature.len(), 64);
    assert_eq!(
        tx.vout,
        vec![
            TxOutput { value: 30, pub_key_hash: hash_of(&b) },
            TxOutput { value: 70, pub_key_hash: hash_of(&a) },
        ]
    );
    assert_eq!(node.set.blockchain.verify_transaction(tx), Ok(true));
    assert_eq!(
        pairs(&node.set.db),
        {
            let mut expected = vec![
                (format!("{}-0", tx.id).into_bytes(), tx.vout[0].to_bytes()),
                (format!("{}-1", tx.id).into_bytes(), tx.vout[1].to_bytes()),
            ];
            expected.sort();
            expected
        }
    );
}

#[test]
fn exact_spend() {
    let mut node = node();
    let (a, b) = (node.a.clone(), node.b.clone());
    send(&mut node, &a, &b, 30, T0 + 4).unwrap();
    let block = send(&mut node, &b, &a, 30, T0 + 10).unwrap();
    assert_eq!(balance(&node, &a), 100);
    assert_eq!(balance(&node, &b), 0);
    // exactly the sum picked: no change output
    let tx = &block.get_transactions()[0];
    assert_eq!(tx.vout, vec![TxOutput { value: 30, pub_key_hash: hash_of(&a) }]);
    assert_eq!(block.get_height(), 2);
}

#[test]
fn insufficient_funds() {
    let mut node = node();
    let (a, b) = (node.a.clone(), node.b.clone());
    send(&mut node, &a, &b, 30, T0 + 4).unwrap();
    send(&mut node, &b, &a, 30, T0 + 10).unwrap();
    let chain_before = pairs(node.set.blockchain.store_entries());
    let utxos_before = pairs(&node.set.db);
    assert!(matches!(send(&mut node, &b, &a, 1, T0 + 11), Err(LedgerError::InsufficientFunds)));
    assert_eq!(balance(&node, &a), 100);
    assert_eq!(balance(&node, &b), 0);
    assert_eq!(pairs(node.set.blockchain.store_entries()), chain_before);
    assert_eq!(pairs(&node.set.db), utxos_before);
    assert!(matches!(send(&mut node, &a, &b, 101, T0 + 11), Err(LedgerError::InsufficientFunds)));
}

#[test]
fn reindex_equivalence() {
    let mut node = node();
    let (a, b) = (node.a.clone(), node.b.clone());
    assert_eq!(pairs(&node.set.db), rebuilt(&node));
    send(&mut node, &a, &b, 30, T0 + 4).unwrap();
    assert_eq!(pairs(&node.set.db), rebuilt(&node));
    send(&mut node, &b, &a, 10, T0 + 7).unwrap();
    assert_eq!(pairs(&node.set.db), rebuilt(&node));
    send(&mut node, &a, &b, 75, T0 + 8).unwrap();
    let updated = pairs(&node.set.db);
    assert_eq!(updated, rebuilt(&node));
    let (balance_a, balance_b) = (balance(&node, &a), balance(&node, &b));
    assert_eq!((balance_a, balance_b), (5, 95));
    let count = node.cli.reindex(&mut node.set).unwrap();
    assert_eq!(pairs(&node.set.db), updated);
    assert_eq!(balance(&node, &a), balance_a);
    assert_eq!(balance(&node, &b), balance_b);
    assert_eq!(node.set.count_transactions(), Ok(count));
}

#[test]
fn reindex_twice_gives_the_same_keyspace() {
    let mut node = node();
    let (a, b) = (node.a.clone(), node.b.clone());
    send(&mut node, &a, &b, 40, T0 + 1).unwrap();
    // whatever the keyspace held before, a rebuild is a function of the chain
    node.set.db.insert(b"stale-7".to_vec(), vec![1, 2, 3]);
    node.set.reindex().unwrap();
    let once = pairs(&node.set.db);
    node.set.reindex().unwrap();
    assert_eq!(pairs(&node.set.db), once);
    assert_eq!(once.len(), 2);
    assert_eq!(node.set.count_transactions(), Ok(1));
}

#[test]
fn transferring_all_coins_leaves_nothing() {
    let mut node = node();
    let (a, b) = (node.a.clone(), node.b.clone());
    let block = send(&mut node, &a, &b, 100, T0 + 5).unwrap();
    assert_eq!(block.get_transactions()[0].vout.len(), 1);
    assert_eq!(balance(&node, &a), 0);
    assert_eq!(balance(&node, &b), 100);
    assert_eq!(node.set.find_utxo(&hash_of(&a)), Ok(vec![]));
}

#[test]
fn new_utxo_change_boundaries() {
    let node = node();
    let exact = Transaction::new_utxo(&node.a, 100, &node.b, &node.set).unwrap();
    assert_eq!(exact.vout, vec![TxOutput { value: 100, pub_key_hash: hash_of(&node.b) }]);
    let one_less = Transaction::new_utxo(&node.a, 99, &node.b, &node.set).unwrap();
    assert_eq!(
        one_less.vout,
        vec![
            TxOutput { value: 99, pub_key_hash: hash_of(&node.b) },
            TxOutput { value: 1, pub_key_hash: hash_of(&node.a) },
        ]
    );
    assert!(matches!(
        Transaction::new_utxo(&node.a, 101, &node.b, &node.set),
        Err(LedgerError::InsufficientFunds)
    ));
    assert!(matches!(
        Transaction::new_utxo(&node.b, 1, &node.a, &node.set),
        Err(LedgerError::InsufficientFunds)
    ));
    // the id is the hash of the transaction before it was signed
    let mut unsigned = exact.clone();
    unsigned.id = String::new();
    unsigned.vin[0].signature = vec![];
    assert_eq!(exact.id, unsigned.hash().unwrap());
    assert_eq!(exact.vin[0].pub_key, node.a.public_key);
    assert_eq!(node.set.blockchain.verify_transaction(&exact), Ok(true));
    assert_eq!(node.set.blockchain.verify_transaction(&one_less), Ok(true));
}

#[test]
fn transfer_needs_both_wallets() {
    let mut node = node();
    let a = node.a.clone();
    let stranger = Wallet::from_seed(&[3u8; 32]);
    assert!(matches!(send(&mut node, &a, &stranger, 1, T0 + 1), Err(LedgerError::UnknownWallet)));
    assert!(matches!(send(&mut node, &stranger, &a, 1, T0 + 1), Err(LedgerError::UnknownWallet)));
    assert_eq!(balance(&node, &a), 100);
}

#[test]
fn get_balance_refuses_a_malformed_address() {
    let node = node();
    assert_eq!(node.cli.get_balance(&node.set, "???"), Err(LedgerError::AddressDecode));
    let stranger = Wallet::from_seed(&[3u8; 32]);
    assert_eq!(node.cli.get_balance(&node.set, &stranger.get_address()), Ok(0));
}

#[test]
fn chain_is_a_single_path_with_rising_heights() {
    let mut node = node();
    let (a, b) = (node.a.clone(), node.b.clone());
    send(&mut node, &a, &b, 1, T0 + 5).unwrap();
    send(&mut node, &a, &b, 2, T0 + 10).unwrap();
    send(&mut node, &b, &a, 3, T0 + 12).unwrap();
    let blocks = node.cli.print_chain(&node.set.blockchain).unwrap();
    assert_eq!(blocks.len(), 4);
    assert_eq!(node.set.blockchain.get_current_hash(), blocks[0].get_hash());
    for (i, block) in blocks.iter().enumerate() {
        assert_eq!(block.get_height() as usize, 3 - i);
        assert!(block.get_hash().starts_with("0000"));
        assert_eq!(block.validate(), Ok(true));
        if i + 1 < blocks.len() {
            assert_eq!(block.get_prev_hash(), blocks[i + 1].get_hash());
        } else {
            assert_eq!(block.get_prev_hash(), "");
        }
        for tx in block.get_transactions() {
            assert_eq!(node.set.blockchain.verify_transaction(tx), Ok(true));
        }
    }
    assert_eq!(node.set.blockchain.store_entries().len(), 5);
    // the walk with the iterator gives the same blocks and then ends
    let mut it = node.set.blockchain.iter();
    for block in blocks.iter() {
        assert_eq!(it.next(), Ok(Some(block.clone())));
    }
    assert_eq!(it.next(), Ok(None));
    assert_eq!(it.next(), Ok(None));
}

#[test]
fn chain_opens_from_its_store() {
    let mut node = node();
    let (a, b) = (node.a.clone(), node.b.clone());
    send(&mut node, &a, &b, 30, T0 + 4).unwrap();
    let reopened = Blockchain::new(node.set.blockchain.store_entries().duplicate()).unwrap();
    assert_eq!(reopened.get_current_hash(), node.set.blockchain.get_current_hash());
    assert_eq!(reopened.blocks(), node.set.blockchain.blocks());
    let mut set = UTXOSet::new(reopened, Keyspace::new());
    set.reindex().unwrap();
    assert_eq!(pairs(&set.db), pairs(&node.set.db));
}

#[test]
fn opening_a_store_without_a_chain_fails() {
    assert!(matches!(Blockchain::new(Keyspace::new()), Err(LedgerError::NotInitialized)));
    let mut no_text = Keyspace::new();
    no_text.insert(b"LAST".to_vec(), vec![0xff]);
    assert!(matches!(Blockchain::new(no_text), Err(LedgerError::StorageFailure)));
    // a tip that names no block: an empty chain that cannot grow
    let mut dangling = Keyspace::new();
    dangling.insert(b"LAST".to_vec(), b"nowhere".to_vec());
    let mut chain = Blockchain::new(dangling).unwrap();
    assert_eq!(chain.blocks(), Ok(vec![]));
    let coinbase = Transaction::coinbase(
        Wallet::from_seed(&[1u8; 32]).get_address(),
        String::new(),
        &[0u8; 32],
    )
    .unwrap();
    assert!(matches!(chain.add_block_at(vec![coinbase], 1), Err(LedgerError::StorageFailure)));
}

#[test]
fn an_unreadable_block_stops_the_walk_with_an_error() {
    let node = node();
    let mut store = node.set.blockchain.store_entries().duplicate();
    let tip = node.set.blockchain.get_current_hash();
    store.insert(tip.clone().into_bytes(), vec![1, 2, 3]);
    let chain = Blockchain::new(store).unwrap();
    assert_eq!(chain.blocks(), Err(LedgerError::StorageFailure));
    assert_eq!(chain.iter().next(), Err(LedgerError::StorageFailure));
    assert!(matches!(chain.find_all_utxos(), Err(LedgerError::StorageFailure)));
}

#[test]
fn a_walk_over_a_cycle_ends() {
    let block = Block::mine(
        vec![Transaction::coinbase(
            Wallet::from_seed(&[1u8; 32]).get_address(),
            String::new(),
            &[0u8; 32],
        )
        .unwrap()],
        String::from("self"),
        0,
        4,
    )
    .unwrap();
    let mut store = Keyspace::new();
    store.insert(b"self".to_vec(), block.to_bytes());
    store.insert(b"LAST".to_vec(), b"self".to_vec());
    let chain = Blockchain::new(store).unwrap();
    // as many steps as the store has entries
    assert_eq!(chain.blocks(), Ok(vec![block.clone(), block.clone()]));
}

#[test]
fn add_block_refuses_a_transaction_that_does_not_verify() {
    let mut node = node();
    let good = Transaction::new_utxo(&node.a, 10, &node.b, &node.set).unwrap();
    let mut forged = good.clone();
    forged.vout[0].value = 90;
    let before = pairs(node.set.blockchain.store_entries());
    assert!(matches!(
        node.set.blockchain.add_block_at(vec![forged.clone()], T0 + 1),
        Err(LedgerError::InvalidTransaction)
    ));
    assert!(matches!(
        node.set.blockchain.add_block_at(vec![good.clone(), forged], T0 + 1),
        Err(LedgerError::InvalidTransaction)
    ));
    let mut unknown = good.clone();
    unknown.vin[0].txid = String::from("no such transaction");
    assert!(matches!(
        node.set.blockchain.add_block_at(vec![unknown], T0 + 1),
        Err(LedgerError::InvalidTransaction)
    ));
    assert!(matches!(
        node.set.blockchain.add_block(vec![good.trim_copy()]),
        Err(LedgerError::InvalidTransaction)
    ));
    assert_eq!(pairs(node.set.blockchain.store_entries()), before);
    assert!(matches!(
        node.set.blockchain.add_block_at(vec![], T0 + 1),
        Err(LedgerError::EmptyBlock)
    ));
    assert_eq!(pairs(node.set.blockchain.store_entries()), before);
    let block = node.set.blockchain.add_block_at(vec![good.clone()], T0 + 1).unwrap();
    assert_eq!(block.get_transactions(), &vec![good]);
    assert_eq!(node.set.blockchain.blocks().unwrap().len(), 2);
}

#[test]
fn add_block_with_the_clock_appends_behind_the_tip() {
    let mut node = node();
    let tip = node.set.blockchain.get_current_hash();
    let coinbase =
        Transaction::new_coinbase(node.b.get_address(), String::from("bonus")).unwrap();
    let block = node.set.blockchain.add_block(vec![coinbase]).unwrap();
    assert_eq!(block.get_prev_hash(), tip);
    assert_eq!(block.get_height(), 1);
    assert!(block.get_timestamp() > T0);
    assert_eq!(node.set.blockchain.get_current_hash(), block.get_hash());
    node.set.update(&block).unwrap();
    assert_eq!(balance(&node, &node.b), 100);
    assert_eq!(pairs(&node.set.db), rebuilt(&node));
}

#[test]
fn tamper_detection() {
    let mut node = node();
    let signed = Transaction::new_utxo(&node.a, 30, &node.b, &node.set).unwrap();
    assert_eq!(node.set.blockchain.verify_transaction(&signed), Ok(true));
    // flip one byte of the hash that locks the coinbase output in the
    // persisted first block
    let tip = node.set.blockchain.get_current_hash();
    let mut store = node.set.blockchain.store_entries().duplicate();
    let mut bytes = store.get(tip.as_bytes()).unwrap();
    let lock = hash_of(&node.a);
    let at = (0..bytes.len() - 20).find(|&i| bytes[i..i + 20] == lock[..]).unwrap();
    bytes[at] ^= 1;
    store.insert(tip.clone().into_bytes(), bytes);
    let tampered = Blockchain::new(store).unwrap();
    // the chain still prints
    let blocks = tampered.blocks().unwrap();
    assert_eq!(blocks.len(), 1);
    assert_eq!(blocks[0].get_hash(), tip);
    assert_eq!(blocks[0].validate(), Ok(false));
    // but the transfer that spends from the block no longer verifies
    assert_eq!(tampered.verify_transaction(&signed), Ok(false));
    node.set.blockchain = tampered;
    assert!(matches!(
        node.set.blockchain.add_block_at(vec![signed], T0 + 1),
        Err(LedgerError::InvalidTransaction)
    ));
}

#[test]
fn sign_transaction_signs_against_the_chain() {
    let node = node();
    let genesis = node.set.blockchain.blocks().unwrap().remove(0);
    let coinbase = genesis.get_transactions()[0].clone();
    let mut tx = Transaction {
        id: String::new(),
        vin: vec![
            TxInput {
                txid: coinbase.id.clone(),
                vout: 0,
                signature: vec![],
                pub_key: node.a.public_key.clone(),
            },
        ],
        vout: vec![TxOutput { value: 100, pub_key_hash: hash_of(&node.b) }],
    };
    tx.id = tx.hash().unwrap();
    assert_eq!(node.set.blockchain.get_prev_txs(&tx), Ok(vec![coinbase.clone()]));
    assert_eq!(node.set.blockchain.verify_transaction(&tx), Ok(false));
    assert_eq!(node.set.blockchain.sign_transaction(&mut tx, &node.a.private_key), Ok(()));
    assert_eq!(node.set.blockchain.verify_transaction(&tx), Ok(true));
    let mut expected = tx.clone();
    expected.vin[0].signature = vec![];
    expected.sign(&node.a.private_key, &vec![coinbase]).unwrap();
    assert_eq!(tx, expected);

    let mut lost = tx.clone();
    lost.vin[0].txid = String::from("elsewhere");
    assert_eq!(node.set.blockchain.get_prev_txs(&lost), Ok(vec![]));
    assert_eq!(
        node.set.blockchain.sign_transaction(&mut lost, &node.a.private_key),
        Err(LedgerError::MissingPrevTx)
    );
    assert_eq!(node.set.blockchain.verify_transaction(&lost), Err(LedgerError::MissingPrevTx));
    assert_eq!(
        node.set.blockchain.sign_transaction(&mut tx, &node.a.private_key[..10]),
        Err(LedgerError::InvalidKey)
    );
}

fn plain_tx(id: &str, inputs: Vec<(&str, i32)>, values: Vec<i32>) -> Transaction {
    Transaction {
        id: String::from(id),
        vin: inputs
            .into_iter()
            .map(|(txid, vout)| TxInput {
                txid: String::from(txid),
                vout,
                signature: vec![],
                pub_key: vec![],
            })
            .collect(),
        vout: values.into_iter().map(|value| TxOutput { value, pub_key_hash: vec![7; 20] }).collect(),
    }
}

#[test]
fn update_puts_outputs_in_and_takes_spent_ones_out() {
    let node = node();
    let mut set = UTXOSet::new(
        Blockchain::new(node.set.blockchain.store_entries().duplicate()).unwrap(),
        Keyspace::new(),
    );
    // the second transaction spends an output of the first, in one block;
    // the third names an output that does not exist
    let first = plain_tx("aa", vec![("zz", 0), ("zz", 1)], vec![5, 6, 7]);
    let second = plain_tx("bb", vec![("aa", 1), ("y", 0)], vec![8]);
    let third = plain_tx("cc", vec![("aa", 9)], vec![]);
    set.db.insert(b"zz-1".to_vec(), vec![1]);
    set.db.insert(b"zz-2".to_vec(), vec![2]);
    let block = Block::mine(vec![first.clone(), second.clone(), third], String::new(), 0, 2).unwrap();
    assert_eq!(set.update(&block), Ok(()));
    let mut expected = vec![
        (b"zz-2".to_vec(), vec![2]),
        (b"aa-0".to_vec(), first.vout[0].to_bytes()),
        (b"aa-2".to_vec(), first.vout[2].to_bytes()),
        (b"bb-0".to_vec(), second.vout[0].to_bytes()),
    ];
    expected.sort();
    assert_eq!(pairs(&set.db), expected);
    assert_eq!(set.count_transactions(), Ok(3));
    set.db.remove(b"zz-2");
    assert_eq!(sum_values(&set.find_utxo(&[7; 20]).unwrap()), 5 + 7 + 8);
    assert_eq!(set.get_balance(&[7; 20]), Ok(20));
    set.db.insert(b"zz-2".to_vec(), vec![2]);
    // the two entries put in by hand hold no output
    assert_eq!(set.get_balance(&[7; 20]), Err(LedgerError::StorageFailure));
}

#[test]
fn keys_name_transaction_and_output() {
    assert_eq!(UTXOSet::construct_key("abc", 0), b"abc-0".to_vec());
    assert_eq!(UTXOSet::construct_key("abc", 1234567890), b"abc-1234567890".to_vec());
    assert_eq!(UTXOSet::construct_key("", 7), b"-7".to_vec());
    assert_eq!(key_bytes("abc", -1), b"abc--1".to_vec());
    assert_eq!(key_bytes("abc", i32::MIN as i128), b"abc--2147483648".to_vec());
    assert_eq!(key_bytes("ü", 10), "ü-10".as_bytes().to_vec());
    assert_eq!(split_key(b"abc-0"), Some((String::from("abc"), 0)));
    assert_eq!(split_key(b"abc-007"), Some((String::from("abc"), 7)));
    assert_eq!(split_key(b"abc-2147483647"), Some((String::from("abc"), i32::MAX)));
    assert_eq!(split_key(b"abc-2147483648"), None);
    assert_eq!(split_key(b"abc-99999999999999999999999"), None);
    assert_eq!(split_key(b"abc-1-2"), Some((String::from("abc"), 1)));
    assert_eq!(split_key(b"-5"), Some((String::new(), 5)));
    assert_eq!(split_key(b"abc"), None);
    assert_eq!(split_key(b"abc-"), None);
    assert_eq!(split_key(b"abc--1"), None);
    assert_eq!(split_key(b"abc-1x"), None);
    assert_eq!(split_key(b"abc-+1"), None);
    assert_eq!(split_key(b""), None);
    assert_eq!(split_key(&[0xff, b'-', b'1']), None);
    assert_eq!(split_key(&UTXOSet::construct_key("feed", 42)), Some((String::from("feed"), 42)));
}

fn set_of(entries: Vec<(&str, i32, u8)>) -> UTXOSet {
    let node = node();
    let mut db = Keyspace::new();
    for (key, value, lock) in entries {
        db.insert(key.as_bytes().to_vec(), TxOutput { value, pub_key_hash: vec![lock; 20] }.to_bytes());
    }
    UTXOSet::new(node.set.blockchain, db)
}

#[test]
fn find_spendable_outputs_picks_until_the_amount_is_reached() {
    let set = set_of(vec![
        ("aa-0", 10, 1),
        ("bb-3", 20, 2),
        ("aa-2", 5, 1),
        ("cc-1", 7, 1),
        ("aa-5", 50, 1),
        ("dd-0", 1, 1),
    ]);
    assert_eq!(set.find_spendable_outputs(&[1; 20], 0), Ok((0, vec![])));
    assert_eq!(set.find_spendable_outputs(&[1; 20], -5), Ok((0, vec![])));
    assert_eq!(
        set.find_spendable_outputs(&[1; 20], 10),
        Ok((10, vec![(String::from("aa"), vec![0])]))
    );
    assert_eq!(
        set.find_spendable_outputs(&[1; 20], 11),
        Ok((15, vec![(String::from("aa"), vec![0, 2])]))
    );
    assert_eq!(
        set.find_spendable_outputs(&[1; 20], 23),
        Ok((
            72,
            vec![(String::from("aa"), vec![0, 2, 5]), (String::from("cc"), vec![1])]
        ))
    );
    assert_eq!(
        set.find_spendable_outputs(&[1; 20], 1000),
        Ok((
            73,
            vec![
                (String::from("aa"), vec![0, 2, 5]),
                (String::from("cc"), vec![1]),
                (String::from("dd"), vec![0])
            ]
        ))
    );
    assert_eq!(
        set.find_spendable_outputs(&[2; 20], 1),
        Ok((20, vec![(String::from("bb"), vec![3])]))
    );
    assert_eq!(set.find_spendable_outputs(&[3; 20], 1), Ok((0, vec![])));
    assert_eq!(set.count_transactions(), Ok(4));
    assert_eq!(set.get_balance(&[1; 20]), Ok(73));
    assert_eq!(set.get_balance(&[2; 20]), Ok(20));
    assert_eq!(set.get_balance(&[3; 20]), Ok(0));
    let found = set.find_utxo(&[1; 20]).unwrap();
    assert_eq!(found.iter().map(|o| o.get_value()).collect::<Vec<i32>>(), vec![10, 5, 7, 50, 1]);
}

#[test]
fn sums_beyond_the_range_are_refused_or_held() {
    let set = set_of(vec![("aa-0", i32::MAX - 1, 1), ("bb-0", 2, 1), ("cc-0", i32::MAX, 1)]);
    assert_eq!(set.find_spendable_outputs(&[1; 20], i32::MAX), Err(LedgerError::Overflow));
    assert_eq!(
        set.find_spendable_outputs(&[1; 20], i32::MAX - 1),
        Ok((i32::MAX - 1, vec![(String::from("aa"), vec![0])]))
    );
    assert_eq!(set.get_balance(&[1; 20]), Ok(2 * (i32::MAX as i128) + 1));
    let negative = set_of(vec![("aa-0", -10, 1), ("bb-0", 4, 1)]);
    assert_eq!(
        negative.find_spendable_outputs(&[1; 20], 1),
        Ok((-6, vec![(String::from("aa"), vec![0]), (String::from("bb"), vec![0])]))
    );
    assert_eq!(negative.get_balance(&[1; 20]), Ok(-6));
}

#[test]
fn queries_refuse_unreadable_entries() {
    let mut set = set_of(vec![("aa-0", 10, 1)]);
    set.db.insert(b"bb-0".to_vec(), vec![1, 2, 3]);
    assert_eq!(set.find_utxo(&[1; 20]), Err(LedgerError::StorageFailure));
    assert_eq!(set.get_balance(&[1; 20]), Err(LedgerError::StorageFailure));
    assert_eq!(set.find_spendable_outputs(&[1; 20], 1), Err(LedgerError::StorageFailure));
    assert_eq!(set.count_transactions(), Ok(2));

    let mut keyless = set_of(vec![("aa-0", 10, 1), ("nohyphen", 1, 2)]);
    assert_eq!(keyless.find_spendable_outputs(&[1; 20], 1), Err(LedgerError::StorageFailure));
    assert_eq!(keyless.get_balance(&[1; 20]), Ok(10));
    assert_eq!(keyless.count_transactions(), Ok(2));
    keyless.db.insert(vec![0xff, b'-', b'0'], TxOutput { value: 1, pub_key_hash: vec![] }.to_bytes());
    assert_eq!(keyless.count_transactions(), Err(LedgerError::StorageFailure));
}

#[test]
fn rebuild_follows_spends_across_and_within_blocks() {
    let node = node();
    let genesis = node.set.blockchain.blocks().unwrap().remove(0);
    let coinbase = genesis.get_transactions()[0].clone();
    // a store with two more blocks, put together by hand
    let first = plain_tx("aa", vec![(&coinbase.id, 0)], vec![60, 40]);
    let second = plain_tx("bb", vec![("aa", 0)], vec![25, 35]);
    let block1 =
        Block::mine(vec![first.clone(), second.clone()], genesis.get_hash(), 1, 3).unwrap();
    let third = plain_tx("cc", vec![("bb", 1), ("aa", 1)], vec![75]);
    let block2 = Block::mine(vec![third.clone()], block1.get_hash(), 2, 4).unwrap();
    let mut store = node.set.blockchain.store_entries().duplicate();
    store.insert(block1.get_hash().into_bytes(), block1.to_bytes());
    store.insert(block2.get_hash().into_bytes(), block2.to_bytes());
    store.insert(b"LAST".to_vec(), block2.get_hash().into_bytes());
    let chain = Blockchain::new(store).unwrap();
    assert_eq!(chain.blocks(), Ok(vec![block2.clone(), block1.clone(), genesis.clone()]));

    let mut expected = vec![
        (b"bb-0".to_vec(), second.vout[0].to_bytes()),
        (b"cc-0".to_vec(), third.vout[0].to_bytes()),
    ];
    expected.sort();
    assert_eq!(pairs(&chain.find_all_utxos().unwrap()), expected);

    // block by block from the first on gives the same
    let mut set = UTXOSet::new(chain, Keyspace::new());
    for block in [&genesis, &block1, &block2] {
        set.update(block).unwrap();
    }
    assert_eq!(pairs(&set.db), expected);
    set.reindex().unwrap();
    assert_eq!(pairs(&set.db), expected);
}

#[test]
fn transfer_with_the_clock_moves_the_amount() {
    let mut node = node();
    let (a, b) = (node.a.clone(), node.b.clone());
    let block = node
        .cli
        .transfer(&mut node.set, &node.wallets, &a.get_address(), &b.get_address(), 45)
        .unwrap();
    assert!(block.get_timestamp() > T0);
    let tx = &block.get_transactions()[0];
    assert_eq!(block.get_transactions().len(), 1);
    assert_eq!(tx.id.len(), 64);
    assert!(!tx.is_coinbase());
    for input in tx.vin.iter() {
        assert_eq!(input.signature.len(), 64);
        assert_eq!(input.pub_key, a.public_key);
    }
    for output in tx.vout.iter() {
        assert_eq!(output.pub_key_hash.len(), 20);
    }
    assert_eq!(balance(&node, &a), 55);
    assert_eq!(balance(&node, &b), 45);
    assert_eq!(pairs(&node.set.db), rebuilt(&node));
    // a transfer that cannot be built fails before any block is mined
    let before = pairs(node.set.blockchain.store_entries());
    assert!(matches!(
        node.cli.transfer(&mut node.set, &node.wallets, &a.get_address(), &b.get_address(), 56),
        Err(LedgerError::InsufficientFunds)
    ));
    assert!(matches!(
        node.cli.transfer(&mut node.set, &node.wallets, "nobody", &b.get_address(), 1),
        Err(LedgerError::UnknownWallet)
    ));
    assert_eq!(pairs(node.set.blockchain.store_entries()), before);
}

#[test]
fn create_with_the_clock_pays_the_creator() {
    let a = Wallet::from_seed(&[1u8; 32]);
    let cli = Cli::new().unwrap();
    let mut set = cli.create(a.get_address()).unwrap();
    assert_eq!(cli.get_balance(&set, &a.get_address()), Ok(100));
    let blocks = set.blockchain.blocks().unwrap();
    assert_eq!(blocks.len(), 1);
    let coinbase = &blocks[0].get_transactions()[0];
    assert!(coinbase.is_coinbase());
    assert_eq!(coinbase.id.len(), 64);
    assert_eq!(coinbase.vout, vec![TxOutput { value: 100, pub_key_hash: hash_of(&a) }]);
    // a rebuild of a readable chain cannot fail, and counts one transaction
    assert_eq!(cli.reindex(&mut set), Ok(1));
    assert_eq!(cli.get_balance(&set, &a.get_address()), Ok(100));
    assert!(matches!(cli.create(String::from("???")), Err(LedgerError::AddressDecode)));
}

#[test]
fn reindex_of_an_unreadable_chain_changes_nothing() {
    let node = node();
    let mut store = node.set.blockchain.store_entries().duplicate();
    store.insert(node.set.blockchain.get_current_hash().into_bytes(), vec![0]);
    let mut set = UTXOSet::new(Blockchain::new(store).unwrap(), node.set.db.duplicate());
    assert_eq!(node.cli.reindex(&mut set), Err(LedgerError::StorageFailure));
    assert_eq!(pairs(&set.db), pairs(&node.set.db));
}
