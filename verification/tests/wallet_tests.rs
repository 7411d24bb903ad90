use utxo_chain::errors::LedgerError;
use utxo_chain::keyspace::Keyspace;
use utxo_chain::wallet::{Wallet, WalletManager};

fn pairs(db: &Keyspace) -> Vec<(Vec<u8>, Vec<u8>)> {
    let mut all: Vec<(Vec<u8>, Vec<u8>)> =
        (0..db.len()).map(|i| (db.key_at(i).clone(), db.value_at(i).clone())).collect();
    all.sort();
    all
}

#[test]
fn keyspace_holds_each_key_once() {
    let mut db = Keyspace::new();
    assert_eq!(db.len(), 0);
    assert_eq!(db.get(b"a"), None);
    db.insert(b"a".to_vec(), vec![1]);
    db.insert(b"b".to_vec(), vec![2]);
    db.insert(b"a".to_vec(), vec![3]);
    assert_eq!(db.len(), 2);
    assert_eq!(db.get(b"a"), Some(vec![3]));
    assert_eq!(db.get(b"b"), Some(vec![2]));
    assert!(db.contains(b"a"));
    assert!(!db.contains(b"c"));
    assert_eq!(db.key_at(0), &b"a".to_vec());
    assert_eq!(db.value_at(0), &vec![3]);
    assert_eq!(db.key_at(1), &b"b".to_vec());
    db.remove(b"a");
    assert_eq!(db.len(), 1);
    assert_eq!(db.get(b"a"), None);
    assert_eq!(db.key_at(0), &b"b".to_vec());
    db.remove(b"zzz");
    assert_eq!(db.len(), 1);
    let copy = db.duplicate();
    db.insert(b"c".to_vec(), vec![]);
    assert_eq!(pairs(&copy), vec![(b"b".to_vec(), vec![2])]);
    assert_eq!(db.len(), 2);
}

#[test]
fn manager_keeps_new_wallets_under_their_addresses() {
    let mut manager = WalletManager::empty();
    assert!(manager.get_all_addresses().is_empty());
    let first = manager.new_wallet().unwrap();
    let second = manager.new_wallet().unwrap();
    assert_ne!(first, second);
    assert_eq!(manager.get_all_addresses(), vec![first.clone(), second.clone()]);
    let wallet = manager.get_wallet(&first).unwrap();
    assert_eq!(wallet.get_address(), first);
    assert_eq!(manager.get_wallet(&second).unwrap().get_address(), second);
    assert!(manager.get_wallet("nobody").is_none());
    assert!(manager.get_wallet("").is_none());
}

#[test]
fn manager_saves_and_loads_its_wallets() {
    let mut manager = WalletManager::empty();
    let first = manager.new_wallet().unwrap();
    let second = manager.new_wallet().unwrap();
    let db = manager.save_all();
    assert_eq!(db.len(), 2);
    assert_eq!(
        db.get(first.as_bytes()),
        Some(manager.get_wallet(&first).unwrap().to_bytes())
    );
    let loaded = WalletManager::new(&db).unwrap();
    assert_eq!(loaded.get_all_addresses(), vec![first.clone(), second.clone()]);
    assert_eq!(loaded.get_wallet(&first), manager.get_wallet(&first));
    assert_eq!(loaded.get_wallet(&second), manager.get_wallet(&second));
    assert_eq!(pairs(&loaded.save_all()), pairs(&db));
}

#[test]
fn manager_loads_what_a_keyspace_holds() {
    let a = Wallet::from_seed(&[1u8; 32]);
    let b = Wallet::from_seed(&[2u8; 32]);
    let mut db = Keyspace::new();
    db.insert(a.get_address().into_bytes(), a.to_bytes());
    db.insert(b"any name".to_vec(), b.to_bytes());
    let manager = WalletManager::new(&db).unwrap();
    assert_eq!(manager.get_all_addresses(), vec![a.get_address(), String::from("any name")]);
    assert_eq!(manager.get_wallet(&a.get_address()), Some(&a));
    assert_eq!(manager.get_wallet("any name"), Some(&b));
    assert!(WalletManager::new(&Keyspace::new()).unwrap().get_all_addresses().is_empty());
}

#[test]
fn manager_refuses_a_keyspace_with_an_unreadable_entry() {
    let a = Wallet::from_seed(&[1u8; 32]);
    let mut bad_value = Keyspace::new();
    bad_value.insert(a.get_address().into_bytes(), vec![1, 2, 3]);
    assert!(matches!(WalletManager::new(&bad_value), Err(LedgerError::StorageFailure)));
    let mut bad_key = Keyspace::new();
    bad_key.insert(vec![0xff, 0xfe], a.to_bytes());
    assert!(matches!(WalletManager::new(&bad_key), Err(LedgerError::StorageFailure)));
}

#[test]
fn new_wallets_have_keys_of_the_right_size_and_no_address_twice() {
    let mut manager = WalletManager::empty();
    let mut made = Vec::new();
    for _ in 0..5 {
        made.push(manager.new_wallet().unwrap());
    }
    let all = manager.get_all_addresses();
    assert_eq!(all, made);
    for (i, address) in all.iter().enumerate() {
        let wallet = manager.get_wallet(address).unwrap();
        assert_eq!(wallet.private_key.len(), 64);
        assert_eq!(wallet.public_key.len(), 32);
        assert_eq!(&wallet.get_address(), address);
        for other in all.iter().skip(i + 1) {
            assert_ne!(address, other);
        }
    }
    // a keyspace holds each address once, so does the manager loaded from it
    let mut db = manager.save_all();
    let again = Wallet::from_seed(&[4u8; 32]);
    db.insert(all[0].clone().into_bytes(), again.to_bytes());
    let loaded = WalletManager::new(&db).unwrap();
    assert_eq!(loaded.get_all_addresses(), all);
    assert_eq!(loaded.get_wallet(&all[0]), Some(&again));
}
