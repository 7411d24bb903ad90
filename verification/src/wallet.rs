use vstd::prelude::*;
use vstd::string::*;
use vstd::utf8::*;
use crate::address::{address_text, decoded_body, encode_address, BODY_LEN};
use crate::codec::{
    blob_bytes, get_blob, holds_at, lemma_holds_at_concat, lemma_holds_at_start, lemma_read_blob,
    put_blob, read_blob, text_from_utf8,
};
use crate::digest::{hashable, ripemd160, ripemd160_digest, sha256, sha256_digest};
use crate::errors::LedgerError;
use crate::keyspace::{Entries, Keyspace};
use crate::signature::{ed25519_keypair, keypair, PUBLIC_KEY_LEN, SECRET_KEY_LEN};
use crate::system;
use crate::tx::copy_bytes;

verus! {

/// What a wallet is: a signing secret and the public key that goes with it.
pub struct WalletView {
    pub private_key: Seq<u8>,
    pub public_key: Seq<u8>,
}

/// A key pair. Its address is the text of the hash of its public key.
#[derive(Debug, PartialEq, Eq)]
pub struct Wallet {
    pub private_key: Vec<u8>,
    pub public_key: Vec<u8>,
}

impl View for Wallet {
    type V = WalletView;

    open spec fn view(&self) -> WalletView {
        WalletView { private_key: self.private_key@, public_key: self.public_key@ }
    }
}

impl Clone for Wallet {
    fn clone(&self) -> (r: Self)
        ensures
            r@ == self@,
    {
        Wallet {
            private_key: copy_bytes(&self.private_key),
            public_key: copy_bytes(&self.public_key),
        }
    }
}

/// The hash of a public key: RIPEMD-160 over SHA-256 of the key.
pub open spec fn pub_key_hash(public_key: Seq<u8>) -> Seq<u8> {
    ripemd160(sha256(public_key))
}

/// The address of a public key: the text of its hash.
pub open spec fn address_of(public_key: Seq<u8>) -> Seq<char> {
    address_text(pub_key_hash(public_key))
}

/// The wallet that a seed determines.
pub open spec fn wallet_of(seed: Seq<u8>) -> WalletView {
    WalletView { private_key: ed25519_keypair(seed).0, public_key: ed25519_keypair(seed).1 }
}

/// A wallet in canonical bytes: the signing secret, then the public key.
pub open spec fn wallet_bytes(w: WalletView) -> Seq<u8> {
    blob_bytes(w.private_key) + blob_bytes(w.public_key)
}

/// Reads a wallet at `pos`.
pub open spec fn read_wallet(s: Seq<u8>, pos: int) -> Option<(WalletView, int)> {
    match read_blob(s, pos) {
        Some((private_key, stop1)) => match read_blob(s, stop1) {
            Some((public_key, stop2)) => Some((WalletView { private_key, public_key }, stop2)),
            None => None,
        },
        None => None,
    }
}

/// The wallet that a byte string is the canonical form of, if it is one.
pub open spec fn decode_wallet(s: Seq<u8>) -> Option<WalletView> {
    match read_wallet(s, 0) {
        Some((w, end)) => if end == s.len() {
            Some(w)
        } else {
            None
        },
        None => None,
    }
}

/// Bytes are read as a wallet exactly when they are the canonical bytes of
/// that wallet.
pub proof fn lemma_wallet_bytes_are_canonical(s: Seq<u8>, w: WalletView)
    ensures
        decode_wallet(s) == Some(w) <==> s == wallet_bytes(w) && w.private_key.len() <= u64::MAX
            && w.public_key.len() <= u64::MAX,
{
    if decode_wallet(s) == Some(w) {
        crate::codec::lemma_blob_was_written(s, 0);
        let stop1 = read_blob(s, 0)->Some_0.1;
        crate::codec::lemma_blob_was_written(s, stop1);
        lemma_holds_at_concat(s, 0, blob_bytes(w.private_key), blob_bytes(w.public_key));
        crate::codec::lemma_holds_whole(s, wallet_bytes(w));
    }
    if s == wallet_bytes(w) && w.private_key.len() <= u64::MAX && w.public_key.len() <= u64::MAX {
        lemma_wallet_round_trip(w);
    }
}

/// A wallet written in canonical bytes is read back as it was.
pub proof fn lemma_wallet_round_trip(w: WalletView)
    requires
        w.private_key.len() <= u64::MAX,
        w.public_key.len() <= u64::MAX,
    ensures
        decode_wallet(wallet_bytes(w)) == Some(w),
{
    let s = wallet_bytes(w);
    lemma_holds_at_start(s, Seq::empty());
    assert(s + Seq::<u8>::empty() =~= s);
    lemma_holds_at_concat(s, 0, blob_bytes(w.private_key), blob_bytes(w.public_key));
    lemma_read_blob(s, 0, w.private_key);
    lemma_read_blob(s, 8 + w.private_key.len() as int, w.public_key);
}

impl Wallet {
    /// The key pair that `seed` determines.
    pub fn from_seed(seed: &[u8]) -> (w: Wallet)
        ensures
            w@ == wallet_of(seed@),
            w@.private_key.len() == SECRET_KEY_LEN,
            w@.public_key.len() == PUBLIC_KEY_LEN,
    {
        let (private_key, public_key) = keypair(seed);
        Wallet { private_key, public_key }
    }

    /// A key pair from 32 fresh random bytes. Whatever the bytes are, the
    /// wallet is the one that they determine.
    pub fn new() -> (r: Result<Wallet, LedgerError>)
        ensures
            match r {
                Ok(w) => w@.private_key.len() == SECRET_KEY_LEN && w@.public_key.len()
                    == PUBLIC_KEY_LEN && exists|seed: Seq<u8>|
                    seed.len() == 32 && w@ == #[trigger] wallet_of(seed),
                Err(e) => e == LedgerError::EntropyUnavailable,
            },
    {
        match system::random_seed() {
            Some(seed) => {
                let w = Wallet::from_seed(seed.as_slice());
                assert(w@ == wallet_of(seed@));
                Ok(w)
            },
            None => Err(LedgerError::EntropyUnavailable),
        }
    }

    /// Replaces a public key by its hash: 20 bytes.
    pub fn hash_pub_key(pub_key: &mut Vec<u8>)
        requires
            hashable(old(pub_key)@.len()),
        ensures
            final(pub_key)@ == pub_key_hash(old(pub_key)@),
            final(pub_key)@.len() == BODY_LEN,
    {
        let inner = sha256_digest(pub_key.as_slice());
        let outer = ripemd160_digest(inner.as_slice());
        *pub_key = outer;
    }

    /// The address of the wallet: the text of the hash of its public key.
    /// The address decodes to that hash.
    pub fn get_address(&self) -> (address: String)
        requires
            hashable(self@.public_key.len()),
        ensures
            address@ == address_of(self@.public_key),
            decoded_body(address@) == Some(pub_key_hash(self@.public_key)),
    {
        let mut body = copy_bytes(&self.public_key);
        Wallet::hash_pub_key(&mut body);
        encode_address(&body)
    }

    /// The wallet in canonical bytes.
    pub fn to_bytes(&self) -> (bytes: Vec<u8>)
        ensures
            bytes@ == wallet_bytes(self@),
            self@.private_key.len() <= u64::MAX,
            self@.public_key.len() <= u64::MAX,
    {
        let mut bytes: Vec<u8> = Vec::new();
        put_blob(&mut bytes, self.private_key.as_slice());
        put_blob(&mut bytes, self.public_key.as_slice());
        assert(bytes@ =~= wallet_bytes(self@));
        bytes
    }

    /// Reads a wallet from its canonical bytes; anything else is refused.
    pub fn from_bytes(bytes: &[u8]) -> (r: Option<Self>)
        ensures
            match r {
                Some(w) => decode_wallet(bytes@) == Some(w@),
                None => decode_wallet(bytes@) is None,
            },
    {
        let (private_key, stop1) = match get_blob(bytes, 0) {
            Some(x) => x,
            None => return None,
        };
        let (public_key, stop2) = match get_blob(bytes, stop1) {
            Some(x) => x,
            None => return None,
        };
        if stop2 != bytes.len() {
            return None;
        }
        Some(Wallet { private_key, public_key })
    }
}

/// The wallets of a manager: each address with its wallet.
pub type Wallets = Seq<(Seq<char>, WalletView)>;

/// The place of the first wallet under the address from the place `from`
/// on, or the number of wallets where there is none.
pub open spec fn wallet_index_from(s: Wallets, address: Seq<char>, from: int) -> int
    decreases s.len() - from,
{
    if from < 0 || from >= s.len() {
        s.len() as int
    } else if s[from].0 == address {
        from
    } else {
        wallet_index_from(s, address, from + 1)
    }
}

/// The place of the first wallet under the address, or the number of
/// wallets where there is none.
pub open spec fn wallet_index(s: Wallets, address: Seq<char>) -> int {
    wallet_index_from(s, address, 0)
}

/// Some wallet stands under the address.
pub open spec fn has_wallet(s: Wallets, address: Seq<char>) -> bool {
    wallet_index(s, address) < s.len()
}

/// The wallets after `wallet` is put under `address`: it takes the place of
/// the wallet that stood there, or comes last.
pub open spec fn with_wallet(s: Wallets, address: Seq<char>, wallet: WalletView) -> Wallets {
    if has_wallet(s, address) {
        s.update(wallet_index(s, address), (address, wallet))
    } else {
        s.push((address, wallet))
    }
}

/// No address stands twice among the wallets.
pub open spec fn distinct_addresses(s: Wallets) -> bool {
    forall|i: int, j: int| 0 <= i < j < s.len() ==> (#[trigger] s[i]).0 != (#[trigger] s[j]).0
}

/// The wallet under an address, if one is held.
pub open spec fn wallet_under(s: Wallets, address: Seq<char>) -> Option<WalletView> {
    if has_wallet(s, address) {
        Some(s[wallet_index(s, address)].1)
    } else {
        None
    }
}

/// The place found for an address lies from the start of the search on,
/// holds the address where it is a place, and no place before it does.
pub proof fn lemma_wallet_index(s: Wallets, address: Seq<char>, from: int)
    requires
        0 <= from <= s.len(),
    ensures
        from <= wallet_index_from(s, address, from) <= s.len(),
        wallet_index_from(s, address, from) < s.len() ==> s[wallet_index_from(
            s,
            address,
            from,
        )].0 == address,
        forall|j: int|
            from <= j < wallet_index_from(s, address, from) ==> (#[trigger] s[j]).0 != address,
    decreases s.len() - from,
{
    if from < s.len() && s[from].0 != address {
        lemma_wallet_index(s, address, from + 1);
    }
}

/// A place that no place before it rules out is the place found.
pub proof fn lemma_wallet_index_is(s: Wallets, address: Seq<char>, from: int, k: int)
    requires
        0 <= from <= k <= s.len(),
        k < s.len() ==> s[k].0 == address,
        forall|j: int| from <= j < k ==> (#[trigger] s[j]).0 != address,
    ensures
        wallet_index_from(s, address, from) == k,
    decreases k - from,
{
    if from < k {
        lemma_wallet_index_is(s, address, from + 1, k);
    }
}

/// Putting a wallet under an address works as in a map: that address then
/// has that wallet, every other address has what it had, and no address
/// comes to stand twice.
pub proof fn lemma_with_wallet(s: Wallets, address: Seq<char>, wallet: WalletView, other: Seq<char>)
    ensures
        wallet_under(with_wallet(s, address, wallet), address) == Some(wallet),
        other != address ==> wallet_under(with_wallet(s, address, wallet), other) == wallet_under(
            s,
            other,
        ),
        distinct_addresses(s) ==> distinct_addresses(with_wallet(s, address, wallet)),
        with_wallet(s, address, wallet).len() == if has_wallet(s, address) {
            s.len()
        } else {
            s.len() + 1
        },
{
    let t = with_wallet(s, address, wallet);
    let at = wallet_index(s, address);
    lemma_wallet_index(s, address, 0);
    lemma_wallet_index(s, other, 0);
    let k = wallet_index(s, other);
    if at < s.len() {
        assert forall|j: int| 0 <= j < t.len() implies (#[trigger] t[j]).0 == s[j].0 by {}
        lemma_wallet_index_is(t, address, 0, at);
        if other != address {
            assert forall|j: int| 0 <= j < k implies (#[trigger] t[j]).0 != other by {
                assert(t[j].0 == s[j].0);
            }
            if k < s.len() {
                assert(t[k].0 == s[k].0);
            }
            lemma_wallet_index_is(t, other, 0, k);
        }
        if distinct_addresses(s) {
            assert forall|i: int, j: int| 0 <= i < j < t.len() implies (#[trigger] t[i]).0 != (
            #[trigger] t[j]).0 by {
                assert(t[i].0 == s[i].0);
                assert(t[j].0 == s[j].0);
            }
        }
    } else {
        assert forall|j: int| 0 <= j < s.len() implies (#[trigger] t[j]).0 != address by {
            assert(t[j] == s[j]);
        }
        lemma_wallet_index_is(t, address, 0, s.len() as int);
        if other != address {
            assert forall|j: int| 0 <= j < k implies (#[trigger] t[j]).0 != other by {
                assert(t[j] == s[j]);
            }
            if k < s.len() {
                assert(t[k] == s[k]);
                lemma_wallet_index_is(t, other, 0, k);
            } else {
                assert(t[k].0 == address);
                assert forall|j: int| 0 <= j < t.len() implies (#[trigger] t[j]).0 != other by {
                    if j < s.len() {
                        assert(t[j] == s[j]);
                    }
                }
                lemma_wallet_index_is(t, other, 0, t.len() as int);
            }
        }
        if distinct_addresses(s) {
            assert forall|i: int, j: int| 0 <= i < j < t.len() implies (#[trigger] t[i]).0 != (
            #[trigger] t[j]).0 by {
                assert(t[i] == s[i]);
                if j < s.len() {
                    assert(t[j] == s[j]);
                }
            }
        }
    }
}

/// The wallets that the first `n` entries of a keyspace hold, or nothing
/// where one of those entries is no address with a wallet.
pub open spec fn loaded(entries: Entries, n: nat) -> Option<Wallets>
    decreases n,
{
    if n == 0 {
        Some(Seq::empty())
    } else {
        match loaded(entries, (n - 1) as nat) {
            Some(s) => {
                let (key, value) = entries[n - 1];
                if valid_utf8(key) && decode_wallet(value) is Some {
                    Some(with_wallet(s, decode_utf8(key), decode_wallet(value)->Some_0))
                } else {
                    None
                }
            },
            None => None,
        }
    }
}

/// An address with its wallet.
struct Slot {
    address: String,
    wallet: Wallet,
}

/// The wallets that a node holds, each under its address.
pub struct WalletManager {
    wallets: Vec<Slot>,
}

impl View for WalletManager {
    type V = Wallets;

    closed spec fn view(&self) -> Wallets {
        Seq::new(self.wallets@.len(), |i: int| (self.wallets@[i].address@, self.wallets@[i].wallet@))
    }
}

impl WalletManager {
    #[verifier::type_invariant]
    spec fn addresses_stand_once(&self) -> bool {
        distinct_addresses(self@)
    }

    /// A manager without wallets.
    pub fn empty() -> (r: WalletManager)
        ensures
            r@ == Seq::<(Seq<char>, WalletView)>::empty(),
    {
        let r = WalletManager { wallets: Vec::new() };
        assert(r@ =~= Seq::<(Seq<char>, WalletView)>::empty());
        r
    }

    /// The place of the first wallet under the address.
    fn position(&self, address: &str) -> (r: Option<usize>)
        ensures
            match r {
                Some(i) => i == wallet_index(self@, address@) && i < self@.len(),
                None => !has_wallet(self@, address@),
            },
    {
        let mut i: usize = 0;
        while i < self.wallets.len()
            invariant
                i <= self.wallets@.len(),
                wallet_index(self@, address@) == wallet_index_from(self@, address@, i as int),
            decreases self.wallets@.len() - i,
        {
            assert(self@[i as int].0 == self.wallets@[i as int].address@);
            let same = self.wallets[i].address.as_str().as_bytes_vec();
            let want = address.as_bytes_vec();
            proof {
                encode_utf8_decode_utf8(self.wallets@[i as int].address@);
                encode_utf8_decode_utf8(address@);
            }
            if crate::tx::same_bytes(same.as_slice(), want.as_slice()) {
                return Some(i);
            }
            i += 1;
        }
        None
    }

    /// Puts a wallet under an address.
    fn put(&mut self, address: String, wallet: Wallet)
        ensures
            final(self)@ == with_wallet(old(self)@, address@, wallet@),
    {
        proof {
            use_type_invariant(&*self);
            lemma_with_wallet(self@, address@, wallet@, address@);
        }
        let ghost before = self@;
        let found = self.position(address.as_str());
        let mut wallets: Vec<Slot> = Vec::new();
        std::mem::swap(&mut self.wallets, &mut wallets);
        match found {
            Some(i) => {
                wallets.set(i, Slot { address, wallet });
            },
            None => {
                wallets.push(Slot { address, wallet });
            },
        }
        let ghost after = Seq::new(
            wallets@.len(),
            |i: int| (wallets@[i].address@, wallets@[i].wallet@),
        );
        assert(after =~= with_wallet(before, address@, wallet@));
        self.wallets = wallets;
    }

    /// The wallets that a keyspace holds: each entry is an address with
    /// the canonical bytes of its wallet.
    pub fn new(db: &Keyspace) -> (r: Result<WalletManager, LedgerError>)
        ensures
            match r {
                Ok(manager) => loaded(db@, db@.len()) == Some(manager@),
                Err(e) => e == LedgerError::StorageFailure && loaded(db@, db@.len()) is None,
            },
    {
        let mut manager = WalletManager::empty();
        let n = db.len();
        let mut i: usize = 0;
        while i < n
            invariant
                i <= n,
                n == db@.len(),
                loaded(db@, i as nat) == Some(manager@),
            decreases n - i,
        {
            let address = match text_from_utf8(copy_bytes(db.key_at(i))) {
                Some(address) => address,
                None => {
                    proof {
                        lemma_loaded_fails(db@, (i + 1) as nat, n as nat);
                    }
                    return Err(LedgerError::StorageFailure);
                },
            };
            let wallet = match Wallet::from_bytes(db.value_at(i).as_slice()) {
                Some(wallet) => wallet,
                None => {
                    proof {
                        lemma_loaded_fails(db@, (i + 1) as nat, n as nat);
                    }
                    return Err(LedgerError::StorageFailure);
                },
            };
            manager.put(address, wallet);
            i += 1;
        }
        Ok(manager)
    }

    /// Makes a wallet from fresh random bytes, keeps it under its address
    /// and gives the address. The wallet has a signing secret of 64 bytes
    /// and a public key of 32.
    pub fn new_wallet(&mut self) -> (r: Result<String, LedgerError>)
        ensures
            match r {
                Ok(address) => exists|seed: Seq<u8>|
                    seed.len() == 32 && address@ == address_of(#[trigger] wallet_of(seed).public_key)
                        && wallet_of(seed).private_key.len() == SECRET_KEY_LEN && wallet_of(
                        seed,
                    ).public_key.len() == PUBLIC_KEY_LEN && final(self)@ == with_wallet(
                        old(self)@,
                        address@,
                        wallet_of(seed),
                    ) && wallet_under(final(self)@, address@) == Some(wallet_of(seed)),
                Err(e) => e == LedgerError::EntropyUnavailable && final(self)@ == old(self)@,
            },
    {
        let wallet = match Wallet::new() {
            Ok(wallet) => wallet,
            Err(e) => return Err(e),
        };
        let address = wallet.get_address();
        proof {
            lemma_with_wallet(self@, address@, wallet@, address@);
        }
        self.put(address.clone(), wallet);
        Ok(address)
    }

    /// The wallet under an address.
    pub fn get_wallet(&self, name: &str) -> (r: Option<&Wallet>)
        ensures
            match r {
                Some(w) => wallet_under(self@, name@) == Some(w@),
                None => wallet_under(self@, name@) is None,
            },
    {
        match self.position(name) {
            Some(i) => Some(&self.wallets[i].wallet),
            None => None,
        }
    }

    /// The addresses of all wallets, in the order in which they are held.
    /// No address occurs twice.
    pub fn get_all_addresses(&self) -> (r: Vec<String>)
        ensures
            r@.len() == self@.len(),
            forall|i: int| 0 <= i < r@.len() ==> (#[trigger] r@[i])@ == self@[i].0,
            distinct_addresses(self@),
            forall|i: int, j: int| 0 <= i < j < r@.len() ==> (#[trigger] r@[i])@ != (#[trigger] r@[j])@,
    {
        proof {
            use_type_invariant(self);
        }
        let mut r: Vec<String> = Vec::new();
        let mut i: usize = 0;
        while i < self.wallets.len()
            invariant
                i <= self.wallets@.len(),
                r@.len() == i,
                forall|j: int| 0 <= j < i ==> (#[trigger] r@[j])@ == self@[j].0,
            decreases self.wallets@.len() - i,
        {
            r.push(self.wallets[i].address.clone());
            i += 1;
        }
        r
    }

    /// The keyspace that holds the wallets: under the bytes of each address
    /// the canonical bytes of its wallet.
    pub fn save_all(&self) -> (db: Keyspace)
        ensures
            db.map() == stored_wallets(self@, self@.len()),
    {
        let mut db = Keyspace::new();
        let mut i: usize = 0;
        while i < self.wallets.len()
            invariant
                i <= self.wallets@.len(),
                db.map() == stored_wallets(self@, i as nat),
            decreases self.wallets@.len() - i,
        {
            assert(self@[i as int] == (self.wallets@[i as int].address@, self.wallets@[i as int].wallet@));
            let key = self.wallets[i].address.as_str().as_bytes_vec();
            let value = self.wallets[i].wallet.to_bytes();
            db.insert(key, value);
            i += 1;
        }
        db
    }
}

/// The entries under which the first `n` wallets are stored.
pub open spec fn stored_wallets(s: Wallets, n: nat) -> Map<Seq<u8>, Seq<u8>>
    decreases n,
{
    if n == 0 {
        Map::empty()
    } else {
        stored_wallets(s, (n - 1) as nat).insert(encode_utf8(s[n - 1].0), wallet_bytes(s[n - 1].1))
    }
}

/// Once an entry cannot be read, loading more entries gives nothing either.
pub proof fn lemma_loaded_fails(entries: Entries, k: nat, n: nat)
    requires
        k <= n,
        loaded(entries, k) is None,
    ensures
        loaded(entries, n) is None,
    decreases n,
{
    if k < n {
        lemma_loaded_fails(entries, k, (n - 1) as nat);
    }
}

} // verus!
