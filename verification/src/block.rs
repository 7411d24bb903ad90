use vstd::prelude::*;
use vstd::string::*;
use vstd::utf8::*;
use crate::codec::{
    blob_bytes, get_i32, get_text, get_u128, holds_at, i32_bytes, lemma_holds_at_concat,
    lemma_holds_at_start, lemma_read_i32, lemma_read_text, lemma_read_u128, put_blob, put_i32,
    put_text, put_u128, put_u64, read_i32, read_text, read_u128, text_bytes, u128_bytes, u64_bytes,
};
use crate::digest::{hashable, sha256, sha256_digest, MAX_MESSAGE_LEN};
use crate::errors::LedgerError;
use crate::hex::{hex, lemma_hex_len, to_hex};
use crate::merkle;
use crate::merkle::root_result;
use crate::system;
use crate::transaction::{
    copy_txs, hash_sized, get_txs, lemma_read_txs, put_txs, read_txs, tx_bytes, tx_hash, txs_bytes, txs_fit,
    txs_view, Transaction, TransactionView,
};

verus! {

/// The difficulty: the number of hexadecimal zeros that a block's hash
/// starts with.
pub const TARGET_HEX: usize = 4;

/// What a block is.
pub struct BlockView {
    pub timestamp: u128,
    pub transactions: Seq<TransactionView>,
    pub prev_block_hash: Seq<char>,
    pub hash: Seq<char>,
    pub height: i32,
    pub nonce: i32,
}

/// A mined block: transactions, the hash of the block before it, and the
/// nonce that brings its own hash under the difficulty.
#[derive(Debug, PartialEq, Eq)]
pub struct Block {
    timestamp: u128,
    transactions: Vec<Transaction>,
    prev_block_hash: String,
    hash: String,
    height: i32,
    nonce: i32,
}

impl View for Block {
    type V = BlockView;

    closed spec fn view(&self) -> BlockView {
        BlockView {
            timestamp: self.timestamp,
            transactions: txs_view(self.transactions@),
            prev_block_hash: self.prev_block_hash@,
            hash: self.hash@,
            height: self.height,
            nonce: self.nonce,
        }
    }
}

impl Clone for Block {
    fn clone(&self) -> (r: Self)
        ensures
            r@ == self@,
    {
        Block {
            timestamp: self.timestamp,
            transactions: copy_txs(&self.transactions),
            prev_block_hash: self.prev_block_hash.clone(),
            hash: self.hash.clone(),
            height: self.height,
            nonce: self.nonce,
        }
    }
}

// ---------------------------------------------------------------------------
// The hash of a block
// ---------------------------------------------------------------------------

/// The leaves of a block's tree: the bytes of the hash text of each
/// transaction, in list order.
pub open spec fn tx_leaves(txs: Seq<TransactionView>) -> Seq<Seq<u8>> {
    txs.map_values(|t: TransactionView| encode_utf8(tx_hash(t)))
}

/// Every transaction of the list can be hashed.
pub open spec fn txs_hashable(txs: Seq<TransactionView>) -> bool {
    forall|i: int| 0 <= i < txs.len() ==> hashable(#[trigger] tx_bytes(txs[i]).len())
}

/// What computing the Merkle root of a transaction list gives.
pub open spec fn block_root_result(txs: Seq<TransactionView>) -> Result<Seq<u8>, LedgerError> {
    if !txs_hashable(txs) {
        Err(LedgerError::SerializationFailure)
    } else {
        root_result(tx_leaves(txs))
    }
}

/// The bytes that are hashed for a block: the hash of the block before it,
/// the timestamp, the Merkle root, the difficulty and the nonce.
pub open spec fn preimage(prev: Seq<char>, timestamp: u128, root: Seq<u8>, nonce: i32) -> Seq<u8> {
    text_bytes(prev) + u128_bytes(timestamp) + blob_bytes(root) + u64_bytes(TARGET_HEX as u64)
        + i32_bytes(nonce)
}

/// The hash of a block with the given Merkle root and nonce.
pub open spec fn seal(prev: Seq<char>, timestamp: u128, root: Seq<u8>, nonce: i32) -> Seq<char> {
    hex(sha256(preimage(prev, timestamp, root, nonce)))
}

/// A hash meets the difficulty when it starts with `TARGET_HEX` zeros.
pub open spec fn meets_target(hash: Seq<char>) -> bool {
    &&& hash.len() >= TARGET_HEX
    &&& forall|i: int| 0 <= i < TARGET_HEX ==> hash[i] == '0'
}

/// The hash that the block has with the nonce `nonce`, where its Merkle
/// root can be computed.
pub open spec fn seal_at(b: BlockView, nonce: i32) -> Seq<char> {
    seal(b.prev_block_hash, b.timestamp, block_root_result(b.transactions)->Ok_0, nonce)
}

/// The bytes hashed for the block can be hashed; their number does not
/// depend on the timestamp or the nonce.
pub open spec fn preimage_hashable(b: BlockView) -> bool {
    hashable(
        preimage(b.prev_block_hash, 0, block_root_result(b.transactions)->Ok_0, 0).len(),
    )
}

/// Why a block with these fields has no hash, if it has none.
pub open spec fn seal_failure(b: BlockView) -> Option<LedgerError> {
    match block_root_result(b.transactions) {
        Err(e) => Some(e),
        Ok(_) => if preimage_hashable(b) {
            None
        } else {
            Some(LedgerError::SerializationFailure)
        },
    }
}

/// The nonce `nonce` brings the block's hash under the difficulty.
pub open spec fn nonce_works(b: BlockView, nonce: i32) -> bool {
    meets_target(seal_at(b, nonce))
}

/// The block is what mining from nonce `start` on gives for its fields:
/// its nonce is the first from `start` on that works, and its hash is the
/// hash with that nonce.
pub open spec fn mined_from(b: BlockView, start: i32) -> bool {
    &&& seal_failure(b) is None
    &&& start <= b.nonce
    &&& nonce_works(b, b.nonce)
    &&& forall|k: i32| start <= k < b.nonce ==> !#[trigger] nonce_works(b, k)
    &&& b.hash == seal_at(b, b.nonce)
}

/// No nonce from `start` on works.
pub open spec fn exhausted_from(b: BlockView, start: i32) -> bool {
    forall|k: i32| start <= k ==> !#[trigger] nonce_works(b, k)
}

/// The length of the hashed bytes.
pub proof fn lemma_preimage_len(prev: Seq<char>, timestamp: u128, root: Seq<u8>, nonce: i32)
    ensures
        preimage(prev, timestamp, root, nonce).len() == 44 + encode_utf8(prev).len() + root.len(),
{
    vstd::bytes::lemma_auto_spec_u32_to_from_le_bytes();
    vstd::bytes::lemma_auto_spec_u64_to_from_le_bytes();
    vstd::bytes::lemma_auto_spec_u128_to_from_le_bytes();
}

/// Whether a hash text starts with `TARGET_HEX` zeros.
fn starts_with_zeros(hash: &String) -> (r: bool)
    requires
        hash@.len() >= TARGET_HEX,
    ensures
        r == meets_target(hash@),
{
    let mut i: usize = 0;
    while i < TARGET_HEX
        invariant
            i <= TARGET_HEX,
            hash@.len() >= TARGET_HEX,
            forall|j: int| 0 <= j < i ==> hash@[j] == '0',
        decreases TARGET_HEX - i,
    {
        if hash.as_str().get_char(i) != '0' {
            return false;
        }
        i += 1;
    }
    true
}

/// The hash of a block with the given Merkle root and nonce.
fn compute_seal(prev: &String, timestamp: u128, root: &Vec<u8>, nonce: i32) -> (r: Result<
    String,
    LedgerError,
>)
    ensures
        match r {
            Ok(h) => hashable(preimage(prev@, timestamp, root@, nonce).len()) && h@ == seal(
                prev@,
                timestamp,
                root@,
                nonce,
            ) && hash_sized(h@),
            Err(e) => !hashable(preimage(prev@, timestamp, root@, nonce).len()) && e
                == LedgerError::SerializationFailure,
        },
{
    let mut data: Vec<u8> = Vec::new();
    put_text(&mut data, prev.as_str());
    put_u128(&mut data, timestamp);
    put_blob(&mut data, root.as_slice());
    put_u64(&mut data, TARGET_HEX as u64);
    put_i32(&mut data, nonce);
    assert(data@ =~= preimage(prev@, timestamp, root@, nonce));
    if data.len() as u64 >= MAX_MESSAGE_LEN {
        return Err(LedgerError::SerializationFailure);
    }
    let digest = sha256_digest(data.as_slice());
    proof {
        lemma_hex_len(digest@);
    }
    Ok(to_hex(digest.as_slice()))
}

// ---------------------------------------------------------------------------
// Canonical bytes
// ---------------------------------------------------------------------------

/// A block in canonical bytes: timestamp, transactions, the hash of the
/// block before it, its own hash, height, nonce.
pub open spec fn block_bytes(b: BlockView) -> Seq<u8> {
    u128_bytes(b.timestamp) + txs_bytes(b.transactions) + text_bytes(b.prev_block_hash)
        + text_bytes(b.hash) + i32_bytes(b.height) + i32_bytes(b.nonce)
}

/// Every length in the block fits the 64 bits that the layout gives it.
pub open spec fn block_fits(b: BlockView) -> bool {
    &&& txs_fit(b.transactions)
    &&& encode_utf8(b.prev_block_hash).len() <= u64::MAX
    &&& encode_utf8(b.hash).len() <= u64::MAX
}

/// Reads a block at `pos`.
pub open spec fn read_block(s: Seq<u8>, pos: int) -> Option<(BlockView, int)> {
    match read_u128(s, pos) {
        Some((timestamp, stop1)) => match read_txs(s, stop1) {
            Some((transactions, stop2)) => match read_text(s, stop2) {
                Some((prev_block_hash, stop3)) => match read_text(s, stop3) {
                    Some((hash, stop4)) => match read_i32(s, stop4) {
                        Some((height, stop5)) => match read_i32(s, stop5) {
                            Some((nonce, stop6)) => Some(
                                (
                                    BlockView {
                                        timestamp,
                                        transactions,
                                        prev_block_hash,
                                        hash,
                                        height,
                                        nonce,
                                    },
                                    stop6,
                                ),
                            ),
                            None => None,
                        },
                        None => None,
                    },
                    None => None,
                },
                None => None,
            },
            None => None,
        },
        None => None,
    }
}

/// The block that a byte string is the canonical form of, if it is one.
pub open spec fn decode_block(s: Seq<u8>) -> Option<BlockView> {
    match read_block(s, 0) {
        Some((b, end)) => if end == s.len() {
            Some(b)
        } else {
            None
        },
        None => None,
    }
}

/// A block that stands at `pos` in canonical bytes is read back as it
/// was.
pub proof fn lemma_read_block(s: Seq<u8>, pos: int, b: BlockView)
    requires
        block_fits(b),
        holds_at(s, pos, block_bytes(b)),
    ensures
        read_block(s, pos) == Some((b, pos + block_bytes(b).len())),
{
    let a1 = u128_bytes(b.timestamp);
    let a2 = txs_bytes(b.transactions);
    let a3 = text_bytes(b.prev_block_hash);
    let a4 = text_bytes(b.hash);
    let a5 = i32_bytes(b.height);
    let a6 = i32_bytes(b.nonce);
    lemma_holds_at_concat(s, pos, a1 + a2 + a3 + a4 + a5, a6);
    lemma_holds_at_concat(s, pos, a1 + a2 + a3 + a4, a5);
    lemma_holds_at_concat(s, pos, a1 + a2 + a3, a4);
    lemma_holds_at_concat(s, pos, a1 + a2, a3);
    lemma_holds_at_concat(s, pos, a1, a2);
    lemma_read_u128(s, pos, b.timestamp);
    let stop1 = pos + a1.len();
    lemma_read_txs(s, stop1, b.transactions);
    let stop2 = stop1 + a2.len();
    lemma_read_text(s, stop2, b.prev_block_hash);
    let stop3 = stop2 + a3.len();
    lemma_read_text(s, stop3, b.hash);
    let stop4 = stop3 + a4.len();
    lemma_read_i32(s, stop4, b.height);
    lemma_read_i32(s, stop4 + a5.len(), b.nonce);
}

/// A block is read only from its canonical bytes.
pub proof fn lemma_block_was_written(s: Seq<u8>, pos: int)
    requires
        read_block(s, pos) is Some,
    ensures
        read_block(s, pos)->Some_0.1 == pos + block_bytes(read_block(s, pos)->Some_0.0).len(),
        holds_at(s, pos, block_bytes(read_block(s, pos)->Some_0.0)),
        block_fits(read_block(s, pos)->Some_0.0),
{
    let b = read_block(s, pos)->Some_0.0;
    crate::codec::lemma_u128_was_written(s, pos);
    let stop1 = pos + 16;
    crate::transaction::lemma_txs_were_written(s, stop1);
    let stop2 = read_txs(s, stop1)->Some_0.1;
    crate::codec::lemma_text_was_written(s, stop2);
    let stop3 = read_text(s, stop2)->Some_0.1;
    crate::codec::lemma_text_was_written(s, stop3);
    let stop4 = read_text(s, stop3)->Some_0.1;
    crate::codec::lemma_i32_was_written(s, stop4);
    crate::codec::lemma_i32_was_written(s, stop4 + 4);
    let a1 = u128_bytes(b.timestamp);
    let a2 = txs_bytes(b.transactions);
    let a3 = text_bytes(b.prev_block_hash);
    let a4 = text_bytes(b.hash);
    let a5 = i32_bytes(b.height);
    let a6 = i32_bytes(b.nonce);
    lemma_holds_at_concat(s, pos, a1, a2);
    lemma_holds_at_concat(s, pos, a1 + a2, a3);
    lemma_holds_at_concat(s, pos, a1 + a2 + a3, a4);
    lemma_holds_at_concat(s, pos, a1 + a2 + a3 + a4, a5);
    lemma_holds_at_concat(s, pos, a1 + a2 + a3 + a4 + a5, a6);
}

/// Bytes are read as a block exactly when they are the canonical bytes of
/// that block.
pub proof fn lemma_block_bytes_are_canonical(s: Seq<u8>, b: BlockView)
    ensures
        decode_block(s) == Some(b) <==> s == block_bytes(b) && block_fits(b),
{
    if decode_block(s) == Some(b) {
        lemma_block_was_written(s, 0);
        crate::codec::lemma_holds_whole(s, block_bytes(b));
    }
    if s == block_bytes(b) && block_fits(b) {
        lemma_block_round_trip(b);
    }
}

/// A block written in canonical bytes is read back as it was.
pub proof fn lemma_block_round_trip(b: BlockView)
    requires
        block_fits(b),
    ensures
        decode_block(block_bytes(b)) == Some(b),
{
    let s = block_bytes(b);
    lemma_holds_at_start(s, Seq::empty());
    assert(s + Seq::<u8>::empty() =~= s);
    lemma_read_block(s, 0, b);
}

impl Block {
    /// The hash of the block.
    pub fn get_hash(&self) -> (r: String)
        ensures
            r@ == self@.hash,
    {
        self.hash.clone()
    }

    /// The hash of the block before this one; empty for the first block.
    pub fn get_prev_hash(&self) -> (r: String)
        ensures
            r@ == self@.prev_block_hash,
    {
        self.prev_block_hash.clone()
    }

    /// The height of the block: 0 for the first block.
    pub fn get_height(&self) -> (r: i32)
        ensures
            r == self@.height,
    {
        self.height
    }

    /// The transactions of the block, in order.
    pub fn get_transactions(&self) -> (r: &Vec<Transaction>)
        ensures
            txs_view(r@) == self@.transactions,
    {
        &self.transactions
    }

    /// The time at which mining began, in milliseconds since the Unix epoch.
    pub fn get_timestamp(&self) -> (r: u128)
        ensures
            r == self@.timestamp,
    {
        self.timestamp
    }

    /// The nonce that mining found.
    pub fn get_nonce(&self) -> (r: i32)
        ensures
            r == self@.nonce,
    {
        self.nonce
    }

    /// The Merkle root of the block's transactions: for one transaction the
    /// 64 bytes of its hash text, for more a digest of 32 bytes.
    pub fn hash_transaction(&self) -> (r: Result<Vec<u8>, LedgerError>)
        ensures
            match r {
                Ok(root) => block_root_result(self@.transactions) == Ok::<Seq<u8>, LedgerError>(
                    root@,
                ) && (self@.transactions.len() == 1 ==> root@ == encode_utf8(
                    tx_hash(self@.transactions[0]),
                ) && root@.len() == 64) && (self@.transactions.len() >= 2 ==> root@.len()
                    == merkle::DIGEST_LEN),
                Err(e) => block_root_result(self@.transactions) == Err::<Seq<u8>, LedgerError>(e),
            },
    {
        let ghost txs = self@.transactions;
        let mut leaves: Vec<Vec<u8>> = Vec::new();
        let mut i: usize = 0;
        while i < self.transactions.len()
            invariant
                i <= self.transactions@.len(),
                txs == txs_view(self.transactions@),
                leaves@.len() == i,
                forall|j: int| 0 <= j < i ==> hashable(#[trigger] tx_bytes(txs[j]).len()),
                forall|j: int|
                    0 <= j < i ==> (#[trigger] leaves@[j])@ == tx_leaves(txs)[j] && leaves@[j]@.len()
                        == 64,
            decreases self.transactions@.len() - i,
        {
            assert(txs[i as int] == self.transactions@[i as int]@);
            match self.transactions[i].hash() {
                Ok(h) => {
                    leaves.push(h.as_str().as_bytes_vec());
                },
                Err(e) => {
                    assert(!hashable(tx_bytes(txs[i as int]).len()));
                    return Err(e);
                },
            }
            i += 1;
        }
        assert(merkle::leaves_view(leaves@) =~= tx_leaves(txs));
        merkle::compute_root(&leaves)
    }

    /// The bytes that are hashed for the block as it stands.
    pub fn prepare_hash_data(&self) -> (r: Result<Vec<u8>, LedgerError>)
        ensures
            match r {
                Ok(data) => block_root_result(self@.transactions) is Ok && data@ == preimage(
                    self@.prev_block_hash,
                    self@.timestamp,
                    block_root_result(self@.transactions)->Ok_0,
                    self@.nonce,
                ),
                Err(e) => block_root_result(self@.transactions) == Err::<Seq<u8>, LedgerError>(e),
            },
    {
        let root = match self.hash_transaction() {
            Ok(root) => root,
            Err(e) => return Err(e),
        };
        let mut data: Vec<u8> = Vec::new();
        put_text(&mut data, self.prev_block_hash.as_str());
        put_u128(&mut data, self.timestamp);
        put_blob(&mut data, root.as_slice());
        put_u64(&mut data, TARGET_HEX as u64);
        put_i32(&mut data, self.nonce);
        assert(data@ =~= preimage(
            self@.prev_block_hash,
            self@.timestamp,
            root@,
            self@.nonce,
        ));
        Ok(data)
    }

    /// Whether the block's fields, with the nonce as it stands, hash under
    /// the difficulty.
    pub fn validate(&self) -> (r: Result<bool, LedgerError>)
        ensures
            match r {
                Ok(ok) => seal_failure(self@) is None && ok == nonce_works(self@, self@.nonce),
                Err(e) => seal_failure(self@) == Some(e),
            },
    {
        let data = match self.prepare_hash_data() {
            Ok(data) => data,
            Err(e) => return Err(e),
        };
        proof {
            let root = block_root_result(self@.transactions)->Ok_0;
            lemma_preimage_len(self@.prev_block_hash, self@.timestamp, root, self@.nonce);
            lemma_preimage_len(self@.prev_block_hash, 0, root, 0);
        }
        if data.len() as u64 >= MAX_MESSAGE_LEN {
            return Err(LedgerError::SerializationFailure);
        }
        let digest = sha256_digest(data.as_slice());
        let text = to_hex(digest.as_slice());
        Ok(starts_with_zeros(&text))
    }

    /// Raises the nonce until the block's hash meets the difficulty, and
    /// sets the hash. The nonce found is the first that works from the one
    /// the block had. Where the nonces run out, or the block cannot be
    /// hashed, the block keeps its fields but for the nonce.
    pub fn run_proof_of_work(&mut self) -> (r: Result<(), LedgerError>)
        ensures
            final(self)@.timestamp == old(self)@.timestamp,
            final(self)@.transactions == old(self)@.transactions,
            final(self)@.prev_block_hash == old(self)@.prev_block_hash,
            final(self)@.height == old(self)@.height,
            match r {
                Ok(()) => mined_from(final(self)@, old(self)@.nonce) && hash_sized(
                    final(self)@.hash,
                ),
                Err(e) => final(self)@.hash == old(self)@.hash && (match seal_failure(old(self)@) {
                    Some(cause) => e == cause,
                    None => e == LedgerError::Overflow && exhausted_from(
                        old(self)@,
                        old(self)@.nonce,
                    ),
                }),
            },
    {
        let root = match self.hash_transaction() {
            Ok(root) => root,
            Err(e) => return Err(e),
        };
        let ghost before = self@;
        proof {
            lemma_preimage_len(before.prev_block_hash, 0, root@, 0);
        }
        loop
            invariant
                before == old(self)@,
                self@.timestamp == before.timestamp,
                self@.transactions == before.transactions,
                self@.prev_block_hash == before.prev_block_hash,
                self@.height == before.height,
                self@.hash == before.hash,
                before.nonce <= self@.nonce,
                block_root_result(before.transactions) == Ok::<Seq<u8>, LedgerError>(root@),
                preimage(before.prev_block_hash, 0, root@, 0).len() == 44 + encode_utf8(
                    before.prev_block_hash,
                ).len() + root@.len(),
                forall|k: i32| before.nonce <= k < self@.nonce ==> !#[trigger] nonce_works(before, k),
            decreases i32::MAX - self.nonce,
        {
            proof {
                lemma_preimage_len(before.prev_block_hash, before.timestamp, root@, self@.nonce);
            }
            let text = match compute_seal(&self.prev_block_hash, self.timestamp, &root, self.nonce) {
                Ok(text) => text,
                Err(e) => {
                    return Err(e);
                },
            };
            if starts_with_zeros(&text) {
                self.hash = text;
                proof {
                    let after = self@;
                    assert(seal_at(after, after.nonce) == seal_at(before, after.nonce));
                    assert forall|k: i32| before.nonce <= k < after.nonce implies !#[trigger] nonce_works(
                        after,
                        k,
                    ) by {
                        assert(nonce_works(after, k) == nonce_works(before, k));
                    }
                }
                return Ok(());
            }
            if self.nonce == i32::MAX {
                return Err(LedgerError::Overflow);
            }
            self.nonce = self.nonce + 1;
        }
    }

    /// Mines the block that holds `transactions` behind the block with hash
    /// `prev_block_hash`, at the given height and time: the nonce is the
    /// first from 0 on that works. A block holds at least one transaction.
    pub fn mine(
        transactions: Vec<Transaction>,
        prev_block_hash: String,
        height: i32,
        timestamp: u128,
    ) -> (r: Result<Block, LedgerError>)
        ensures
            match r {
                Ok(b) => transactions@.len() > 0 && b@.timestamp == timestamp && b@.transactions
                    == txs_view(transactions@) && b@.prev_block_hash == prev_block_hash@
                    && b@.height == height && mined_from(b@, 0) && hash_sized(b@.hash)
                    && mine_failure(txs_view(transactions@), prev_block_hash@, height, timestamp)
                    is None,
                Err(e) => e == mine_failure(
                    txs_view(transactions@),
                    prev_block_hash@,
                    height,
                    timestamp,
                )->Some_0 && mine_failure(
                    txs_view(transactions@),
                    prev_block_hash@,
                    height,
                    timestamp,
                ) is Some,
            },
    {
        if transactions.len() == 0 {
            return Err(LedgerError::EmptyBlock);
        }
        let mut block = Block {
            timestamp,
            transactions,
            prev_block_hash,
            hash: String::new(),
            height,
            nonce: 0,
        };
        let ghost start = block@;
        match block.run_proof_of_work() {
            Ok(()) => {
                proof {
                    assert(seal_failure(start) == seal_failure(block@));
                    assert(nonce_works(start, block@.nonce) == nonce_works(block@, block@.nonce));
                }
                Ok(block)
            },
            Err(e) => Err(e),
        }
    }

    /// Mines a block at the time that the system clock gives. Whatever the
    /// time is, the result is the block mined for it.
    pub fn new_block(data: Vec<Transaction>, prev_block_hash: String, height: i32) -> (r: Result<
        Block,
        LedgerError,
    >)
        ensures
            match r {
                Ok(b) => data@.len() > 0 && b@.transactions == txs_view(data@)
                    && b@.prev_block_hash == prev_block_hash@ && b@.height == height && mined_from(
                    b@,
                    0,
                ) && hash_sized(b@.hash),
                Err(e) => e == LedgerError::ClockUnavailable || exists|timestamp: u128| #[trigger]
                    mine_failure(txs_view(data@), prev_block_hash@, height, timestamp) == Some(e),
            },
    {
        match system::now_millis() {
            None => Err(LedgerError::ClockUnavailable),
            Some(timestamp) => Block::mine(data, prev_block_hash, height, timestamp),
        }
    }

    /// Mines the first block of a chain: it holds the coinbase alone, has no
    /// block before it and stands at height 0.
    pub fn new_genesis_block(coinbase: Transaction) -> (r: Result<Block, LedgerError>)
        ensures
            match r {
                Ok(b) => b@.transactions == seq![coinbase@] && b@.prev_block_hash.len() == 0
                    && b@.height == 0 && mined_from(b@, 0) && hash_sized(b@.hash),
                Err(e) => e == LedgerError::ClockUnavailable || exists|timestamp: u128| #[trigger]
                    mine_failure(seq![coinbase@], Seq::empty(), 0, timestamp) == Some(e),
            },
    {
        let mut data: Vec<Transaction> = Vec::new();
        data.push(coinbase);
        assert(txs_view(data@) =~= seq![coinbase@]);
        Block::new_block(data, String::new(), 0)
    }

    /// The block in canonical bytes.
    pub fn to_bytes(&self) -> (bytes: Vec<u8>)
        ensures
            bytes@ == block_bytes(self@),
            block_fits(self@),
    {
        let mut bytes: Vec<u8> = Vec::new();
        put_u128(&mut bytes, self.timestamp);
        put_txs(&mut bytes, &self.transactions);
        put_text(&mut bytes, self.prev_block_hash.as_str());
        put_text(&mut bytes, self.hash.as_str());
        put_i32(&mut bytes, self.height);
        put_i32(&mut bytes, self.nonce);
        assert(bytes@ =~= block_bytes(self@));
        bytes
    }

    /// Reads a block from its canonical bytes; anything else is refused.
    pub fn from_bytes(bytes: &[u8]) -> (r: Option<Self>)
        ensures
            match r {
                Some(b) => decode_block(bytes@) == Some(b@),
                None => decode_block(bytes@) is None,
            },
    {
        let (timestamp, stop1) = match get_u128(bytes, 0) {
            Some(x) => x,
            None => return None,
        };
        let (transactions, stop2) = match get_txs(bytes, stop1) {
            Some(x) => x,
            None => return None,
        };
        let (prev_block_hash, stop3) = match get_text(bytes, stop2) {
            Some(x) => x,
            None => return None,
        };
        let (hash, stop4) = match get_text(bytes, stop3) {
            Some(x) => x,
            None => return None,
        };
        let (height, stop5) = match get_i32(bytes, stop4) {
            Some(x) => x,
            None => return None,
        };
        let (nonce, stop6) = match get_i32(bytes, stop5) {
            Some(x) => x,
            None => return None,
        };
        if stop6 != bytes.len() {
            return None;
        }
        Some(Block { timestamp, transactions, prev_block_hash, hash, height, nonce })
    }
}

/// The fields of a block that is about to be mined.
pub open spec fn unmined(
    txs: Seq<TransactionView>,
    prev: Seq<char>,
    height: i32,
    timestamp: u128,
) -> BlockView {
    BlockView {
        timestamp,
        transactions: txs,
        prev_block_hash: prev,
        hash: Seq::empty(),
        height,
        nonce: 0,
    }
}

/// Why mining these fields gives no block, if it gives none: there is no
/// transaction, the fields cannot be hashed, or no nonce works.
pub open spec fn mine_failure(
    txs: Seq<TransactionView>,
    prev: Seq<char>,
    height: i32,
    timestamp: u128,
) -> Option<LedgerError> {
    let b = unmined(txs, prev, height, timestamp);
    if txs.len() == 0 {
        Some(LedgerError::EmptyBlock)
    } else if seal_failure(b) is Some {
        seal_failure(b)
    } else if exhausted_from(b, 0) {
        Some(LedgerError::Overflow)
    } else {
        None
    }
}

} // verus!
