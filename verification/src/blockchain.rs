use vstd::prelude::*;
use vstd::string::*;
use vstd::utf8::*;
use crate::block::{
    block_bytes, decode_block, meets_target, mine_failure, mined_from, seal_at,
    seal_failure, Block, BlockView,
};
use crate::codec::text_from_utf8;
use crate::errors::LedgerError;
use crate::keyspace::Keyspace;
use crate::transaction::{
    coinbase_result, find_prev, hash_sized, sign_result, signatures_sized, txs_view, verify_result,
    Transaction, TransactionView,
};
use crate::utxo::{
    apply_txs, consumed, consumed_by, created, inputs_upto, key_bytes, lemma_apply_from_empty,
    outputs_upto, surviving, Store,
};

verus! {

/// The key under which the hash of the newest block stands: the text LAST.
pub open spec fn last_key() -> Seq<u8> {
    seq![0x4cu8, 0x41u8, 0x53u8, 0x54u8]
}

/// The key under which a block stands: the bytes of its hash text.
pub open spec fn block_key(hash: Seq<char>) -> Seq<u8> {
    encode_utf8(hash)
}

/// One step of the walk from the block with hash `hash`: the block, or
/// nothing where the walk ends (no step is left, or no block stands under
/// the hash); an entry that is no block is an error.
pub open spec fn step(m: Store, hash: Seq<char>, fuel: nat) -> Result<Option<BlockView>, LedgerError> {
    if fuel == 0 || !m.contains_key(block_key(hash)) {
        Ok(None)
    } else {
        match decode_block(m[block_key(hash)]) {
            Some(b) => Ok(Some(b)),
            None => Err(LedgerError::StorageFailure),
        }
    }
}

/// The blocks from the one with hash `hash` back to the first, newest
/// first: each block is followed by the one that its `prev_block_hash`
/// names. The walk takes at most `fuel` steps.
pub open spec fn walk(m: Store, hash: Seq<char>, fuel: nat) -> Result<Seq<BlockView>, LedgerError>
    decreases fuel,
{
    match step(m, hash, fuel) {
        Err(e) => Err(e),
        Ok(None) => Ok(Seq::empty()),
        Ok(Some(b)) => match walk(m, b.prev_block_hash, (fuel - 1) as nat) {
            Ok(rest) => Ok(seq![b] + rest),
            Err(e) => Err(e),
        },
    }
}

/// The blocks already walked, followed by what the rest of the walk gives.
pub open spec fn walked(done: Seq<BlockView>, rest: Result<Seq<BlockView>, LedgerError>) -> Result<
    Seq<BlockView>,
    LedgerError,
> {
    match rest {
        Ok(more) => Ok(done + more),
        Err(e) => Err(e),
    }
}

/// The blocks of a list, each by its view.
pub open spec fn blocks_view(v: Seq<Block>) -> Seq<BlockView> {
    v.map_values(|b: Block| b@)
}

/// The transactions of a list of blocks, block by block in list order.
pub open spec fn scan_txs(bs: Seq<BlockView>) -> Seq<TransactionView>
    decreases bs.len(),
{
    if bs.len() == 0 {
        Seq::empty()
    } else {
        scan_txs(bs.drop_last()) + bs.last().transactions
    }
}

/// The transactions of a chain in the order in which they were appended:
/// the first block's first, the newest block's last.
pub open spec fn chain_txs(newest_first: Seq<BlockView>) -> Seq<TransactionView> {
    scan_txs(newest_first.reverse())
}

/// Some input of the transaction refers to the transaction `id`.
pub open spec fn refers_to(tx: TransactionView, id: Seq<char>) -> bool {
    exists|i: int| 0 <= i < tx.vin.len() && (#[trigger] tx.vin[i]).txid == id
}

/// Those transactions of `scan`, in order, that `tx` refers to.
pub open spec fn referenced(scan: Seq<TransactionView>, tx: TransactionView) -> Seq<TransactionView>
    decreases scan.len(),
{
    if scan.len() == 0 {
        Seq::empty()
    } else if refers_to(tx, scan.last().id) {
        referenced(scan.drop_last(), tx).push(scan.last())
    } else {
        referenced(scan.drop_last(), tx)
    }
}

/// The prior transactions that a chain supplies for `tx`: the chain is
/// scanned from the newest block to the first, so of two transactions with
/// one id the one in the older block is the one that counts.
pub open spec fn prior_txs(newest_first: Seq<BlockView>, tx: TransactionView) -> Seq<TransactionView> {
    referenced(scan_txs(newest_first), tx)
}

/// The unspent outputs of a chain: what applying its transactions in order
/// leaves.
pub open spec fn chain_utxos(newest_first: Seq<BlockView>) -> Store {
    apply_txs(Map::empty(), chain_txs(newest_first))
}

/// The transactions of a list of blocks, block by block.
fn flatten(blocks: &Vec<Block>) -> (out: Vec<Transaction>)
    ensures
        txs_view(out@) == scan_txs(blocks_view(blocks@)),
{
    let ghost bv = blocks_view(blocks@);
    let mut out: Vec<Transaction> = Vec::new();
    let mut nb: usize = 0;
    assert(bv.subrange(0, 0) =~= Seq::<BlockView>::empty());
    assert(txs_view(out@) =~= scan_txs(bv.subrange(0, 0)));
    while nb < blocks.len()
        invariant
            nb <= blocks@.len(),
            bv == blocks_view(blocks@),
            txs_view(out@) == scan_txs(bv.subrange(0, nb as int)),
        decreases blocks@.len() - nb,
    {
        let txs = blocks[nb].get_transactions();
        let ghost head = txs_view(out@);
        let ghost these = txs_view(txs@);
        let mut j: usize = 0;
        assert(these.subrange(0, 0) =~= Seq::<TransactionView>::empty());
        assert(head + these.subrange(0, 0) =~= head);
        while j < txs.len()
            invariant
                j <= txs@.len(),
                these == txs_view(txs@),
                txs_view(out@) == head + these.subrange(0, j as int),
            decreases txs@.len() - j,
        {
            proof {
                assert(txs_view(out@.push(txs@[j as int])) =~= txs_view(out@).push(
                    txs@[j as int]@,
                ));
                assert(these.subrange(0, j + 1) =~= these.subrange(0, j as int).push(
                    these[j as int],
                ));
                assert((head + these.subrange(0, j as int)).push(these[j as int]) =~= head
                    + these.subrange(0, j + 1));
            }
            let copy = txs[j].clone();
            assert(copy@ == txs@[j as int]@);
            proof {
                assert(txs_view(out@.push(copy)) =~= txs_view(out@).push(copy@));
            }
            out.push(copy);
            j += 1;
        }
        proof {
            assert(these.subrange(0, j as int) =~= these);
            let next = bv.subrange(0, nb + 1);
            assert(next.drop_last() =~= bv.subrange(0, nb as int));
            assert(next.last() == blocks@[nb as int]@);
        }
        nb += 1;
    }
    assert(bv.subrange(0, nb as int) =~= bv);
    out
}

/// The blocks of a list in the opposite order.
fn reversed(blocks: Vec<Block>) -> (out: Vec<Block>)
    ensures
        blocks_view(out@) == blocks_view(blocks@).reverse(),
{
    let ghost bv = blocks_view(blocks@);
    let mut rest = blocks;
    let mut out: Vec<Block> = Vec::new();
    while rest.len() > 0
        invariant
            rest@.len() + out@.len() == bv.len(),
            forall|i: int| 0 <= i < rest@.len() ==> (#[trigger] rest@[i])@ == bv[i],
            forall|i: int| 0 <= i < out@.len() ==> (#[trigger] out@[i])@ == bv[bv.len() - 1 - i],
        decreases rest@.len(),
    {
        match rest.pop() {
            Some(block) => {
                out.push(block);
            },
            None => {},
        }
    }
    assert(blocks_view(out@) =~= bv.reverse());
    out
}

/// Whether some input of `tx` refers to the transaction `id`.
fn refers(tx: &Transaction, id: &String) -> (r: bool)
    ensures
        r == refers_to(tx@, id@),
{
    let mut i: usize = 0;
    while i < tx.vin.len()
        invariant
            i <= tx.vin@.len(),
            forall|j: int| 0 <= j < i ==> (#[trigger] tx@.vin[j]).txid != id@,
        decreases tx.vin@.len() - i,
    {
        assert(tx@.vin[i as int] == tx.vin@[i as int]@);
        if tx.vin[i].txid == *id {
            return true;
        }
        i += 1;
    }
    false
}

/// The blocks, newest first, form one path: each block names the block
/// behind it and stands one higher; the last one names no block and stands
/// at height 0.
pub open spec fn linked(c: Seq<BlockView>) -> bool {
    &&& c.len() > 0
    &&& c.last().prev_block_hash.len() == 0
    &&& c.last().height == 0
    &&& forall|i: int|
        0 <= i < c.len() - 1 ==> (#[trigger] c[i]).prev_block_hash == c[i + 1].hash && c[i].height
            == c[i + 1].height + 1
}

/// The block's hash is the hash of its fields and meets the difficulty.
pub open spec fn sealed(b: BlockView) -> bool {
    &&& seal_failure(b) is None
    &&& b.hash == seal_at(b, b.nonce)
    &&& meets_target(b.hash)
    &&& hash_sized(b.hash)
}

/// Some block of the list stands under the key.
pub open spec fn on_path(c: Seq<BlockView>, k: Seq<u8>) -> bool {
    exists|i: int| 0 <= i < c.len() && k == block_key((#[trigger] c[i]).hash)
}

/// The blocks `c` are a chain in the store `m` with the newest hash `tip`:
/// the entry LAST names the newest block, the blocks form one path down to
/// the first block, every block is sealed and stands under its own hash,
/// and the store holds nothing else.
#[verifier::opaque]
pub open spec fn path_in(m: Store, tip: Seq<char>, c: Seq<BlockView>) -> bool {
    &&& m.dom().finite()
    &&& m.contains_key(last_key())
    &&& m[last_key()] == block_key(tip)
    &&& linked(c)
    &&& c[0].hash == tip
    &&& forall|i: int| 0 <= i < c.len() ==> sealed(#[trigger] c[i])
    &&& forall|i: int| 0 <= i < c.len() ==> m.contains_key(block_key((#[trigger] c[i]).hash))
    &&& forall|i: int|
        0 <= i < c.len() ==> decode_block(m[block_key((#[trigger] c[i]).hash)]) == Some(c[i])
    &&& forall|k: Seq<u8>| #[trigger] m.contains_key(k) ==> k == last_key() || on_path(c, k)
}

/// A store and the hash of its newest block form a chain: the walk from
/// the newest block gives blocks that are a chain in the store, and every
/// transaction of those blocks verifies against them.
pub open spec fn well_formed(m: Store, tip: Seq<char>) -> bool {
    &&& walk(m, tip, m.len()) is Ok
    &&& path_in(m, tip, walk(m, tip, m.len())->Ok_0)
    &&& verified(walk(m, tip, m.len())->Ok_0)
}

/// The newest block as the store names it: the entry LAST holds its hash,
/// under which the block stands.
pub open spec fn tip_entry(m: Store) -> Result<(Seq<char>, BlockView), LedgerError> {
    if !m.contains_key(last_key()) {
        Err(LedgerError::NotInitialized)
    } else if !valid_utf8(m[last_key()]) || !m.contains_key(m[last_key()]) {
        Err(LedgerError::StorageFailure)
    } else {
        match decode_block(m[m[last_key()]]) {
            Some(b) => Ok((decode_utf8(m[last_key()]), b)),
            None => Err(LedgerError::StorageFailure),
        }
    }
}

/// The memo of the coinbase in the first block of every chain.
pub open spec fn genesis_memo() -> Seq<char> {
    "Genesis Block"@
}

/// Why no chain can be created for these values, if none can.
pub open spec fn create_failure(address: Seq<char>, salt: Seq<u8>, timestamp: u128) -> Option<
    LedgerError,
> {
    match coinbase_result(address, genesis_memo(), salt) {
        Err(e) => Some(e),
        Ok(coinbase) => mine_failure(seq![coinbase], Seq::empty(), 0, timestamp),
    }
}

/// Where a chain can be created, its first transaction is a coinbase that
/// pays the reward to the hash that the address stands for.
pub proof fn lemma_genesis_pays_creator(address: Seq<char>, salt: Seq<u8>, timestamp: u128)
    requires
        create_failure(address, salt, timestamp) is None,
    ensures
        coinbase_result(address, genesis_memo(), salt) is Ok,
        crate::address::decoded_body(address) is Some,
        crate::transaction::is_coinbase(coinbase_result(address, genesis_memo(), salt)->Ok_0),
        coinbase_result(address, genesis_memo(), salt)->Ok_0.vout == seq![
            crate::tx::TxOutputView {
                value: crate::transaction::REWARD,
                pub_key_hash: crate::address::decoded_body(address)->Some_0,
            },
        ],
{
    reveal_strlit("Genesis Block");
}

/// The block is the one mined for these fields.
pub open spec fn mined_for(
    b: BlockView,
    txs: Seq<TransactionView>,
    prev: Seq<char>,
    height: i32,
    timestamp: u128,
) -> bool {
    &&& b.transactions == txs
    &&& b.prev_block_hash == prev
    &&& b.height == height
    &&& b.timestamp == timestamp
    &&& mined_from(b, 0)
    &&& hash_sized(b.hash)
}

/// The block `b` is the one to append to the store `m` for these
/// transactions and this time: it is mined behind the newest block, one
/// higher, and the store does not hold its hash yet.
pub open spec fn appendable(m: Store, b: BlockView, txs: Seq<TransactionView>, timestamp: u128) -> bool {
    &&& tip_entry(m) is Ok
    &&& tip_entry(m)->Ok_0.1.height < i32::MAX
    &&& mined_for(
        b,
        txs,
        tip_entry(m)->Ok_0.0,
        (tip_entry(m)->Ok_0.1.height + 1) as i32,
        timestamp,
    )
    &&& mine_failure(
        txs,
        tip_entry(m)->Ok_0.0,
        (tip_entry(m)->Ok_0.1.height + 1) as i32,
        timestamp,
    ) is None
    &&& !m.contains_key(block_key(b.hash))
}

/// The error `e` is why no block can be appended to the store `m` for
/// these transactions and this time: the newest block cannot be read, it
/// stands at the greatest height, no block can be mined, or the store
/// holds the hash of the mined block already.
pub open spec fn append_refused(
    m: Store,
    txs: Seq<TransactionView>,
    timestamp: u128,
    e: LedgerError,
) -> bool {
    match tip_entry(m) {
        Err(cause) => e == cause,
        Ok((hash, tip)) => if tip.height == i32::MAX {
            e == LedgerError::Overflow
        } else {
            match mine_failure(txs, hash, (tip.height + 1) as i32, timestamp) {
                Some(cause) => e == cause,
                None => e == LedgerError::StorageFailure && exists|b: BlockView| #[trigger]
                    mined_for(b, txs, hash, (tip.height + 1) as i32, timestamp) && m.contains_key(
                        block_key(b.hash),
                    ),
            }
        },
    }
}

/// The store after the block `b` is appended: the block under its hash,
/// and its hash under LAST.
pub open spec fn with_block(m: Store, b: BlockView) -> Store {
    m.insert(block_key(b.hash), block_bytes(b)).insert(last_key(), block_key(b.hash))
}

/// A walk that meets none of the keys in which two stores differ gives the
/// same blocks on both.
pub proof fn lemma_walk_frame(m: Store, m2: Store, bad: Set<Seq<u8>>, hash: Seq<char>, fuel: nat)
    requires
        forall|k: Seq<u8>|
            !bad.contains(k) ==> (#[trigger] m.contains_key(k) == m2.contains_key(k)) && (
            m.contains_key(k) ==> m[k] == m2[k]),
        walk(m, hash, fuel) is Ok,
        !bad.contains(block_key(hash)),
        forall|i: int|
            0 <= i < walk(m, hash, fuel)->Ok_0.len() ==> !bad.contains(
                block_key((#[trigger] walk(m, hash, fuel)->Ok_0[i]).prev_block_hash),
            ),
    ensures
        walk(m2, hash, fuel) == walk(m, hash, fuel),
    decreases fuel,
{
    let c = walk(m, hash, fuel)->Ok_0;
    assert(m.contains_key(block_key(hash)) == m2.contains_key(block_key(hash)));
    match step(m, hash, fuel) {
        Ok(Some(b)) => {
            let rest = walk(m, b.prev_block_hash, (fuel - 1) as nat)->Ok_0;
            assert(c =~= seq![b] + rest);
            assert(c[0] == b);
            assert forall|i: int| 0 <= i < rest.len() implies !bad.contains(
                block_key((#[trigger] rest[i]).prev_block_hash),
            ) by {
                assert(rest[i] == c[i + 1]);
            }
            lemma_walk_frame(m, m2, bad, b.prev_block_hash, (fuel - 1) as nat);
        },
        _ => {},
    }
}

/// In a chain of linked blocks the height of a block is the number of
/// blocks behind it: from the first block at height 0 the heights rise by
/// one up to the newest.
pub proof fn lemma_linked_heights(c: Seq<BlockView>, i: int)
    requires
        linked(c),
        0 <= i < c.len(),
    ensures
        c[i].height == c.len() - 1 - i,
    decreases c.len() - i,
{
    if i < c.len() - 1 {
        lemma_linked_heights(c, i + 1);
    }
}

/// Every chain is a single path: its blocks, newest first, are linked from
/// the newest hash down to the first block, which names no block and
/// stands at height 0, and the heights rise by one from block to block.
pub proof fn lemma_chain_is_path(m: Store, tip: Seq<char>)
    requires
        well_formed(m, tip),
    ensures
        linked(walk(m, tip, m.len())->Ok_0),
        walk(m, tip, m.len())->Ok_0[0].hash == tip,
        forall|i: int|
            0 <= i < walk(m, tip, m.len())->Ok_0.len() ==> (#[trigger] walk(
                m,
                tip,
                m.len(),
            )->Ok_0[i]).height == walk(m, tip, m.len())->Ok_0.len() - 1 - i,
{
    reveal(path_in);
    let c = walk(m, tip, m.len())->Ok_0;
    assert forall|i: int| 0 <= i < c.len() implies (#[trigger] c[i]).height == c.len() - 1 - i by {
        lemma_linked_heights(c, i);
    }
}

/// Every transaction of a chain verifies against the chain as it stands,
/// whatever has been appended since the transaction came in.
pub proof fn lemma_chain_transactions_verify(m: Store, tip: Seq<char>, k: int)
    requires
        well_formed(m, tip),
        0 <= k < scan_txs(walk(m, tip, m.len())->Ok_0).len(),
    ensures
        verify_result(
            scan_txs(walk(m, tip, m.len())->Ok_0)[k],
            prior_txs(walk(m, tip, m.len())->Ok_0, scan_txs(walk(m, tip, m.len())->Ok_0)[k]),
        ) == Ok::<bool, LedgerError>(true),
{
}

/// No two blocks of a chain carry the same hash: each hash names one block
/// of the path.
pub proof fn lemma_chain_hashes_differ(m: Store, tip: Seq<char>, i: int, j: int)
    requires
        well_formed(m, tip),
        0 <= i < j < walk(m, tip, m.len())->Ok_0.len(),
    ensures
        walk(m, tip, m.len())->Ok_0[i].hash != walk(m, tip, m.len())->Ok_0[j].hash,
{
    reveal(path_in);
    let c = walk(m, tip, m.len())->Ok_0;
    lemma_linked_heights(c, i);
    lemma_linked_heights(c, j);
    if c[i].hash == c[j].hash {
        assert(decode_block(m[block_key(c[i].hash)]) == Some(c[i]));
        assert(decode_block(m[block_key(c[j].hash)]) == Some(c[j]));
    }
}

/// Every block of a chain carries the hash of its fields, and that hash
/// begins with as many zeros as the difficulty asks.
pub proof fn lemma_chain_blocks_sealed(m: Store, tip: Seq<char>, i: int)
    requires
        well_formed(m, tip),
        0 <= i < walk(m, tip, m.len())->Ok_0.len(),
    ensures
        sealed(walk(m, tip, m.len())->Ok_0[i]),
        meets_target(walk(m, tip, m.len())->Ok_0[i].hash),
{
    reveal(path_in);
}

/// The first step of a walk, spelled out.
pub proof fn lemma_walk_unfold(m: Store, hash: Seq<char>, fuel: nat)
    ensures
        walk(m, hash, fuel) == match step(m, hash, fuel) {
            Err(e) => Err::<Seq<BlockView>, LedgerError>(e),
            Ok(None) => Ok(Seq::empty()),
            Ok(Some(b)) => walked(seq![b], walk(m, b.prev_block_hash, (fuel - 1) as nat)),
        },
{
}

/// In a chain, the newest block as the store names it is the first block
/// of the walk.
pub proof fn lemma_tip_is_head(m: Store, tip: Seq<char>)
    requires
        well_formed(m, tip),
    ensures
        tip_entry(m) == Ok::<(Seq<char>, BlockView), LedgerError>(
            (tip, walk(m, tip, m.len())->Ok_0[0]),
        ),
{
    reveal(path_in);
    let c = walk(m, tip, m.len())->Ok_0;
    encode_utf8_valid_utf8(tip);
    encode_utf8_decode_utf8(tip);
    lemma_walk_unfold(m, tip, m.len());
    assert(c.len() > 0);
    match step(m, tip, m.len()) {
        Ok(Some(b)) => {
            let rest = walk(m, b.prev_block_hash, (m.len() - 1) as nat)->Ok_0;
            assert(c =~= seq![b] + rest);
            assert(c[0] == b);
        },
        _ => {
            assert(false);
        },
    }
}

/// With a new block in front, under a hash that the store does not hold,
/// the walk gives the new block and then the blocks of the old chain.
pub proof fn lemma_append_walk(m: Store, tip: Seq<char>, b: BlockView)
    requires
        well_formed(m, tip),
        hash_sized(b.hash),
        crate::block::block_fits(b),
        !m.contains_key(block_key(b.hash)),
        b.prev_block_hash == tip,
    ensures
        with_block(m, b).dom().finite(),
        with_block(m, b).len() == m.len() + 1,
        walk(with_block(m, b), b.hash, with_block(m, b).len()) == Ok::<
            Seq<BlockView>,
            LedgerError,
        >(seq![b] + walk(m, tip, m.len())->Ok_0),
{
    reveal(path_in);
    let m2 = with_block(m, b);
    let c = walk(m, tip, m.len())->Ok_0;
    let key = block_key(b.hash);
    let bad = set![key, last_key()];
    assert(last_key().len() == 4);
    assert(encode_utf8(Seq::<char>::empty()) =~= Seq::<u8>::empty());
    assert(m2.dom() =~= m.dom().insert(key));
    assert(m2.len() == m.len() + 1);
    assert forall|i: int| 0 <= i < c.len() implies !bad.contains(
        block_key((#[trigger] c[i]).prev_block_hash),
    ) by {
        if i < c.len() - 1 {
            assert(c[i].prev_block_hash == c[i + 1].hash);
            assert(sealed(c[i + 1]));
            assert(m.contains_key(block_key(c[i + 1].hash)));
        }
    }
    assert(!bad.contains(block_key(tip))) by {
        assert(sealed(c[0]));
        assert(m.contains_key(block_key(c[0].hash)));
    }
    assert forall|k: Seq<u8>| !bad.contains(k) implies (#[trigger] m.contains_key(k)
        == m2.contains_key(k)) && (m.contains_key(k) ==> m[k] == m2[k]) by {}
    lemma_walk_frame(m, m2, bad, tip, m.len());
    assert(step(m2, b.hash, m2.len()) == Ok::<Option<BlockView>, LedgerError>(Some(b))) by {
        crate::block::lemma_block_round_trip(b);
        assert(m2[key] == block_bytes(b));
    }
    lemma_walk_unfold(m2, b.hash, m2.len());
}

/// A sealed block in front of a chain, one higher than its newest block
/// and under a hash that the store does not hold, makes a chain again.
pub proof fn lemma_append_path(m: Store, tip: Seq<char>, c: Seq<BlockView>, b: BlockView)
    requires
        path_in(m, tip, c),
        sealed(b),
        crate::block::block_fits(b),
        !m.contains_key(block_key(b.hash)),
        b.prev_block_hash == tip,
        b.height == c[0].height + 1,
    ensures
        path_in(with_block(m, b), b.hash, seq![b] + c),
{
    reveal(path_in);
    crate::block::lemma_block_round_trip(b);
    let m2 = with_block(m, b);
    let c2 = seq![b] + c;
    let key = block_key(b.hash);
    assert(last_key().len() == 4);
    assert(m2.dom() =~= m.dom().insert(key));
    assert(c2.last() == c.last());
    assert forall|i: int| 0 <= i < c2.len() - 1 implies (#[trigger] c2[i]).prev_block_hash
        == c2[i + 1].hash && c2[i].height == c2[i + 1].height + 1 by {
        if i > 0 {
            assert(c2[i] == c[i - 1]);
            assert(c2[i + 1] == c[i]);
        } else {
            assert(c2[1] == c[0]);
        }
    }
    assert forall|i: int| 0 <= i < c2.len() implies sealed(#[trigger] c2[i]) && m2.contains_key(
        block_key(c2[i].hash),
    ) && decode_block(m2[block_key(c2[i].hash)]) == Some(c2[i]) by {
        if i > 0 {
            assert(c2[i] == c[i - 1]);
            assert(sealed(c[i - 1]));
            assert(m.contains_key(block_key(c[i - 1].hash)));
            assert(decode_block(m[block_key(c[i - 1].hash)]) == Some(c[i - 1]));
        }
    }
    assert forall|k: Seq<u8>| #[trigger] m2.contains_key(k) implies k == last_key() || on_path(
        c2,
        k,
    ) by {
        if k == key {
            assert(k == block_key(c2[0].hash));
        } else if k != last_key() {
            assert(m.contains_key(k));
            assert(on_path(c, k));
            let i = choose|i: int| 0 <= i < c.len() && k == block_key((#[trigger] c[i]).hash);
            assert(c2[i + 1] == c[i]);
            assert(k == block_key(c2[i + 1].hash));
        }
    }
}

/// Appending a sealed block behind the newest block of a chain, one
/// higher and under a hash that the store does not hold yet, gives a chain
/// again: the old one with the new block in front.
pub proof fn lemma_append_keeps_chain(m: Store, tip: Seq<char>, b: BlockView)
    requires
        well_formed(m, tip),
        sealed(b),
        crate::block::block_fits(b),
        !m.contains_key(block_key(b.hash)),
        tip_entry(m) is Ok,
        b.prev_block_hash == tip_entry(m)->Ok_0.0,
        b.height == tip_entry(m)->Ok_0.1.height + 1,
        forall|k: int|
            0 <= k < b.transactions.len() ==> verify_result(
                #[trigger] b.transactions[k],
                prior_txs(walk(m, tip, m.len())->Ok_0, b.transactions[k]),
            ) == Ok::<bool, LedgerError>(true),
    ensures
        well_formed(with_block(m, b), b.hash),
        walk(with_block(m, b), b.hash, with_block(m, b).len()) == Ok::<
            Seq<BlockView>,
            LedgerError,
        >(seq![b] + walk(m, tip, m.len())->Ok_0),
{
    lemma_tip_is_head(m, tip);
    lemma_append_walk(m, tip, b);
    lemma_append_path(m, tip, walk(m, tip, m.len())->Ok_0, b);
    lemma_append_keeps_verified(walk(m, tip, m.len())->Ok_0, b);
}

/// A store that holds one sealed block without a block behind it, at
/// height 0, and names it under LAST, is a chain of that block.
pub proof fn lemma_first_block_is_chain(b: BlockView)
    requires
        sealed(b),
        crate::block::block_fits(b),
        b.prev_block_hash.len() == 0,
        b.height == 0,
        forall|k: int|
            0 <= k < b.transactions.len() ==> crate::transaction::is_coinbase(
                #[trigger] b.transactions[k],
            ),
    ensures
        well_formed(with_block(Map::empty(), b), b.hash),
        walk(with_block(Map::empty(), b), b.hash, with_block(Map::empty(), b).len()) == Ok::<
            Seq<BlockView>,
            LedgerError,
        >(seq![b]),
{
    reveal(path_in);
    let m = with_block(Map::empty(), b);
    let key = block_key(b.hash);
    crate::block::lemma_block_round_trip(b);
    assert(last_key().len() == 4);
    assert(m.dom() =~= set![key, last_key()]);
    assert(m.dom() =~= Set::<Seq<u8>>::empty().insert(key).insert(last_key()));
    assert(m.len() == 2);
    assert(b.prev_block_hash =~= Seq::<char>::empty());
    assert(encode_utf8(Seq::<char>::empty()) =~= Seq::<u8>::empty());
    assert(step(m, b.hash, 2) == Ok::<Option<BlockView>, LedgerError>(Some(b)));
    assert(step(m, b.prev_block_hash, 1) == Ok::<Option<BlockView>, LedgerError>(None));
    lemma_walk_unfold(m, b.prev_block_hash, 1);
    lemma_walk_unfold(m, b.hash, 2);
    let c = walk(m, b.hash, 2)->Ok_0;
    assert(c =~= seq![b]);
    assert(decode_block(m[block_key(c[0].hash)]) == Some(c[0]));
    lemma_scan_one(b);
    assert(verified(c)) by {
        assert forall|k: int| 0 <= k < scan_txs(c).len() implies verify_result(
            #[trigger] scan_txs(c)[k],
            prior_txs(c, scan_txs(c)[k]),
        ) == Ok::<bool, LedgerError>(true) by {
            assert(crate::transaction::is_coinbase(b.transactions[k]));
        }
    }
    assert forall|k: Seq<u8>| #[trigger] m.contains_key(k) implies k == last_key() || on_path(
        c,
        k,
    ) by {
        if k != last_key() {
            assert(k == block_key(c[0].hash));
        }
    }
}

/// The transactions of two lists of blocks in a row are those of the first
/// list and then those of the second.
pub proof fn lemma_scan_concat(a: Seq<BlockView>, b: Seq<BlockView>)
    ensures
        scan_txs(a + b) == scan_txs(a) + scan_txs(b),
    decreases b.len(),
{
    if b.len() == 0 {
        assert(a + b =~= a);
        assert(scan_txs(a) + scan_txs(b) =~= scan_txs(a));
    } else {
        lemma_scan_concat(a, b.drop_last());
        assert((a + b).drop_last() =~= a + b.drop_last());
        assert((a + b).last() == b.last());
        assert(scan_txs(a + b) =~= scan_txs(a) + scan_txs(b));
    }
}

/// The transactions of one block are its own.
pub proof fn lemma_scan_one(b: BlockView)
    ensures
        scan_txs(seq![b]) == b.transactions,
{
    let one = seq![b];
    assert(one.drop_last() =~= Seq::<BlockView>::empty());
    assert(scan_txs(one.drop_last()) =~= Seq::<TransactionView>::empty());
    assert(one.last() == b);
    assert(scan_txs(one) =~= b.transactions);
}

/// The transactions referred to in two lists in a row are those referred
/// to in the first and then those in the second.
pub proof fn lemma_referenced_concat(
    first: Seq<TransactionView>,
    second: Seq<TransactionView>,
    tx: TransactionView,
)
    ensures
        referenced(first + second, tx) == referenced(first, tx) + referenced(second, tx),
    decreases second.len(),
{
    if second.len() == 0 {
        assert(first + second =~= first);
        assert(referenced(first, tx) + referenced(second, tx) =~= referenced(first, tx));
    } else {
        lemma_referenced_concat(first, second.drop_last(), tx);
        assert((first + second).drop_last() =~= first + second.drop_last());
        assert((first + second).last() == second.last());
        assert(referenced(first + second, tx) =~= referenced(first, tx) + referenced(second, tx));
    }
}

/// Every transaction of the chain verifies against the chain.
pub open spec fn verified(c: Seq<BlockView>) -> bool {
    forall|k: int|
        0 <= k < scan_txs(c).len() ==> verify_result(
            #[trigger] scan_txs(c)[k],
            prior_txs(c, scan_txs(c)[k]),
        ) == Ok::<bool, LedgerError>(true)
}

/// A transaction that verifies against a chain verifies against the chain
/// with one more block.
pub proof fn lemma_verdict_survives_append(c: Seq<BlockView>, b: BlockView, tx: TransactionView)
    requires
        verify_result(tx, prior_txs(c, tx)) == Ok::<bool, LedgerError>(true),
    ensures
        verify_result(tx, prior_txs(seq![b] + c, tx)) == Ok::<bool, LedgerError>(true),
{
    let old_prior = prior_txs(c, tx);
    let new_prior = prior_txs(seq![b] + c, tx);
    lemma_scan_concat(seq![b], c);
    lemma_referenced_concat(scan_txs(seq![b]), scan_txs(c), tx);
    let front = referenced(scan_txs(seq![b]), tx);
    assert(new_prior == front + old_prior);
    if !crate::transaction::is_coinbase(tx) {
        assert(crate::transaction::refs_resolved(tx, old_prior));
        assert forall|k: int| 0 <= k < tx.vin.len() implies crate::transaction::spent_output(
            new_prior,
            #[trigger] tx.vin[k],
        ) == crate::transaction::spent_output(old_prior, tx.vin[k]) by {
            assert(crate::transaction::spent_output(old_prior, tx.vin[k]) is Some);
            crate::transaction::lemma_find_prev_concat(front, old_prior, tx.vin[k].txid);
        }
        crate::transaction::lemma_verdict_by_spent(tx, new_prior, old_prior);
    }
}

/// A verified chain with one more block whose transactions verify against
/// it is a verified chain.
pub proof fn lemma_append_keeps_verified(c: Seq<BlockView>, b: BlockView)
    requires
        verified(c),
        forall|k: int|
            0 <= k < b.transactions.len() ==> verify_result(
                #[trigger] b.transactions[k],
                prior_txs(c, b.transactions[k]),
            ) == Ok::<bool, LedgerError>(true),
    ensures
        verified(seq![b] + c),
{
    let longer = seq![b] + c;
    lemma_scan_concat(seq![b], c);
    lemma_scan_one(b);
    assert(scan_txs(longer) == b.transactions + scan_txs(c));
    assert forall|k: int| 0 <= k < scan_txs(longer).len() implies verify_result(
        #[trigger] scan_txs(longer)[k],
        prior_txs(longer, scan_txs(longer)[k]),
    ) == Ok::<bool, LedgerError>(true) by {
        let tx = scan_txs(longer)[k];
        if k < b.transactions.len() {
            assert(tx == b.transactions[k]);
        } else {
            assert(tx == scan_txs(c)[k - b.transactions.len()]);
        }
        lemma_verdict_survives_append(c, b, tx);
    }
}

/// The chain: a store of blocks under their hashes, and the hash of the
/// newest block.
pub struct Blockchain {
    db: Keyspace,
    current_hash: String,
}

/// A walk over a chain from its newest block to its first.
pub struct BlockChainIterator<'a> {
    chain: &'a Blockchain,
    current_hash: String,
    remaining: usize,
}

/// The key LAST.
fn last_key_bytes() -> (key: Vec<u8>)
    ensures
        key@ == last_key(),
{
    let mut key: Vec<u8> = Vec::new();
    key.push(0x4c);
    key.push(0x41);
    key.push(0x53);
    key.push(0x54);
    assert(key@ =~= last_key());
    key
}

impl<'a> BlockChainIterator<'a> {
    /// The store that is walked.
    pub closed spec fn store(&self) -> Store {
        self.chain.store()
    }

    /// The hash of the block that comes next.
    pub closed spec fn cursor(&self) -> Seq<char> {
        self.current_hash@
    }

    /// The number of steps that are left.
    pub closed spec fn fuel(&self) -> nat {
        self.remaining as nat
    }

    /// The next block of the walk, or nothing where the walk has ended.
    pub fn next(&mut self) -> (r: Result<Option<Block>, LedgerError>)
        ensures
            final(self).store() == old(self).store(),
            match r {
                Ok(Some(b)) => step(old(self).store(), old(self).cursor(), old(self).fuel()) == Ok::<
                    Option<BlockView>,
                    LedgerError,
                >(Some(b@)) && final(self).cursor() == b@.prev_block_hash && final(self).fuel()
                    == old(self).fuel() - 1,
                Ok(None) => step(old(self).store(), old(self).cursor(), old(self).fuel()) == Ok::<
                    Option<BlockView>,
                    LedgerError,
                >(None) && final(self).cursor() == old(self).cursor() && final(self).fuel() == old(
                    self,
                ).fuel(),
                Err(e) => step(old(self).store(), old(self).cursor(), old(self).fuel()) == Err::<
                    Option<BlockView>,
                    LedgerError,
                >(e) && final(self).cursor() == old(self).cursor() && final(self).fuel() == old(
                    self,
                ).fuel(),
            },
    {
        if self.remaining == 0 {
            return Ok(None);
        }
        match self.chain.db.get(self.current_hash.as_str().as_bytes()) {
            None => Ok(None),
            Some(bytes) => match Block::from_bytes(bytes.as_slice()) {
                None => Err(LedgerError::StorageFailure),
                Some(block) => {
                    self.current_hash = block.get_prev_hash();
                    self.remaining = self.remaining - 1;
                    Ok(Some(block))
                },
            },
        }
    }
}

impl Blockchain {
    /// What the store holds.
    pub closed spec fn store(&self) -> Store {
        self.db.map()
    }

    /// The hash of the newest block.
    pub closed spec fn tip(&self) -> Seq<char> {
        self.current_hash@
    }

    /// The blocks of the chain, newest first.
    pub open spec fn chain(&self) -> Result<Seq<BlockView>, LedgerError> {
        walk(self.store(), self.tip(), self.store().len())
    }

    /// Opens the chain that a store holds: the newest block is the one that
    /// the entry LAST names. A store without that entry holds no chain.
    pub fn new(db: Keyspace) -> (r: Result<Blockchain, LedgerError>)
        ensures
            match r {
                Ok(chain) => chain.store() == db.map() && db.map().contains_key(last_key())
                    && valid_utf8(db.map()[last_key()]) && chain.tip() == decode_utf8(
                    db.map()[last_key()],
                ),
                Err(e) => if db.map().contains_key(last_key()) {
                    e == LedgerError::StorageFailure && !valid_utf8(db.map()[last_key()])
                } else {
                    e == LedgerError::NotInitialized
                },
            },
    {
        let key = last_key_bytes();
        match db.get(key.as_slice()) {
            None => Err(LedgerError::NotInitialized),
            Some(bytes) => match text_from_utf8(bytes) {
                None => Err(LedgerError::StorageFailure),
                Some(current_hash) => Ok(Blockchain { db, current_hash }),
            },
        }
    }

    /// The store of the chain, as it is to be persisted.
    pub fn store_entries(&self) -> (db: &Keyspace)
        ensures
            db.map() == self.store(),
    {
        &self.db
    }

    /// The hash of the newest block.
    pub fn get_current_hash(&self) -> (hash: String)
        ensures
            hash@ == self.tip(),
    {
        self.current_hash.clone()
    }

    /// A walk over the chain from its newest block on. It takes as many
    /// steps as the store has entries at most, so it ends on every store.
    pub fn iter(&self) -> (it: BlockChainIterator<'_>)
        ensures
            it.store() == self.store(),
            it.cursor() == self.tip(),
            it.fuel() == self.store().len(),
    {
        BlockChainIterator {
            chain: self,
            current_hash: self.current_hash.clone(),
            remaining: self.db.len(),
        }
    }

    /// The blocks of the chain, newest first.
    pub fn blocks(&self) -> (r: Result<Vec<Block>, LedgerError>)
        ensures
            match r {
                Ok(v) => self.chain() == Ok::<Seq<BlockView>, LedgerError>(blocks_view(v@)),
                Err(e) => self.chain() == Err::<Seq<BlockView>, LedgerError>(e),
            },
    {
        let mut it = self.iter();
        let mut out: Vec<Block> = Vec::new();
        assert(blocks_view(out@) + Seq::<BlockView>::empty() =~= Seq::<BlockView>::empty());
        loop
            invariant
                it.store() == self.store(),
                self.chain() == walked(
                    blocks_view(out@),
                    walk(it.store(), it.cursor(), it.fuel()),
                ),
            decreases it.fuel(),
        {
            let ghost before = walk(it.store(), it.cursor(), it.fuel());
            match it.next() {
                Err(e) => {
                    return Err(e);
                },
                Ok(None) => {
                    assert(blocks_view(out@) + Seq::<BlockView>::empty() =~= blocks_view(out@));
                    return Ok(out);
                },
                Ok(Some(block)) => {
                    proof {
                        let after = walk(it.store(), it.cursor(), it.fuel());
                        assert(blocks_view(out@.push(block)) =~= blocks_view(out@).push(block@));
                        if after is Ok {
                            assert(blocks_view(out@) + (seq![block@] + after->Ok_0) =~= blocks_view(
                                out@,
                            ).push(block@) + after->Ok_0);
                        }
                    }
                    out.push(block);
                },
            }
        }
    }

    /// The store and the newest hash form a chain.
    pub open spec fn wf(&self) -> bool {
        well_formed(self.store(), self.tip())
    }

    /// Every transaction of the list verifies against the chain.
    pub open spec fn accepts(&self, data: Seq<TransactionView>) -> bool {
        forall|i: int| 0 <= i < data.len() ==> self.verdict(#[trigger] data[i]) == Ok::<
            bool,
            LedgerError,
        >(true)
    }

    /// Creates the chain whose first block pays the reward to `address`:
    /// the block holds the coinbase with the given salt and is mined at the
    /// given time.
    pub fn create_at(address: String, salt: &[u8], timestamp: u128) -> (r: Result<
        Blockchain,
        LedgerError,
    >)
        ensures
            match r {
                Ok(chain) => create_failure(address@, salt@, timestamp) is None && chain.wf()
                    && chain.chain() is Ok && chain.chain()->Ok_0.len() == 1 && mined_for(
                    chain.chain()->Ok_0[0],
                    seq![coinbase_result(address@, genesis_memo(), salt@)->Ok_0],
                    Seq::empty(),
                    0,
                    timestamp,
                ) && chain.store() == with_block(Map::empty(), chain.chain()->Ok_0[0]),
                Err(e) => create_failure(address@, salt@, timestamp) == Some(e),
            },
    {
        let coinbase = match Transaction::coinbase(
            address,
            String::from_str("Genesis Block"),
            salt,
        ) {
            Ok(tx) => tx,
            Err(e) => return Err(e),
        };
        let mut data: Vec<Transaction> = Vec::new();
        data.push(coinbase);
        assert(txs_view(data@) =~= seq![coinbase@]);
        let block = match Block::mine(data, String::new(), 0, timestamp) {
            Ok(block) => block,
            Err(e) => return Err(e),
        };
        let mut db = Keyspace::new();
        let key = block.get_hash().as_str().as_bytes_vec();
        db.insert(crate::tx::copy_bytes(&key), block.to_bytes());
        db.insert(last_key_bytes(), key);
        let count = db.len();
        let chain = Blockchain { db, current_hash: block.get_hash() };
        proof {
            assert(last_key().len() == 4);
            assert(chain.store() =~= with_block(Map::empty(), block@));
            lemma_genesis_pays_creator(address@, salt@, timestamp);
            lemma_first_block_is_chain(block@);
        }
        Ok(chain)
    }

    /// Creates a chain whose first block pays the reward to `address`, with
    /// fresh random bytes in the coinbase and the time of the system clock.
    /// Whatever those are, the chain is the one created for them.
    pub fn create_blockchain(address: String) -> (r: Result<Blockchain, LedgerError>)
        ensures
            match r {
                Ok(chain) => chain.wf() && chain.chain() is Ok && chain.chain()->Ok_0.len() == 1
                    && exists|salt: Seq<u8>, timestamp: u128|
                    salt.len() == 32 && create_failure(address@, salt, timestamp) is None
                        && #[trigger] mined_for(
                        chain.chain()->Ok_0[0],
                        seq![coinbase_result(address@, genesis_memo(), salt)->Ok_0],
                        Seq::empty(),
                        0,
                        timestamp,
                    ),
                Err(e) => e == LedgerError::EntropyUnavailable || e == LedgerError::ClockUnavailable
                    || exists|salt: Seq<u8>, timestamp: u128|
                    salt.len() == 32 && #[trigger] create_failure(address@, salt, timestamp)
                        == Some(e),
            },
    {
        let salt = match crate::system::random_seed() {
            Some(salt) => salt,
            None => return Err(LedgerError::EntropyUnavailable),
        };
        let timestamp = match crate::system::now_millis() {
            Some(timestamp) => timestamp,
            None => return Err(LedgerError::ClockUnavailable),
        };
        Blockchain::create_at(address, salt.as_slice(), timestamp)
    }

    /// Whether every transaction of the list verifies against the chain.
    fn accepts_all(&self, data: &Vec<Transaction>) -> (ok: bool)
        ensures
            ok == self.accepts(txs_view(data@)),
    {
        let mut i: usize = 0;
        while i < data.len()
            invariant
                i <= data@.len(),
                forall|j: int|
                    0 <= j < i ==> self.verdict(#[trigger] txs_view(data@)[j]) == Ok::<
                        bool,
                        LedgerError,
                    >(true),
            decreases data@.len() - i,
        {
            assert(txs_view(data@)[i as int] == data@[i as int]@);
            match self.verify_transaction(&data[i]) {
                Ok(true) => {},
                _ => {
                    return false;
                },
            }
            i += 1;
        }
        true
    }

    /// The newest block as the store names it.
    fn read_tip(&self) -> (r: Result<(String, Block), LedgerError>)
        ensures
            match r {
                Ok((hash, block)) => tip_entry(self.store()) == Ok::<
                    (Seq<char>, BlockView),
                    LedgerError,
                >((hash@, block@)) && block_key(hash@) == self.store()[last_key()],
                Err(e) => tip_entry(self.store()) == Err::<(Seq<char>, BlockView), LedgerError>(e),
            },
    {
        let key = last_key_bytes();
        let last = match self.db.get(key.as_slice()) {
            Some(last) => last,
            None => return Err(LedgerError::NotInitialized),
        };
        let hash = match text_from_utf8(crate::tx::copy_bytes(&last)) {
            Some(hash) => hash,
            None => return Err(LedgerError::StorageFailure),
        };
        proof {
            decode_utf8_encode_utf8(last@);
        }
        let bytes = match self.db.get(last.as_slice()) {
            Some(bytes) => bytes,
            None => return Err(LedgerError::StorageFailure),
        };
        match Block::from_bytes(bytes.as_slice()) {
            Some(block) => Ok((hash, block)),
            None => Err(LedgerError::StorageFailure),
        }
    }

    /// Mines the block that comes behind the newest block.
    fn mine_next(&self, data: Vec<Transaction>, timestamp: u128) -> (r: Result<Block, LedgerError>)
        ensures
            match r {
                Ok(b) => appendable(self.store(), b@, txs_view(data@), timestamp),
                Err(e) => append_refused(self.store(), txs_view(data@), timestamp, e),
            },
    {
        let (hash, tip) = match self.read_tip() {
            Ok(found) => found,
            Err(e) => return Err(e),
        };
        if tip.get_height() == i32::MAX {
            return Err(LedgerError::Overflow);
        }
        let ghost txs = txs_view(data@);
        let block = match Block::mine(data, hash, tip.get_height() + 1, timestamp) {
            Ok(block) => block,
            Err(e) => return Err(e),
        };
        if self.db.contains(block.get_hash().as_str().as_bytes()) {
            assert(mined_for(block@, txs, hash@, (tip@.height + 1) as i32, timestamp));
            return Err(LedgerError::StorageFailure);
        }
        Ok(block)
    }

    /// Appends a block with transactions that verify against the chain,
    /// mined at the given time, behind the newest block.
    fn append_at(&mut self, data: Vec<Transaction>, timestamp: u128) -> (r: Result<
        Block,
        LedgerError,
    >)
        requires
            old(self).accepts(txs_view(data@)),
        ensures
            match r {
                Ok(b) => {
                    &&& appendable(old(self).store(), b@, txs_view(data@), timestamp)
                    &&& final(self).store() == with_block(old(self).store(), b@)
                    &&& final(self).tip() == b@.hash
                    &&& old(self).wf() ==> final(self).wf() && final(self).chain() == Ok::<
                        Seq<BlockView>,
                        LedgerError,
                    >(seq![b@] + old(self).chain()->Ok_0)
                },
                Err(e) => {
                    &&& final(self).store() == old(self).store()
                    &&& final(self).tip() == old(self).tip()
                    &&& append_refused(old(self).store(), txs_view(data@), timestamp, e)
                },
            },
    {
        let block = match self.mine_next(data, timestamp) {
            Ok(block) => block,
            Err(e) => return Err(e),
        };
        let key = block.get_hash().as_str().as_bytes_vec();
        let ghost before = self.store();
        let ghost old_tip = self.tip();
        self.db.insert(crate::tx::copy_bytes(&key), block.to_bytes());
        self.db.insert(last_key_bytes(), key);
        self.current_hash = block.get_hash();
        proof {
            assert(last_key().len() == 4);
            assert(self.store() =~= with_block(before, block@));
            if well_formed(before, old_tip) {
                assert forall|k: int| 0 <= k < block@.transactions.len() implies verify_result(
                    #[trigger] block@.transactions[k],
                    prior_txs(walk(before, old_tip, before.len())->Ok_0, block@.transactions[k]),
                ) == Ok::<bool, LedgerError>(true) by {
                    assert(old(self).verdict(block@.transactions[k]) == Ok::<bool, LedgerError>(
                        true,
                    ));
                }
                lemma_append_keeps_chain(before, old_tip, block@);
            }
        }
        Ok(block)
    }

    /// Appends a block with the given transactions, mined at the given
    /// time, behind the newest block. Every transaction must verify against
    /// the chain. Where appending fails the chain is unchanged.
    pub fn add_block_at(&mut self, data: Vec<Transaction>, timestamp: u128) -> (r: Result<
        Block,
        LedgerError,
    >)
        ensures
            match r {
                Ok(b) => {
                    &&& old(self).accepts(txs_view(data@))
                    &&& appendable(old(self).store(), b@, txs_view(data@), timestamp)
                    &&& final(self).store() == with_block(old(self).store(), b@)
                    &&& final(self).tip() == b@.hash
                    &&& old(self).wf() ==> final(self).wf() && final(self).chain() == Ok::<
                        Seq<BlockView>,
                        LedgerError,
                    >(seq![b@] + old(self).chain()->Ok_0)
                },
                Err(e) => {
                    &&& final(self).store() == old(self).store()
                    &&& final(self).tip() == old(self).tip()
                    &&& if old(self).accepts(txs_view(data@)) {
                        append_refused(old(self).store(), txs_view(data@), timestamp, e)
                    } else {
                        e == LedgerError::InvalidTransaction
                    }
                },
            },
    {
        if !self.accepts_all(&data) {
            return Err(LedgerError::InvalidTransaction);
        }
        self.append_at(data, timestamp)
    }

    /// Appends a block with the given transactions behind the newest block.
    /// The transactions are verified first: where one does not verify, the
    /// result is `InvalidTransaction`. Then the block is mined at the time
    /// of the system clock; whatever the time is, the result is that of
    /// appending at that time. Where appending fails the chain is
    /// unchanged.
    pub fn add_block(&mut self, data: Vec<Transaction>) -> (r: Result<Block, LedgerError>)
        ensures
            !old(self).accepts(txs_view(data@)) ==> r == Err::<Block, LedgerError>(
                LedgerError::InvalidTransaction,
            ),
            match r {
                Ok(b) => {
                    &&& old(self).accepts(txs_view(data@))
                    &&& appendable(old(self).store(), b@, txs_view(data@), b@.timestamp)
                    &&& final(self).store() == with_block(old(self).store(), b@)
                    &&& final(self).tip() == b@.hash
                    &&& old(self).wf() ==> final(self).wf() && final(self).chain() == Ok::<
                        Seq<BlockView>,
                        LedgerError,
                    >(seq![b@] + old(self).chain()->Ok_0)
                },
                Err(e) => {
                    &&& final(self).store() == old(self).store()
                    &&& final(self).tip() == old(self).tip()
                    &&& old(self).accepts(txs_view(data@)) ==> e == LedgerError::ClockUnavailable
                        || exists|timestamp: u128| #[trigger]
                        append_refused(old(self).store(), txs_view(data@), timestamp, e)
                },
            },
    {
        if !self.accepts_all(&data) {
            return Err(LedgerError::InvalidTransaction);
        }
        match crate::system::now_millis() {
            None => Err(LedgerError::ClockUnavailable),
            Some(timestamp) => self.append_at(data, timestamp),
        }
    }

    /// The verdict that the chain gives on a transaction: the verdict
    /// against the prior transactions that the chain supplies for it.
    pub open spec fn verdict(&self, tx: TransactionView) -> Result<bool, LedgerError> {
        match self.chain() {
            Ok(c) => verify_result(tx, prior_txs(c, tx)),
            Err(e) => Err(e),
        }
    }

    /// The transactions of the chain in the order of the scan from the
    /// newest block to the first.
    fn scan(&self) -> (r: Result<Vec<Transaction>, LedgerError>)
        ensures
            match r {
                Ok(v) => self.chain() is Ok && txs_view(v@) == scan_txs(self.chain()->Ok_0),
                Err(e) => self.chain() == Err::<Seq<BlockView>, LedgerError>(e),
            },
    {
        match self.blocks() {
            Ok(blocks) => Ok(flatten(&blocks)),
            Err(e) => Err(e),
        }
    }

    /// The prior transactions that the chain supplies for `tx`: every
    /// transaction of the chain that an input of `tx` refers to.
    pub fn get_prev_txs(&self, tx: &Transaction) -> (r: Result<Vec<Transaction>, LedgerError>)
        ensures
            match r {
                Ok(v) => self.chain() is Ok && txs_view(v@) == prior_txs(self.chain()->Ok_0, tx@),
                Err(e) => self.chain() == Err::<Seq<BlockView>, LedgerError>(e),
            },
    {
        let all = match self.scan() {
            Ok(all) => all,
            Err(e) => return Err(e),
        };
        let ghost scan = txs_view(all@);
        let mut out: Vec<Transaction> = Vec::new();
        let mut k: usize = 0;
        assert(scan.subrange(0, 0) =~= Seq::<TransactionView>::empty());
        assert(txs_view(out@) =~= referenced(scan.subrange(0, 0), tx@));
        while k < all.len()
            invariant
                k <= all@.len(),
                scan == txs_view(all@),
                txs_view(out@) == referenced(scan.subrange(0, k as int), tx@),
            decreases all@.len() - k,
        {
            proof {
                let next = scan.subrange(0, k + 1);
                assert(next.drop_last() =~= scan.subrange(0, k as int));
                assert(next.last() == all@[k as int]@);
            }
            if refers(tx, &all[k].id) {
                let copy = all[k].clone();
                proof {
                    assert(txs_view(out@.push(copy)) =~= txs_view(out@).push(copy@));
                }
                out.push(copy);
            }
            k += 1;
        }
        assert(scan.subrange(0, k as int) =~= scan);
        Ok(out)
    }

    /// Signs a transaction against the prior transactions that the chain
    /// supplies for it; each signature has 64 bytes. Where signing fails the
    /// transaction is unchanged.
    pub fn sign_transaction(&self, tx: &mut Transaction, private_key: &[u8]) -> (r: Result<
        (),
        LedgerError,
    >)
        ensures
            match self.chain() {
                Err(e) => r == Err::<(), LedgerError>(e) && final(tx)@ == old(tx)@,
                Ok(c) => match sign_result(old(tx)@, private_key@, prior_txs(c, old(tx)@)) {
                    Ok(signed) => r is Ok && final(tx)@ == signed && (!crate::transaction::is_coinbase(
                        old(tx)@,
                    ) ==> signatures_sized(final(tx)@)),
                    Err(e) => r == Err::<(), LedgerError>(e) && final(tx)@ == old(tx)@,
                },
            },
    {
        let prev_txs = match self.get_prev_txs(tx) {
            Ok(v) => v,
            Err(e) => return Err(e),
        };
        tx.sign(private_key, &prev_txs)
    }

    /// Verifies a transaction against the prior transactions that the chain
    /// supplies for it.
    pub fn verify_transaction(&self, tx: &Transaction) -> (r: Result<bool, LedgerError>)
        ensures
            r == self.verdict(tx@),
    {
        let prev_txs = match self.get_prev_txs(tx) {
            Ok(v) => v,
            Err(e) => return Err(e),
        };
        tx.verify(&prev_txs)
    }

    /// The unspent outputs of the chain, each under its key. The chain is
    /// walked from its newest transaction to its first with the consumed
    /// keys in hand; what is found is what applying the transactions from
    /// the first on leaves.
    pub fn find_all_utxos(&self) -> (r: Result<Keyspace, LedgerError>)
        ensures
            match r {
                Ok(utxos) => self.chain() is Ok && utxos.map() == chain_utxos(self.chain()->Ok_0),
                Err(e) => self.chain() == Err::<Seq<BlockView>, LedgerError>(e),
            },
    {
        let blocks = match self.blocks() {
            Ok(blocks) => blocks,
            Err(e) => return Err(e),
        };
        let all = flatten(&reversed(blocks));
        let ghost txs = txs_view(all@);
        let n = all.len();
        let mut spent = Keyspace::new();
        let mut utxos = Keyspace::new();
        let mut j: usize = n;
        proof {
            assert(txs.subrange(n as int, n as int) =~= Seq::<TransactionView>::empty());
            assert(spent.map().dom() =~= consumed_by(txs.subrange(n as int, n as int)));
        }
        while j > 0
            invariant
                j <= n,
                n == all@.len(),
                txs == txs_view(all@),
                spent.map().dom() == consumed_by(txs.subrange(j as int, n as int)),
                utxos.map() == surviving(txs.subrange(j as int, n as int)),
            decreases j,
        {
            j -= 1;
            let tx = &all[j];
            let ghost later = txs.subrange(j + 1, n as int);
            let ghost here = txs.subrange(j as int, n as int);
            proof {
                assert(here.first() == tx@);
                assert(here.drop_first() =~= later);
            }
            Blockchain::mark_consumed(&mut spent, tx);
            let outs = Blockchain::outputs_of(tx);
            proof {
                assert(spent.map().dom() =~= consumed_by(here));
            }
            Blockchain::keep_unspent(&mut utxos, &outs, &spent);
        }
        proof {
            assert(txs.subrange(0, n as int) =~= txs);
            lemma_apply_from_empty(txs);
        }
        Ok(utxos)
    }

    /// Adds the keys that `tx` consumes to `spent`.
    fn mark_consumed(spent: &mut Keyspace, tx: &Transaction)
        ensures
            final(spent).map().dom() == consumed(tx@).union(old(spent).map().dom()),
    {
        if tx.is_coinbase() {
            assert(spent.map().dom() =~= consumed(tx@).union(spent.map().dom()));
            return ;
        }
        let ghost before = spent.map().dom();
        let mut i: usize = 0;
        assert(spent.map().dom() =~= inputs_upto(tx@, 0).union(before));
        while i < tx.vin.len()
            invariant
                i <= tx.vin@.len(),
                !crate::transaction::is_coinbase(tx@),
                spent.map().dom() == inputs_upto(tx@, i as nat).union(before),
            decreases tx.vin@.len() - i,
        {
            let input = &tx.vin[i];
            assert(tx@.vin[i as int] == input@);
            let key = key_bytes(input.txid.as_str(), input.vout as i128);
            spent.insert(key, Vec::new());
            proof {
                let k = crate::utxo::input_key(tx@.vin[i as int]);
                assert(inputs_upto(tx@, (i + 1) as nat) =~= inputs_upto(tx@, i as nat).insert(k));
                assert(spent.map().dom() =~= inputs_upto(tx@, (i + 1) as nat).union(before));
            }
            i += 1;
        }
    }

    /// The outputs that `tx` creates, each under its key.
    fn outputs_of(tx: &Transaction) -> (outs: Keyspace)
        ensures
            outs.map() == created(tx@),
    {
        let mut outs = Keyspace::new();
        let mut i: usize = 0;
        while i < tx.vout.len()
            invariant
                i <= tx.vout@.len(),
                outs.map() == outputs_upto(tx@, i as nat),
            decreases tx.vout@.len() - i,
        {
            assert(tx@.vout[i as int] == tx.vout@[i as int]@);
            let key = key_bytes(tx.id.as_str(), i as i128);
            let value = tx.vout[i].to_bytes();
            outs.insert(key, value);
            i += 1;
        }
        outs
    }

    /// Puts into `utxos` those entries of `outs` whose key is not in
    /// `spent`; an entry that `utxos` already has under a key stays.
    fn keep_unspent(utxos: &mut Keyspace, outs: &Keyspace, spent: &Keyspace)
        ensures
            final(utxos).map() == outs.map().remove_keys(spent.map().dom()).union_prefer_right(
                old(utxos).map(),
            ),
    {
        let ghost before = utxos.map();
        let ghost gone = spent.map().dom();
        let n = outs.len();
        let mut e: usize = 0;
        proof {
            assert(outs@.subrange(0, 0) =~= Seq::<(Seq<u8>, Seq<u8>)>::empty());
            assert(utxos.map() =~= crate::keyspace::to_map(outs@.subrange(0, 0)).remove_keys(
                gone,
            ).union_prefer_right(before));
        }
        while e < n
            invariant
                e <= n,
                n == outs@.len(),
                crate::keyspace::distinct_keys(outs@),
                gone == spent.map().dom(),
                utxos.map() == crate::keyspace::to_map(outs@.subrange(0, e as int)).remove_keys(
                    gone,
                ).union_prefer_right(before),
            decreases n - e,
        {
            let key = outs.key_at(e);
            let value = outs.value_at(e);
            let ghost seen = outs@.subrange(0, e as int);
            let ghost next = outs@.subrange(0, e + 1);
            proof {
                assert(next.drop_last() =~= seen);
                assert(next.last() == outs@[e as int]);
                crate::keyspace::lemma_to_map_dom(seen, key@);
                if crate::keyspace::has_key(seen, key@) {
                    let w = choose|w: int| 0 <= w < seen.len() && (#[trigger] seen[w]).0 == key@;
                    assert(outs@[w].0 == outs@[e as int].0);
                }
            }
            if !spent.contains(key.as_slice()) && !utxos.contains(key.as_slice()) {
                utxos.insert(crate::tx::copy_bytes(key), crate::tx::copy_bytes(value));
            }
            proof {
                assert(utxos.map() =~= crate::keyspace::to_map(next).remove_keys(
                    gone,
                ).union_prefer_right(before));
            }
            e += 1;
        }
        assert(outs@.subrange(0, e as int) =~= outs@);
    }
}

} // verus!
