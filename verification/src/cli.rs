use vstd::prelude::*;
use vstd::string::*;
use crate::address;
use crate::block::{Block, BlockView};
use crate::blockchain::{
    append_refused, appendable, chain_utxos, create_failure, genesis_memo, mined_for, with_block, Blockchain,
};
use crate::digest::{hashable, MAX_MESSAGE_LEN};
use crate::errors::LedgerError;
use crate::keyspace::Keyspace;
use crate::transaction::{coinbase_result, Transaction, TransactionView};
use crate::transfer::transfer_result;
use crate::tx::TxOutputView;
use crate::utxo::apply_txs;
use crate::utxoset::{
    keys_are_text, lemma_update_matches_reindex, prefixes, rebuilt, total, unlockable, UTXOSet,
};
use crate::address::BODY_LEN;
use crate::balance::{canonical_keys, lemma_transfer_moves_amount};
use crate::keyspace::distinct_keys;
use crate::utxo::output_key;
use crate::wallet::{has_wallet, pub_key_hash, wallet_index, WalletManager, Wallets};

verus! {

/// The commands of a node, each on the state that it is handed: the chain
/// with its unspent outputs, and the wallets.
pub struct Cli {}

/// The unspent outputs are those of the chain, which is well formed.
pub open spec fn coherent(set: UTXOSet) -> bool {
    &&& set.blockchain.wf()
    &&& set.blockchain.chain() is Ok
    &&& set.utxos() == chain_utxos(set.blockchain.chain()->Ok_0)
}

/// The transfer as it is built, before any block is mined: both wallets
/// must be held, and the transaction must come about.
pub open spec fn transfer_built(
    set: UTXOSet,
    wallets: Wallets,
    from: Seq<char>,
    to: Seq<char>,
    amount: i32,
) -> Result<TransactionView, LedgerError> {
    if !has_wallet(wallets, from) || !has_wallet(wallets, to) {
        Err(LedgerError::UnknownWallet)
    } else {
        transfer_result(
            wallets[wallet_index(wallets, from)].1,
            amount,
            wallets[wallet_index(wallets, to)].1,
            set.entries(),
            set.blockchain.chain(),
        )
    }
}

/// The error `e` is why the transfer cannot be made at the given time: a
/// wallet is not held, the transaction cannot be built, it does not verify
/// against the chain, or no block can be appended with it.
pub open spec fn transfer_refused(
    set: UTXOSet,
    wallets: Wallets,
    from: Seq<char>,
    to: Seq<char>,
    amount: i32,
    timestamp: u128,
    e: LedgerError,
) -> bool {
    match transfer_built(set, wallets, from, to, amount) {
        Err(cause) => e == cause,
        Ok(tx) => if set.blockchain.accepts(seq![tx]) {
            append_refused(set.blockchain.store(), seq![tx], timestamp, e)
        } else {
            e == LedgerError::InvalidTransaction
        },
    }
}

/// The set `after` and the block `b` are what the transfer made of the set
/// `before`: the block holds the transfer alone and stands behind the
/// newest block of `before`, and the unspent outputs are updated with it.
pub open spec fn transferred(
    before: UTXOSet,
    after: UTXOSet,
    b: BlockView,
    wallets: Wallets,
    from: Seq<char>,
    to: Seq<char>,
    amount: i32,
) -> bool {
    &&& has_wallet(wallets, from)
    &&& has_wallet(wallets, to)
    &&& transfer_built(before, wallets, from, to, amount) is Ok
    &&& b.transactions == seq![transfer_built(before, wallets, from, to, amount)->Ok_0]
    &&& before.blockchain.accepts(b.transactions)
    &&& appendable(before.blockchain.store(), b, b.transactions, b.timestamp)
    &&& after.blockchain.store() == with_block(before.blockchain.store(), b)
    &&& after.blockchain.tip() == b.hash
    &&& after.utxos() == apply_txs(before.utxos(), b.transactions)
    &&& coherent(before) ==> coherent(after)
}

/// Nothing of the set has changed.
pub open spec fn untouched(before: UTXOSet, after: UTXOSet) -> bool {
    &&& after.blockchain.store() == before.blockchain.store()
    &&& after.blockchain.tip() == before.blockchain.tip()
    &&& after.utxos() == before.utxos()
    &&& after.entries() == before.entries()
}

/// After `create` the balance of the hash that the address stands for is
/// the reward, and every other balance is nothing.
pub proof fn lemma_create_balance(
    set: UTXOSet,
    address: Seq<char>,
    salt: Seq<u8>,
    timestamp: u128,
    pkh: Seq<u8>,
)
    requires
        create_failure(address, salt, timestamp) is None,
        coherent(set),
        set.blockchain.chain()->Ok_0.len() == 1,
        mined_for(
            set.blockchain.chain()->Ok_0[0],
            seq![coinbase_result(address, genesis_memo(), salt)->Ok_0],
            Seq::empty(),
            0,
            timestamp,
        ),
        distinct_keys(set.entries()),
        address::decoded_body(address)->Some_0.len() == BODY_LEN,
    ensures
        unlockable(set.entries(), pkh, set.entries().len()) is Ok,
        total(unlockable(set.entries(), pkh, set.entries().len())->Ok_0) == if pkh
            == address::decoded_body(address)->Some_0 {
            crate::transaction::REWARD as int
        } else {
            0
        },
{
    let c = set.blockchain.chain()->Ok_0;
    let coinbase = coinbase_result(address, genesis_memo(), salt)->Ok_0;
    crate::blockchain::lemma_genesis_pays_creator(address, salt, timestamp);
    assert(c =~= seq![c[0]]);
    crate::balance::lemma_first_block_balance(set.entries(), c[0], coinbase, pkh);
}

/// After a transfer the balance of the recipient has risen by the amount,
/// that of the sender has fallen by it, and every other balance is what it
/// was. This holds where every key of the unspent outputs names what it is
/// the key of, and nothing is stored yet under the keys of the transfer's
/// own outputs.
pub proof fn lemma_transfer_balances(
    before: UTXOSet,
    after: UTXOSet,
    b: BlockView,
    wallets: Wallets,
    from: Seq<char>,
    to: Seq<char>,
    amount: i32,
    pkh: Seq<u8>,
)
    requires
        transferred(before, after, b, wallets, from, to, amount),
        distinct_keys(before.entries()),
        distinct_keys(after.entries()),
        canonical_keys(before.entries()),
        forall|i: int|
            0 <= i < b.transactions[0].vout.len() ==> !before.utxos().contains_key(
                #[trigger] output_key(b.transactions[0].id, i),
            ),
        pub_key_hash(wallets[wallet_index(wallets, from)].1.public_key).len() == BODY_LEN,
        pub_key_hash(wallets[wallet_index(wallets, to)].1.public_key).len() == BODY_LEN,
    ensures
        unlockable(before.entries(), pkh, before.entries().len()) is Ok,
        unlockable(after.entries(), pkh, after.entries().len()) is Ok,
        total(unlockable(after.entries(), pkh, after.entries().len())->Ok_0) == total(
            unlockable(before.entries(), pkh, before.entries().len())->Ok_0,
        ) + (if pkh == pub_key_hash(wallets[wallet_index(wallets, to)].1.public_key) {
            amount as int
        } else {
            0
        }) - (if pkh == pub_key_hash(wallets[wallet_index(wallets, from)].1.public_key) {
            amount as int
        } else {
            0
        }),
{
    lemma_transfer_moves_amount(
        before.entries(),
        after.entries(),
        wallets[wallet_index(wallets, from)].1,
        amount,
        wallets[wallet_index(wallets, to)].1,
        before.blockchain.chain(),
        b.transactions[0],
        pkh,
    );
}

impl Cli {
    /// The command surface.
    pub fn new() -> (r: Result<Cli, LedgerError>)
        ensures
            r is Ok,
    {
        Ok(Cli {  })
    }

    /// `create`: a new chain whose first block pays the reward to
    /// `address`, with the coinbase salt and the time given, and the
    /// unspent outputs built from it.
    pub fn create_at(&self, address: String, salt: &[u8], timestamp: u128) -> (r: Result<
        UTXOSet,
        LedgerError,
    >)
        ensures
            match r {
                Ok(set) => create_failure(address@, salt@, timestamp) is None && coherent(set)
                    && set.blockchain.chain()->Ok_0.len() == 1 && mined_for(
                    set.blockchain.chain()->Ok_0[0],
                    seq![coinbase_result(address@, genesis_memo(), salt@)->Ok_0],
                    Seq::empty(),
                    0,
                    timestamp,
                ),
                Err(e) => create_failure(address@, salt@, timestamp) == Some(e),
            },
    {
        let blockchain = match Blockchain::create_at(address, salt, timestamp) {
            Ok(blockchain) => blockchain,
            Err(e) => return Err(e),
        };
        let mut set = UTXOSet::new(blockchain, Keyspace::new());
        match set.reindex() {
            Ok(()) => Ok(set),
            Err(e) => Err(e),
        }
    }

    /// `create`: a new chain whose first block pays the reward to
    /// `address`, and the unspent outputs built from it.
    pub fn create(&self, address: String) -> (r: Result<UTXOSet, LedgerError>)
        ensures
            match r {
                Ok(set) => coherent(set) && set.blockchain.chain()->Ok_0.len() == 1
                    && exists|salt: Seq<u8>, timestamp: u128|
                    salt.len() == 32 && create_failure(address@, salt, timestamp) is None
                        && #[trigger] mined_for(
                        set.blockchain.chain()->Ok_0[0],
                        seq![coinbase_result(address@, genesis_memo(), salt)->Ok_0],
                        Seq::empty(),
                        0,
                        timestamp,
                    ),
                Err(e) => e == LedgerError::EntropyUnavailable || e == LedgerError::ClockUnavailable
                    || exists|salt: Seq<u8>, timestamp: u128|
                    salt.len() == 32 && #[trigger] create_failure(address@, salt, timestamp)
                        == Some(e),
            },
    {
        let blockchain = match Blockchain::create_blockchain(address) {
            Ok(blockchain) => blockchain,
            Err(e) => return Err(e),
        };
        let mut set = UTXOSet::new(blockchain, Keyspace::new());
        match set.reindex() {
            Ok(()) => Ok(set),
            Err(e) => Err(e),
        }
    }

    /// `getbalance`: the sum of the unspent outputs locked to the hash that
    /// `address` stands for.
    pub fn get_balance(&self, set: &UTXOSet, address: &str) -> (r: Result<i128, LedgerError>)
        ensures
            match address::decoded_body(address@) {
                None => r == Err::<i128, LedgerError>(LedgerError::AddressDecode),
                Some(body) => match unlockable(set.entries(), body, set.entries().len()) {
                    Ok(outs) => r is Ok && r->Ok_0 == total(outs),
                    Err(e) => r == Err::<i128, LedgerError>(e),
                },
            },
    {
        let body = match address::decode(address) {
            Some(body) => body,
            None => return Err(LedgerError::AddressDecode),
        };
        set.get_balance(body.as_slice())
    }

    /// Builds and signs the transfer of `amount` between the wallets held
    /// under `from` and `to`.
    fn build_transfer(
        &self,
        set: &UTXOSet,
        wallets: &WalletManager,
        from: &str,
        to: &str,
        amount: i32,
    ) -> (r: Result<Transaction, LedgerError>)
        ensures
            match r {
                Ok(tx) => transfer_built(*set, wallets@, from@, to@, amount) == Ok::<
                    TransactionView,
                    LedgerError,
                >(tx@),
                Err(e) => transfer_built(*set, wallets@, from@, to@, amount) == Err::<
                    TransactionView,
                    LedgerError,
                >(e),
            },
    {
        let wallet_from = match wallets.get_wallet(from) {
            Some(wallet) => wallet,
            None => return Err(LedgerError::UnknownWallet),
        };
        let wallet_to = match wallets.get_wallet(to) {
            Some(wallet) => wallet,
            None => return Err(LedgerError::UnknownWallet),
        };
        Transaction::new_utxo(wallet_from, amount, wallet_to, set)
    }

    /// `transfer`: builds and signs the transfer of `amount` between the
    /// wallets held under `from` and `to`, appends a block with it, mined
    /// at the given time, and updates the unspent outputs with that block.
    /// Where the unspent outputs were those of the chain before, they are
    /// those of the chain after. Where the transfer fails nothing changes.
    pub fn transfer_at(
        &self,
        set: &mut UTXOSet,
        wallets: &WalletManager,
        from: &str,
        to: &str,
        amount: i32,
        timestamp: u128,
    ) -> (r: Result<Block, LedgerError>)
        ensures
            match r {
                Ok(b) => transferred(*old(set), *final(set), b@, wallets@, from@, to@, amount)
                    && b@.timestamp == timestamp,
                Err(e) => untouched(*old(set), *final(set)) && transfer_refused(
                    *old(set),
                    wallets@,
                    from@,
                    to@,
                    amount,
                    timestamp,
                    e,
                ),
            },
    {
        let tx = match self.build_transfer(set, wallets, from, to, amount) {
            Ok(tx) => tx,
            Err(e) => return Err(e),
        };
        let mut data: Vec<Transaction> = Vec::new();
        let ghost built = tx@;
        data.push(tx);
        assert(crate::transaction::txs_view(data@) =~= seq![built]);
        let ghost before = set.blockchain.chain();
        let block = match set.blockchain.add_block_at(data, timestamp) {
            Ok(block) => block,
            Err(e) => return Err(e),
        };
        let _ = set.update(&block);
        proof {
            if coherent(*old(set)) {
                lemma_update_matches_reindex(before->Ok_0, block@);
            }
        }
        Ok(block)
    }

    /// `transfer`: builds and signs the transfer, verifies it against the
    /// chain, and only then reads the system clock to mine the block with
    /// it; the unspent outputs are updated with that block. Whatever the
    /// time is, the result is that of the transfer at that time. Where the
    /// transfer fails nothing changes.
    pub fn transfer(
        &self,
        set: &mut UTXOSet,
        wallets: &WalletManager,
        from: &str,
        to: &str,
        amount: i32,
    ) -> (r: Result<Block, LedgerError>)
        ensures
            match r {
                Ok(b) => transferred(*old(set), *final(set), b@, wallets@, from@, to@, amount),
                Err(e) => untouched(*old(set), *final(set)) && (match transfer_built(
                    *old(set),
                    wallets@,
                    from@,
                    to@,
                    amount,
                ) {
                    Err(cause) => e == cause,
                    Ok(tx) => if old(set).blockchain.accepts(seq![tx]) {
                        e == LedgerError::ClockUnavailable || exists|timestamp: u128| #[trigger]
                            append_refused(old(set).blockchain.store(), seq![tx], timestamp, e)
                    } else {
                        e == LedgerError::InvalidTransaction
                    },
                }),
            },
    {
        let tx = match self.build_transfer(set, wallets, from, to, amount) {
            Ok(tx) => tx,
            Err(e) => return Err(e),
        };
        let mut data: Vec<Transaction> = Vec::new();
        let ghost built = tx@;
        data.push(tx);
        assert(crate::transaction::txs_view(data@) =~= seq![built]);
        let ghost before = set.blockchain.chain();
        let block = match set.blockchain.add_block(data) {
            Ok(block) => block,
            Err(e) => return Err(e),
        };
        let _ = set.update(&block);
        proof {
            if coherent(*old(set)) {
                lemma_update_matches_reindex(before->Ok_0, block@);
            }
        }
        Ok(block)
    }

    /// `reindex`: rebuilds the unspent outputs from the chain and counts
    /// the transactions that have some. It fails only where the chain
    /// cannot be read, and then nothing changes.
    pub fn reindex(&self, set: &mut UTXOSet) -> (r: Result<usize, LedgerError>)
        ensures
            final(set).blockchain == old(set).blockchain,
            match r {
                Ok(count) => rebuilt(*old(set), *final(set)) && count == prefixes(
                    final(set).entries(),
                    final(set).entries().len(),
                ).len(),
                Err(e) => old(set).blockchain.chain() == Err::<Seq<BlockView>, LedgerError>(e)
                    && untouched(*old(set), *final(set)),
            },
    {
        match set.reindex() {
            Ok(()) => {},
            Err(e) => return Err(e),
        }
        set.count_transactions()
    }

    /// `printchain`: the blocks of the chain, newest first.
    pub fn print_chain(&self, chain: &Blockchain) -> (r: Result<Vec<Block>, LedgerError>)
        ensures
            match r {
                Ok(v) => chain.chain() == Ok::<Seq<BlockView>, LedgerError>(
                    crate::blockchain::blocks_view(v@),
                ),
                Err(e) => chain.chain() == Err::<Seq<BlockView>, LedgerError>(e),
            },
    {
        chain.blocks()
    }
}

} // verus!
