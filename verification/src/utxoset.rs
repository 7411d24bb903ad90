use vstd::prelude::*;
use crate::block::{Block, BlockView};
use crate::blockchain::{chain_txs, chain_utxos, lemma_scan_concat, scan_txs, Blockchain};
use crate::errors::LedgerError;
use crate::keyspace::{has_key, lemma_to_map_dom, to_map, Entries, Keyspace};
use crate::transaction::{is_coinbase, txs_view, Transaction, TransactionView};
use crate::tx::{copy_bytes, decode_output, TxOutput, TxOutputView, outputs_view};
use crate::utxo::{
    apply_txs, created, find_hyphen, first_hyphen, input_key, inputs_upto, key_bytes,
    lemma_apply_from_empty, lemma_apply_txs_concat, lemma_output_key_is_text,
    lemma_surviving_is_unspent, output_key,
    outputs_upto, parse_key, split_key, surviving, unspent_at, Store,
};

verus! {

/// The outputs picked for spending: transaction ids, each with the indexes
/// of its picked outputs, in the order in which they were first picked.
pub type Picks = Seq<(Seq<char>, Seq<i32>)>;

/// The place of the first pick with the id `txid` from the place `from` on,
/// or the number of picks where there is none.
pub open spec fn pick_index_from(picks: Picks, txid: Seq<char>, from: int) -> int
    decreases picks.len() - from,
{
    if from < 0 || from >= picks.len() {
        picks.len() as int
    } else if picks[from].0 == txid {
        from
    } else {
        pick_index_from(picks, txid, from + 1)
    }
}

/// The picks with output `index` of the transaction `txid` added: behind
/// the indexes already picked of that transaction, or as a new pick.
pub open spec fn with_pick(picks: Picks, txid: Seq<char>, index: i32) -> Picks {
    let at = pick_index_from(picks, txid, 0);
    if at < picks.len() {
        picks.update(at, (txid, picks[at].1.push(index)))
    } else {
        picks.push((txid, seq![index]))
    }
}

/// What the scan of the first `n` entries for outputs to spend gives: the
/// sum picked and the picks. Every entry must name an output and hold one;
/// an output locked to `pkh` is picked as long as the sum is below
/// `amount`.
pub open spec fn spendable(entries: Entries, pkh: Seq<u8>, amount: i32, n: nat) -> Result<
    (i32, Picks),
    LedgerError,
>
    decreases n,
{
    if n == 0 {
        Ok((0i32, Seq::empty()))
    } else {
        match spendable(entries, pkh, amount, (n - 1) as nat) {
            Err(e) => Err(e),
            Ok((accum, picks)) => match (
                parse_key(entries[n - 1].0),
                decode_output(entries[n - 1].1),
            ) {
                (Some((txid, index)), Some(out)) => if out.pub_key_hash == pkh && accum < amount {
                    if i32::MIN <= accum + out.value <= i32::MAX {
                        Ok(((accum + out.value) as i32, with_pick(picks, txid, index)))
                    } else {
                        Err(LedgerError::Overflow)
                    }
                } else {
                    Ok((accum, picks))
                },
                _ => Err(LedgerError::StorageFailure),
            },
        }
    }
}

/// The outputs among the first `n` entries that are locked to `pkh`, in
/// the order of the entries. Every entry must hold an output.
pub open spec fn unlockable(entries: Entries, pkh: Seq<u8>, n: nat) -> Result<
    Seq<TxOutputView>,
    LedgerError,
>
    decreases n,
{
    if n == 0 {
        Ok(Seq::empty())
    } else {
        match unlockable(entries, pkh, (n - 1) as nat) {
            Err(e) => Err(e),
            Ok(found) => match decode_output(entries[n - 1].1) {
                None => Err(LedgerError::StorageFailure),
                Some(out) => if out.pub_key_hash == pkh {
                    Ok(found.push(out))
                } else {
                    Ok(found)
                },
            },
        }
    }
}

/// The sum of the amounts of a list of outputs.
pub open spec fn total(outs: Seq<TxOutputView>) -> int
    decreases outs.len(),
{
    if outs.len() == 0 {
        0
    } else {
        total(outs.drop_last()) + outs.last().value
    }
}

/// The part of a key before its first hyphen: the transaction id.
pub open spec fn key_prefix(key: Seq<u8>) -> Seq<u8> {
    key.subrange(0, first_hyphen(key, 0))
}

/// The transaction ids among the keys of the first `n` entries.
pub open spec fn prefixes(entries: Entries, n: nat) -> Set<Seq<u8>>
    decreases n,
{
    if n == 0 {
        Set::empty()
    } else {
        prefixes(entries, (n - 1) as nat).insert(key_prefix(entries[n - 1].0))
    }
}

/// The keys of the first `n` entries are text.
pub open spec fn keys_are_text(entries: Entries, n: nat) -> bool {
    forall|i: int| 0 <= i < n ==> vstd::utf8::valid_utf8((#[trigger] entries[i]).0)
}

/// The picks of a list, each by its view.
pub open spec fn picks_view(v: Seq<(String, Vec<i32>)>) -> Picks {
    v.map_values(|p: (String, Vec<i32>)| (p.0@, p.1@))
}

/// The place of a pick lies between the start of the search and the number
/// of picks.
pub proof fn lemma_pick_index_bounds(picks: Picks, txid: Seq<char>, from: int)
    requires
        0 <= from <= picks.len(),
    ensures
        from <= pick_index_from(picks, txid, from) <= picks.len(),
    decreases picks.len() - from,
{
    if from < picks.len() && picks[from].0 != txid {
        lemma_pick_index_bounds(picks, txid, from + 1);
    }
}

/// Every picked index is an index of an output: none is negative.
pub open spec fn picks_are_indexes(picks: Picks) -> bool {
    forall|p: int, i: int|
        0 <= p < picks.len() && 0 <= i < picks[p].1.len() ==> (#[trigger] picks[p].1[i]) >= 0
}

/// The scan for outputs to spend picks indexes of outputs only.
pub proof fn lemma_spendable_picks_indexes(entries: Entries, pkh: Seq<u8>, amount: i32, n: nat)
    requires
        spendable(entries, pkh, amount, n) is Ok,
    ensures
        picks_are_indexes(spendable(entries, pkh, amount, n)->Ok_0.1),
    decreases n,
{
    if n > 0 {
        lemma_spendable_picks_indexes(entries, pkh, amount, (n - 1) as nat);
        let (accum, picks) = spendable(entries, pkh, amount, (n - 1) as nat)->Ok_0;
        let found = parse_key(entries[n - 1].0);
        let after = spendable(entries, pkh, amount, n)->Ok_0.1;
        if after != picks {
            let (txid, index) = found->Some_0;
            assert(index >= 0);
            let at = pick_index_from(picks, txid, 0);
            lemma_pick_index_bounds(picks, txid, 0);
            assert(after == with_pick(picks, txid, index));
            assert forall|p: int, i: int|
                0 <= p < after.len() && 0 <= i < after[p].1.len() implies (#[trigger] after[p].1[i])
                >= 0 by {
                if at < picks.len() {
                    if p == at {
                        if i < picks[at].1.len() {
                            assert(after[p].1[i] == picks[p].1[i]);
                        }
                    } else {
                        assert(after[p].1[i] == picks[p].1[i]);
                    }
                } else {
                    if p < picks.len() {
                        assert(after[p].1[i] == picks[p].1[i]);
                    }
                }
            }
        }
    }
}

/// Once the scan for outputs to spend has failed, it fails on more entries.
pub proof fn lemma_spendable_fails(entries: Entries, pkh: Seq<u8>, amount: i32, k: nat, n: nat)
    requires
        k <= n,
        spendable(entries, pkh, amount, k) is Err,
    ensures
        spendable(entries, pkh, amount, n) == spendable(entries, pkh, amount, k),
    decreases n,
{
    if k < n {
        lemma_spendable_fails(entries, pkh, amount, k, (n - 1) as nat);
    }
}

/// Once the scan for locked outputs has failed, it fails on more entries.
pub proof fn lemma_unlockable_fails(entries: Entries, pkh: Seq<u8>, k: nat, n: nat)
    requires
        k <= n,
        unlockable(entries, pkh, k) is Err,
    ensures
        unlockable(entries, pkh, n) == unlockable(entries, pkh, k),
    decreases n,
{
    if k < n {
        lemma_unlockable_fails(entries, pkh, k, (n - 1) as nat);
    }
}

/// Updating the unspent outputs with each appended block gives what a
/// rebuild from the whole chain gives: for blocks `news`, newest first,
/// appended to the chain `c`, the unspent outputs of the longer chain are
/// those of `c` with the transactions of `news` applied in the order in
/// which they were appended.
pub proof fn lemma_updates_match_reindex(c: Seq<BlockView>, news: Seq<BlockView>)
    ensures
        chain_utxos(news + c) == apply_txs(chain_utxos(c), chain_txs(news)),
{
    assert((news + c).reverse() =~= c.reverse() + news.reverse());
    lemma_scan_concat(c.reverse(), news.reverse());
    lemma_apply_txs_concat(Map::empty(), chain_txs(c), chain_txs(news));
}

/// The same for one appended block: the unspent outputs of the chain with
/// the block are those of the chain without it, updated with the block.
pub proof fn lemma_update_matches_reindex(c: Seq<BlockView>, b: BlockView)
    ensures
        chain_utxos(seq![b] + c) == apply_txs(chain_utxos(c), b.transactions),
{
    lemma_updates_match_reindex(c, seq![b]);
    let one = seq![b];
    assert(one.reverse() =~= one);
    assert(one.drop_last() =~= Seq::<BlockView>::empty());
    assert(scan_txs(one.drop_last()) =~= Seq::<TransactionView>::empty());
    assert(one.last() == b);
    assert(scan_txs(one) =~= b.transactions);
}

/// Every unspent output of a chain is an output of a transaction of the
/// chain, stored in its canonical bytes under its key, and no transaction
/// at the same or a later place in the chain consumes it.
pub proof fn lemma_utxos_are_unspent(c: Seq<BlockView>, k: Seq<u8>)
    requires
        chain_utxos(c).contains_key(k),
    ensures
        chain_utxos(c) == surviving(chain_txs(c)),
        exists|j: int, i: int| unspent_at(chain_txs(c), j, i, k),
{
    lemma_apply_from_empty(chain_txs(c));
    lemma_surviving_is_unspent(chain_txs(c), k);
}

/// The keys of the unspent outputs of a chain are text: entries that hold
/// exactly those outputs have text for keys.
pub proof fn lemma_rebuilt_keys_are_text(c: Seq<BlockView>, entries: Entries)
    requires
        to_map(entries) == chain_utxos(c),
    ensures
        keys_are_text(entries, entries.len()),
{
    assert forall|i: int| 0 <= i < entries.len() implies vstd::utf8::valid_utf8(
        (#[trigger] entries[i]).0,
    ) by {
        let k = entries[i].0;
        lemma_to_map_dom(entries, k);
        assert(has_key(entries, k));
        lemma_utxos_are_unspent(c, k);
        let (j, o) = choose|j: int, o: int| unspent_at(chain_txs(c), j, o, k);
        lemma_output_key_is_text(chain_txs(c)[j].id, o);
    }
}

/// The set `after` is what a rebuild makes of the set `before`: the chain
/// is the same, and the unspent outputs are those of the chain.
pub open spec fn rebuilt(before: UTXOSet, after: UTXOSet) -> bool {
    &&& after.blockchain == before.blockchain
    &&& before.blockchain.chain() is Ok
    &&& after.utxos() == chain_utxos(before.blockchain.chain()->Ok_0)
}

/// A second rebuild right after a rebuild changes nothing.
pub proof fn lemma_rebuild_twice(start: UTXOSet, once: UTXOSet, twice: UTXOSet)
    requires
        rebuilt(start, once),
        rebuilt(once, twice),
    ensures
        twice.utxos() == once.utxos(),
        twice.blockchain == once.blockchain,
{
}

/// The unspent outputs of a chain, kept in a keyspace of their own: a
/// projection of the chain that can be rebuilt from it at any time.
pub struct UTXOSet {
    pub blockchain: Blockchain,
    pub db: Keyspace,
}

impl UTXOSet {
    /// The unspent outputs as they are stored.
    pub open spec fn utxos(&self) -> Store {
        self.db.map()
    }

    /// The entries of the keyspace, in the order in which they are scanned.
    pub open spec fn entries(&self) -> Entries {
        self.db@
    }

    /// The unspent outputs of `blockchain` as the keyspace `db` holds them.
    pub fn new(blockchain: Blockchain, db: Keyspace) -> (r: UTXOSet)
        ensures
            r.blockchain == blockchain,
            r.utxos() == db.map(),
            r.entries() == db@,
    {
        UTXOSet { blockchain, db }
    }

    /// The key of output `index` of the transaction `txid`.
    pub fn construct_key(txid: &str, index: usize) -> (key: Vec<u8>)
        ensures
            key@ == output_key(txid@, index as int),
    {
        key_bytes(txid, index as i128)
    }

    /// Rebuilds the unspent outputs from the chain. What was stored before
    /// does not matter; every key is then the text of a transaction id and
    /// an index. Where the chain cannot be read nothing changes.
    pub fn reindex(&mut self) -> (r: Result<(), LedgerError>)
        ensures
            final(self).blockchain == old(self).blockchain,
            match r {
                Ok(()) => rebuilt(*old(self), *final(self)) && keys_are_text(
                    final(self).entries(),
                    final(self).entries().len(),
                ),
                Err(e) => old(self).blockchain.chain() == Err::<Seq<BlockView>, LedgerError>(e)
                    && final(self).utxos() == old(self).utxos() && final(self).entries() == old(
                    self,
                ).entries(),
            },
    {
        match self.blockchain.find_all_utxos() {
            Ok(db) => {
                proof {
                    lemma_rebuilt_keys_are_text(self.blockchain.chain()->Ok_0, db@);
                }
                self.db = db;
                Ok(())
            },
            Err(e) => Err(e),
        }
    }

    /// Updates the unspent outputs with an appended block: for each
    /// transaction in order, its outputs are put in, then the outputs that
    /// it consumes are taken out.
    pub fn update(&mut self, block: &Block) -> (r: Result<(), LedgerError>)
        ensures
            r is Ok,
            final(self).blockchain == old(self).blockchain,
            final(self).utxos() == apply_txs(old(self).utxos(), block@.transactions),
    {
        let txs = block.get_transactions();
        let ghost all = txs_view(txs@);
        let ghost start = self.utxos();
        let mut t: usize = 0;
        proof {
            assert(all.subrange(0, 0) =~= Seq::<TransactionView>::empty());
        }
        while t < txs.len()
            invariant
                t <= txs@.len(),
                all == txs_view(txs@),
                self.blockchain == old(self).blockchain,
                self.utxos() == apply_txs(start, all.subrange(0, t as int)),
            decreases txs@.len() - t,
        {
            let tx = &txs[t];
            proof {
                let next = all.subrange(0, t + 1);
                assert(next.drop_last() =~= all.subrange(0, t as int));
                assert(next.last() == tx@);
            }
            UTXOSet::put_outputs(&mut self.db, tx);
            UTXOSet::take_inputs(&mut self.db, tx);
            t += 1;
        }
        assert(all.subrange(0, t as int) =~= all);
        Ok(())
    }

    /// Puts the outputs of `tx` into `db`, each under its key.
    fn put_outputs(db: &mut Keyspace, tx: &Transaction)
        ensures
            final(db).map() == old(db).map().union_prefer_right(created(tx@)),
    {
        let ghost before = db.map();
        let mut i: usize = 0;
        assert(db.map() =~= before.union_prefer_right(outputs_upto(tx@, 0)));
        while i < tx.vout.len()
            invariant
                i <= tx.vout@.len(),
                db.map() == before.union_prefer_right(outputs_upto(tx@, i as nat)),
            decreases tx.vout@.len() - i,
        {
            assert(tx@.vout[i as int] == tx.vout@[i as int]@);
            let key = key_bytes(tx.id.as_str(), i as i128);
            let value = tx.vout[i].to_bytes();
            db.insert(key, value);
            assert(db.map() =~= before.union_prefer_right(outputs_upto(tx@, (i + 1) as nat)));
            i += 1;
        }
    }

    /// Takes the outputs that `tx` consumes out of `db`.
    fn take_inputs(db: &mut Keyspace, tx: &Transaction)
        ensures
            final(db).map() == old(db).map().remove_keys(crate::utxo::consumed(tx@)),
    {
        let ghost before = db.map();
        if tx.is_coinbase() {
            assert(db.map() =~= before.remove_keys(crate::utxo::consumed(tx@)));
            return ;
        }
        let mut i: usize = 0;
        assert(db.map() =~= before.remove_keys(inputs_upto(tx@, 0)));
        while i < tx.vin.len()
            invariant
                i <= tx.vin@.len(),
                !is_coinbase(tx@),
                db.map() == before.remove_keys(inputs_upto(tx@, i as nat)),
            decreases tx.vin@.len() - i,
        {
            let input = &tx.vin[i];
            assert(tx@.vin[i as int] == input@);
            let key = key_bytes(input.txid.as_str(), input.vout as i128);
            db.remove(key.as_slice());
            proof {
                let k = input_key(tx@.vin[i as int]);
                assert(inputs_upto(tx@, (i + 1) as nat) =~= inputs_upto(tx@, i as nat).insert(k));
                assert(db.map() =~= before.remove_keys(inputs_upto(tx@, (i + 1) as nat)));
            }
            i += 1;
        }
    }

    /// The number of transactions with unspent outputs: the number of
    /// distinct transaction ids among the keys. Every key must be text.
    pub fn count_transactions(&self) -> (r: Result<usize, LedgerError>)
        ensures
            match r {
                Ok(count) => keys_are_text(self.entries(), self.entries().len()) && count
                    == prefixes(self.entries(), self.entries().len()).len(),
                Err(e) => e == LedgerError::StorageFailure && !keys_are_text(
                    self.entries(),
                    self.entries().len(),
                ),
            },
    {
        let mut seen = Keyspace::new();
        let n = self.db.len();
        let mut i: usize = 0;
        assert(seen.map().dom() =~= prefixes(self.db@, 0));
        while i < n
            invariant
                i <= n,
                n == self.db@.len(),
                keys_are_text(self.db@, i as nat),
                seen.map().dom() == prefixes(self.db@, i as nat),
            decreases n - i,
        {
            let key = self.db.key_at(i);
            if crate::codec::text_from_utf8(copy_bytes(key)).is_none() {
                return Err(LedgerError::StorageFailure);
            }
            let mark = find_hyphen(key.as_slice(), 0);
            let prefix = vstd::slice::slice_to_vec(
                vstd::slice::slice_subrange(key.as_slice(), 0, mark),
            );
            seen.insert(prefix, Vec::new());
            assert(seen.map().dom() =~= prefixes(self.db@, (i + 1) as nat));
            i += 1;
        }
        Ok(seen.len())
    }

    /// Picks outputs locked to `address` until their sum reaches `amount`:
    /// the sum picked, and the picked outputs by transaction. The entries
    /// are scanned in the order of the keyspace.
    pub fn find_spendable_outputs(&self, address: &[u8], amount: i32) -> (r: Result<
        (i32, Vec<(String, Vec<i32>)>),
        LedgerError,
    >)
        ensures
            match r {
                Ok((accum, picks)) => spendable(
                    self.entries(),
                    address@,
                    amount,
                    self.entries().len(),
                ) == Ok::<(i32, Picks), LedgerError>((accum, picks_view(picks@))),
                Err(e) => spendable(self.entries(), address@, amount, self.entries().len()) == Err::<
                    (i32, Picks),
                    LedgerError,
                >(e),
            },
    {
        let mut accum: i32 = 0;
        let mut picks: Vec<(String, Vec<i32>)> = Vec::new();
        let n = self.db.len();
        let mut i: usize = 0;
        assert(picks_view(picks@) =~= Seq::<(Seq<char>, Seq<i32>)>::empty());
        while i < n
            invariant
                i <= n,
                n == self.db@.len(),
                spendable(self.db@, address@, amount, i as nat) == Ok::<(i32, Picks), LedgerError>(
                    (accum, picks_view(picks@)),
                ),
            decreases n - i,
        {
            let found = split_key(self.db.key_at(i).as_slice());
            let held = TxOutput::from_bytes(self.db.value_at(i).as_slice());
            match (found, held) {
                (Some((txid, index)), Some(out)) => {
                    if out.can_be_unlock_with(address) && accum < amount {
                        match accum.checked_add(out.value) {
                            Some(sum) => {
                                accum = sum;
                                UTXOSet::add_pick(&mut picks, txid, index);
                            },
                            None => {
                                proof {
                                    lemma_spendable_fails(
                                        self.db@,
                                        address@,
                                        amount,
                                        (i + 1) as nat,
                                        n as nat,
                                    );
                                }
                                return Err(LedgerError::Overflow);
                            },
                        }
                    }
                },
                _ => {
                    proof {
                        lemma_spendable_fails(self.db@, address@, amount, (i + 1) as nat, n as nat);
                    }
                    return Err(LedgerError::StorageFailure);
                },
            }
            i += 1;
        }
        Ok((accum, picks))
    }

    /// The place of the first pick with the id `txid`, or the number of
    /// picks where there is none.
    fn pick_position(picks: &Vec<(String, Vec<i32>)>, txid: &String) -> (at: usize)
        ensures
            at == pick_index_from(picks_view(picks@), txid@, 0),
            at <= picks@.len(),
            at < picks@.len() ==> picks@[at as int].0@ == txid@,
    {
        let ghost all = picks_view(picks@);
        let mut at: usize = 0;
        while at < picks.len()
            invariant
                at <= picks@.len(),
                all == picks_view(picks@),
                pick_index_from(all, txid@, 0) == pick_index_from(all, txid@, at as int),
            decreases picks@.len() - at,
        {
            assert(all[at as int].0 == picks@[at as int].0@);
            if picks[at].0 == *txid {
                return at;
            }
            at += 1;
        }
        at
    }

    /// Adds output `index` of the transaction `txid` to the picks.
    fn add_pick(picks: &mut Vec<(String, Vec<i32>)>, txid: String, index: i32)
        ensures
            picks_view(final(picks)@) == with_pick(picks_view(old(picks)@), txid@, index),
    {
        let ghost before = picks_view(picks@);
        let at = UTXOSet::pick_position(picks, &txid);
        if at < picks.len() {
            assert(before[at as int] == (picks@[at as int].0@, picks@[at as int].1@));
            let (id, mut list) = picks.remove(at);
            list.push(index);
            let ghost entry = (id@, list@);
            picks.insert(at, (id, list));
            assert(picks_view(picks@) =~= before.update(at as int, entry));
            assert(picks_view(picks@) =~= with_pick(before, txid@, index));
        } else {
            let mut list: Vec<i32> = Vec::new();
            list.push(index);
            picks.push((txid, list));
            assert(picks_view(picks@) =~= with_pick(before, txid@, index));
        }
    }

    /// The unspent outputs locked to `pub_key_hash`, in the order of the
    /// keyspace. Every entry must hold an output.
    pub fn find_utxo(&self, pub_key_hash: &[u8]) -> (r: Result<Vec<TxOutput>, LedgerError>)
        ensures
            match r {
                Ok(found) => unlockable(self.entries(), pub_key_hash@, self.entries().len()) == Ok::<
                    Seq<TxOutputView>,
                    LedgerError,
                >(outputs_view(found@)),
                Err(e) => unlockable(self.entries(), pub_key_hash@, self.entries().len()) == Err::<
                    Seq<TxOutputView>,
                    LedgerError,
                >(e),
            },
    {
        let mut found: Vec<TxOutput> = Vec::new();
        let n = self.db.len();
        let mut i: usize = 0;
        assert(outputs_view(found@) =~= Seq::<TxOutputView>::empty());
        while i < n
            invariant
                i <= n,
                n == self.db@.len(),
                unlockable(self.db@, pub_key_hash@, i as nat) == Ok::<
                    Seq<TxOutputView>,
                    LedgerError,
                >(outputs_view(found@)),
            decreases n - i,
        {
            match TxOutput::from_bytes(self.db.value_at(i).as_slice()) {
                Some(out) => {
                    if out.can_be_unlock_with(pub_key_hash) {
                        proof {
                            assert(outputs_view(found@.push(out)) =~= outputs_view(found@).push(
                                out@,
                            ));
                        }
                        found.push(out);
                    }
                },
                None => {
                    proof {
                        lemma_unlockable_fails(self.db@, pub_key_hash@, (i + 1) as nat, n as nat);
                    }
                    return Err(LedgerError::StorageFailure);
                },
            }
            i += 1;
        }
        Ok(found)
    }

    /// The balance of a public-key hash: the sum of the amounts of the
    /// unspent outputs locked to it.
    pub fn get_balance(&self, pub_key_hash: &[u8]) -> (r: Result<i128, LedgerError>)
        ensures
            match r {
                Ok(sum) => unlockable(self.entries(), pub_key_hash@, self.entries().len()) is Ok
                    && sum == total(
                    unlockable(self.entries(), pub_key_hash@, self.entries().len())->Ok_0,
                ),
                Err(e) => unlockable(self.entries(), pub_key_hash@, self.entries().len()) == Err::<
                    Seq<TxOutputView>,
                    LedgerError,
                >(e),
            },
    {
        let found = match self.find_utxo(pub_key_hash) {
            Ok(found) => found,
            Err(e) => return Err(e),
        };
        Ok(sum_values(&found))
    }
}

/// The sum of the amounts of a list of outputs.
pub fn sum_values(outs: &Vec<TxOutput>) -> (sum: i128)
    ensures
        sum == total(outputs_view(outs@)),
{
    let ghost all = outputs_view(outs@);
    let mut sum: i128 = 0;
    let mut i: usize = 0;
    assert(all.subrange(0, 0) =~= Seq::<TxOutputView>::empty());
    while i < outs.len()
        invariant
            i <= outs@.len(),
            all == outputs_view(outs@),
            sum == total(all.subrange(0, i as int)),
            -(i as int) * 0x8000_0000 <= sum <= (i as int) * 0x8000_0000,
        decreases outs@.len() - i,
    {
        proof {
            let next = all.subrange(0, i + 1);
            assert(next.drop_last() =~= all.subrange(0, i as int));
            assert(next.last() == outs@[i as int]@);
        }
        sum = sum + outs[i].get_value() as i128;
        i += 1;
    }
    assert(all.subrange(0, i as int) =~= all);
    sum
}

} // verus!
