use vstd::prelude::*;
use vstd::string::*;
use crate::block::BlockView;
use crate::blockchain::prior_txs;
use crate::digest::{hashable, MAX_MESSAGE_LEN};
use crate::errors::LedgerError;
use crate::keyspace::Entries;
use crate::transaction::{
    hash_sized, is_coinbase, locks_sized, sign_result, signatures_sized, signed, tx_bytes, tx_hash,
    Transaction, TransactionView,
};
use crate::tx::{copy_bytes, inputs_view, outputs_view, TxInput, TxInputView, TxOutput, TxOutputView};
use crate::utxoset::{
    lemma_spendable_picks_indexes, picks_are_indexes, picks_view, spendable, Picks, UTXOSet,
};
use crate::address::BODY_LEN;
use crate::wallet::{pub_key_hash, Wallet, WalletView};

verus! {

/// The inputs that spend the outputs `vouts` of the transaction `txid`,
/// each with the spender's public key and no signature yet.
pub open spec fn group_inputs(txid: Seq<char>, vouts: Seq<i32>, public_key: Seq<u8>) -> Seq<
    TxInputView,
> {
    Seq::new(
        vouts.len(),
        |i: int| TxInputView { txid, vout: vouts[i], signature: Seq::empty(), pub_key: public_key },
    )
}

/// The inputs that spend the picked outputs, pick by pick.
pub open spec fn picks_inputs(picks: Picks, public_key: Seq<u8>) -> Seq<TxInputView>
    decreases picks.len(),
{
    if picks.len() == 0 {
        Seq::empty()
    } else {
        picks_inputs(picks.drop_last(), public_key) + group_inputs(
            picks.last().0,
            picks.last().1,
            public_key,
        )
    }
}

/// The outputs of a transfer of `amount` out of picked outputs that sum to
/// `accum`: the amount to the recipient, and what is left over, if
/// anything, back to the sender.
pub open spec fn transfer_outputs(amount: i32, accum: i32, to_hash: Seq<u8>, from_hash: Seq<u8>) -> Seq<
    TxOutputView,
> {
    if accum > amount {
        seq![
            TxOutputView { value: amount, pub_key_hash: to_hash },
            TxOutputView { value: (accum - amount) as i32, pub_key_hash: from_hash },
        ]
    } else {
        seq![TxOutputView { value: amount, pub_key_hash: to_hash }]
    }
}

/// The transfer before its id is set and before it is signed.
pub open spec fn transfer_draft(
    from: WalletView,
    amount: i32,
    to: WalletView,
    accum: i32,
    picks: Picks,
) -> TransactionView {
    TransactionView {
        id: Seq::empty(),
        vin: picks_inputs(picks, from.public_key),
        vout: transfer_outputs(
            amount,
            accum,
            pub_key_hash(to.public_key),
            pub_key_hash(from.public_key),
        ),
    }
}

/// The transfer with its id, the hash of the draft, before it is signed.
pub open spec fn transfer_unsigned(
    from: WalletView,
    amount: i32,
    to: WalletView,
    accum: i32,
    picks: Picks,
) -> TransactionView {
    TransactionView {
        id: tx_hash(transfer_draft(from, amount, to, accum, picks)),
        ..transfer_draft(from, amount, to, accum, picks)
    }
}

/// What building a transfer gives, for the entries of the unspent outputs
/// and the blocks of the chain: the signed transaction, or why there is
/// none.
pub open spec fn transfer_result(
    from: WalletView,
    amount: i32,
    to: WalletView,
    entries: Entries,
    chain: Result<Seq<BlockView>, LedgerError>,
) -> Result<TransactionView, LedgerError> {
    if !hashable(from.public_key.len()) || !hashable(to.public_key.len()) {
        Err(LedgerError::SerializationFailure)
    } else {
        match spendable(entries, pub_key_hash(from.public_key), amount, entries.len()) {
            Err(e) => Err(e),
            Ok((accum, picks)) => if accum < amount {
                Err(LedgerError::InsufficientFunds)
            } else if accum - amount > i32::MAX {
                Err(LedgerError::Overflow)
            } else if !hashable(tx_bytes(transfer_draft(from, amount, to, accum, picks)).len()) {
                Err(LedgerError::SerializationFailure)
            } else {
                match chain {
                    Err(e) => Err(e),
                    Ok(c) => sign_result(
                        transfer_unsigned(from, amount, to, accum, picks),
                        from.private_key,
                        prior_txs(c, transfer_unsigned(from, amount, to, accum, picks)),
                    ),
                }
            },
        }
    }
}

/// A transfer of exactly the sum picked has no change output; one unit
/// less than the sum picked gives a change output of one unit to the
/// sender; more than the sum picked is refused for want of funds.
pub proof fn lemma_transfer_boundaries(
    from: WalletView,
    amount: i32,
    to: WalletView,
    entries: Entries,
    chain: Result<Seq<BlockView>, LedgerError>,
    accum: i32,
    picks: Picks,
)
    requires
        hashable(from.public_key.len()),
        hashable(to.public_key.len()),
        spendable(entries, pub_key_hash(from.public_key), amount, entries.len()) == Ok::<
            (i32, Picks),
            LedgerError,
        >((accum, picks)),
    ensures
        amount > accum ==> transfer_result(from, amount, to, entries, chain) == Err::<
            TransactionView,
            LedgerError,
        >(LedgerError::InsufficientFunds),
        amount == accum ==> transfer_outputs(
            amount,
            accum,
            pub_key_hash(to.public_key),
            pub_key_hash(from.public_key),
        ) == seq![TxOutputView { value: amount, pub_key_hash: pub_key_hash(to.public_key) }],
        amount == accum - 1 ==> transfer_outputs(
            amount,
            accum,
            pub_key_hash(to.public_key),
            pub_key_hash(from.public_key),
        ) == seq![
            TxOutputView { value: amount, pub_key_hash: pub_key_hash(to.public_key) },
            TxOutputView { value: 1, pub_key_hash: pub_key_hash(from.public_key) },
        ],
        transfer_result(from, amount, to, entries, chain) matches Ok(tx) ==> tx.vout
            == transfer_outputs(
            amount,
            accum,
            pub_key_hash(to.public_key),
            pub_key_hash(from.public_key),
        ),
{
}

/// Inputs that spend picked outputs refer to outputs: no index is
/// negative, so the transaction that holds them is no coinbase.
pub proof fn lemma_picks_inputs_refer(picks: Picks, public_key: Seq<u8>)
    requires
        picks_are_indexes(picks),
    ensures
        forall|k: int|
            0 <= k < picks_inputs(picks, public_key).len() ==> (#[trigger] picks_inputs(
                picks,
                public_key,
            )[k]).vout >= 0,
    decreases picks.len(),
{
    if picks.len() > 0 {
        let front = picks.drop_last();
        assert forall|p: int, i: int|
            0 <= p < front.len() && 0 <= i < front[p].1.len() implies (#[trigger] front[p].1[i])
            >= 0 by {
            assert(front[p] == picks[p]);
            assert(picks[p].1[i] >= 0);
        }
        lemma_picks_inputs_refer(front, public_key);
        let head = picks_inputs(front, public_key);
        let group = group_inputs(picks.last().0, picks.last().1, public_key);
        let all = picks_inputs(picks, public_key);
        assert forall|k: int| 0 <= k < all.len() implies (#[trigger] all[k]).vout >= 0 by {
            if k < head.len() {
                assert(all[k] == head[k]);
            } else {
                assert(all[k] == group[k - head.len()]);
                assert(picks[picks.len() - 1].1[k - head.len()] >= 0);
            }
        }
    }
}

/// The inputs that spend the picked outputs.
fn inputs_for(picks: &Vec<(String, Vec<i32>)>, public_key: &Vec<u8>) -> (vin: Vec<TxInput>)
    ensures
        inputs_view(vin@) == picks_inputs(picks_view(picks@), public_key@),
{
    let ghost all = picks_view(picks@);
    let mut vin: Vec<TxInput> = Vec::new();
    let mut p: usize = 0;
    proof {
        assert(all.subrange(0, 0) =~= Seq::<(Seq<char>, Seq<i32>)>::empty());
        assert(inputs_view(vin@) =~= picks_inputs(all.subrange(0, 0), public_key@));
    }
    while p < picks.len()
        invariant
            p <= picks@.len(),
            all == picks_view(picks@),
            inputs_view(vin@) == picks_inputs(all.subrange(0, p as int), public_key@),
        decreases picks@.len() - p,
    {
        let ghost head = inputs_view(vin@);
        let ghost group = group_inputs(all[p as int].0, all[p as int].1, public_key@);
        let txid = &picks[p].0;
        let vouts = &picks[p].1;
        assert(all[p as int] == (txid@, vouts@));
        let mut i: usize = 0;
        assert(head + group.subrange(0, 0) =~= head);
        while i < vouts.len()
            invariant
                i <= vouts@.len(),
                group == group_inputs(txid@, vouts@, public_key@),
                inputs_view(vin@) == head + group.subrange(0, i as int),
            decreases vouts@.len() - i,
        {
            let input = TxInput {
                txid: txid.clone(),
                vout: vouts[i],
                signature: Vec::new(),
                pub_key: copy_bytes(public_key),
            };
            proof {
                assert(input@ == group[i as int]);
                assert(inputs_view(vin@.push(input)) =~= inputs_view(vin@).push(input@));
                assert((head + group.subrange(0, i as int)).push(group[i as int]) =~= head
                    + group.subrange(0, i + 1));
            }
            vin.push(input);
            i += 1;
        }
        proof {
            assert(group.subrange(0, i as int) =~= group);
            let next = all.subrange(0, p + 1);
            assert(next.drop_last() =~= all.subrange(0, p as int));
            assert(next.last() == all[p as int]);
        }
        p += 1;
    }
    assert(all.subrange(0, p as int) =~= all);
    vin
}

impl Transaction {
    /// Builds and signs the transfer of `amount` from one wallet to
    /// another: it spends unspent outputs of the sender that the set picks,
    /// pays the amount to the recipient and what is left over back to the
    /// sender. Its id is the hash of the transfer before it was signed, 64
    /// digits; each input carries a signature of 64 bytes; each output is
    /// locked to a hash of 20 bytes.
    pub fn new_utxo(from: &Wallet, amount: i32, to: &Wallet, utxo_set: &UTXOSet) -> (r: Result<
        Transaction,
        LedgerError,
    >)
        ensures
            match r {
                Ok(tx) => transfer_result(
                    from@,
                    amount,
                    to@,
                    utxo_set.entries(),
                    utxo_set.blockchain.chain(),
                ) == Ok::<TransactionView, LedgerError>(tx@) && !is_coinbase(tx@) && hash_sized(
                    tx@.id,
                ) && signatures_sized(tx@) && locks_sized(tx@) && pub_key_hash(
                    from@.public_key,
                ).len() == BODY_LEN && pub_key_hash(to@.public_key).len() == BODY_LEN,
                Err(e) => transfer_result(
                    from@,
                    amount,
                    to@,
                    utxo_set.entries(),
                    utxo_set.blockchain.chain(),
                ) == Err::<TransactionView, LedgerError>(e),
            },
    {
        if from.public_key.len() as u64 >= MAX_MESSAGE_LEN || to.public_key.len() as u64
            >= MAX_MESSAGE_LEN {
            return Err(LedgerError::SerializationFailure);
        }
        let mut from_hash = copy_bytes(&from.public_key);
        Wallet::hash_pub_key(&mut from_hash);
        let (accum, picks) = match utxo_set.find_spendable_outputs(from_hash.as_slice(), amount) {
            Ok(found) => found,
            Err(e) => return Err(e),
        };
        if accum < amount {
            return Err(LedgerError::InsufficientFunds);
        }
        let change = match accum.checked_sub(amount) {
            Some(change) => change,
            None => return Err(LedgerError::Overflow),
        };
        let vin = inputs_for(&picks, &from.public_key);
        let mut vout: Vec<TxOutput> = Vec::new();
        match TxOutput::new(amount, to.get_address()) {
            Ok(output) => {
                vout.push(output);
            },
            Err(e) => return Err(e),
        }
        if accum > amount {
            match TxOutput::new(change, from.get_address()) {
                Ok(output) => {
                    vout.push(output);
                },
                Err(e) => return Err(e),
            }
        }
        let mut tx = Transaction { id: String::new(), vin, vout };
        proof {
            let draft = transfer_draft(from@, amount, to@, accum, picks_view(picks@));
            assert(tx@.vout =~= draft.vout);
            assert(tx@ == draft);
            lemma_spendable_picks_indexes(
                utxo_set.entries(),
                from_hash@,
                amount,
                utxo_set.entries().len(),
            );
            lemma_picks_inputs_refer(picks_view(picks@), from@.public_key);
            if draft.vin.len() == 1 {
                assert(draft.vin[0].vout >= 0);
            }
        }
        match tx.hash() {
            Ok(id) => {
                tx.id = id;
            },
            Err(e) => return Err(e),
        }
        match utxo_set.blockchain.sign_transaction(&mut tx, from.private_key.as_slice()) {
            Ok(()) => Ok(tx),
            Err(e) => Err(e),
        }
    }
}

} // verus!
