use vstd::prelude::*;
use crate::errors::LedgerError;
use crate::keyspace::{
    distinct_keys, has_key, lemma_to_map_dom, lemma_to_map_len, lemma_to_map_remove,
    lemma_to_map_value, lemma_with_entry, to_map, with_entry, Entries,
};
use crate::block::BlockView;
use crate::transaction::{is_coinbase, lemma_signing_keeps_the_rest, sign_result, TransactionView};
use crate::transfer::{
    group_inputs, lemma_picks_inputs_refer, picks_inputs, transfer_outputs, transfer_result,
    transfer_unsigned,
};
use crate::tx::{decode_output, lemma_output_round_trip, output_bytes, TxInputView, TxOutputView};
use crate::utxo::{
    apply_tx, apply_txs, consumed, created, digits, input_key, inputs_upto, output_key,
    outputs_upto, parse_key,
};
use crate::wallet::{pub_key_hash, WalletView};
use crate::utxoset::{
    lemma_pick_index_bounds, lemma_spendable_picks_indexes, pick_index_from, spendable, total,
    unlockable, with_pick, Picks,
};

verus! {

/// What an entry adds to the balance of a public-key hash: the amount of
/// the output that it holds, where that output is locked to the hash.
pub open spec fn share(value: Seq<u8>, pkh: Seq<u8>) -> int {
    match decode_output(value) {
        Some(o) => if o.pub_key_hash == pkh {
            o.value as int
        } else {
            0
        },
        None => 0,
    }
}

/// Every entry holds an output.
pub open spec fn all_outputs(s: Entries) -> bool {
    forall|i: int| 0 <= i < s.len() ==> decode_output((#[trigger] s[i]).1) is Some
}

/// The balance of a public-key hash over the first `n` entries: the sum of
/// the amounts locked to it.
pub open spec fn balance_upto(s: Entries, pkh: Seq<u8>, n: nat) -> int
    decreases n,
{
    if n == 0 {
        0
    } else {
        balance_upto(s, pkh, (n - 1) as nat) + share(s[n - 1].1, pkh)
    }
}

/// The balance of a public-key hash over all entries.
pub open spec fn balance(s: Entries, pkh: Seq<u8>) -> int {
    balance_upto(s, pkh, s.len())
}

/// The balance over the first `n` entries without those whose key is in
/// `gone`.
pub open spec fn balance_without(s: Entries, gone: Set<Seq<u8>>, pkh: Seq<u8>, n: nat) -> int
    decreases n,
{
    if n == 0 {
        0
    } else if gone.contains(s[n - 1].0) {
        balance_without(s, gone, pkh, (n - 1) as nat)
    } else {
        balance_without(s, gone, pkh, (n - 1) as nat) + share(s[n - 1].1, pkh)
    }
}

/// The entries whose key is not in `gone`, in their order.
pub open spec fn kept(s: Entries, gone: Set<Seq<u8>>) -> Entries
    decreases s.len(),
{
    if s.len() == 0 {
        Seq::empty()
    } else if gone.contains(s.last().0) {
        kept(s.drop_last(), gone)
    } else {
        kept(s.drop_last(), gone).push(s.last())
    }
}

/// The balance over a prefix looks at that prefix only.
pub proof fn lemma_balance_upto_prefix(s: Entries, t: Entries, pkh: Seq<u8>, n: nat)
    requires
        n <= s.len(),
        n <= t.len(),
        forall|i: int| 0 <= i < n ==> s[i] == t[i],
    ensures
        balance_upto(s, pkh, n) == balance_upto(t, pkh, n),
    decreases n,
{
    if n > 0 {
        lemma_balance_upto_prefix(s, t, pkh, (n - 1) as nat);
    }
}

/// The same for the balance without some keys.
pub proof fn lemma_balance_without_prefix(
    s: Entries,
    t: Entries,
    gone: Set<Seq<u8>>,
    pkh: Seq<u8>,
    n: nat,
)
    requires
        n <= s.len(),
        n <= t.len(),
        forall|i: int| 0 <= i < n ==> s[i] == t[i],
    ensures
        balance_without(s, gone, pkh, n) == balance_without(t, gone, pkh, n),
    decreases n,
{
    if n > 0 {
        lemma_balance_without_prefix(s, t, gone, pkh, (n - 1) as nat);
    }
}

/// One more entry adds its share.
pub proof fn lemma_balance_push(s: Entries, key: Seq<u8>, value: Seq<u8>, pkh: Seq<u8>)
    ensures
        balance(s.push((key, value)), pkh) == balance(s, pkh) + share(value, pkh),
{
    let t = s.push((key, value));
    lemma_balance_upto_prefix(s, t, pkh, s.len());
}

/// Taking an entry out takes its share out.
pub proof fn lemma_balance_remove(s: Entries, i: int, pkh: Seq<u8>)
    requires
        0 <= i < s.len(),
    ensures
        balance(s.remove(i), pkh) == balance(s, pkh) - share(s[i].1, pkh),
    decreases s.len(),
{
    let t = s.remove(i);
    let front = s.drop_last();
    lemma_balance_upto_prefix(s, front, pkh, front.len());
    if i == s.len() - 1 {
        assert(t =~= front);
    } else {
        lemma_balance_remove(front, i, pkh);
        assert(t.drop_last() =~= front.remove(i));
        assert(t.last() == s.last());
        lemma_balance_upto_prefix(t, t.drop_last(), pkh, (t.len() - 1) as nat);
        assert(front[i] == s[i]);
    }
}

/// The balance is a matter of what is stored, not of the order: two lists
/// of entries with the same keys and values give the same balance.
pub proof fn lemma_balance_by_map(s: Entries, t: Entries, pkh: Seq<u8>)
    requires
        distinct_keys(s),
        distinct_keys(t),
        to_map(s) == to_map(t),
    ensures
        balance(s, pkh) == balance(t, pkh),
    decreases s.len(),
{
    lemma_to_map_len(s);
    lemma_to_map_len(t);
    if s.len() > 0 {
        let last = s.len() - 1;
        let key = s[last].0;
        let front = s.drop_last();
        lemma_to_map_value(s, last);
        lemma_to_map_dom(t, key);
        let j = choose|j: int| 0 <= j < t.len() && (#[trigger] t[j]).0 == key;
        lemma_to_map_value(t, j);
        lemma_to_map_remove(t, j);
        lemma_to_map_remove(s, last);
        assert(s.remove(last) =~= front);
        lemma_balance_by_map(front, t.remove(j), pkh);
        lemma_balance_remove(t, j, pkh);
        lemma_balance_remove(s, last, pkh);
    }
}

/// The entries that are kept have distinct keys, hold what the map holds
/// without the keys that are gone, and give the balance without them.
pub proof fn lemma_kept(s: Entries, gone: Set<Seq<u8>>, pkh: Seq<u8>)
    requires
        distinct_keys(s),
    ensures
        distinct_keys(kept(s, gone)),
        to_map(kept(s, gone)) == to_map(s).remove_keys(gone),
        balance(kept(s, gone), pkh) == balance_without(s, gone, pkh, s.len()),
    decreases s.len(),
{
    if s.len() == 0 {
        assert(to_map(s).remove_keys(gone) =~= Map::<Seq<u8>, Seq<u8>>::empty());
    } else {
        let front = s.drop_last();
        let last = s.last();
        lemma_kept(front, gone, pkh);
        lemma_balance_without_prefix(s, front, gone, pkh, front.len());
        lemma_to_map_dom(front, last.0);
        if has_key(front, last.0) {
            let j = choose|j: int| 0 <= j < front.len() && (#[trigger] front[j]).0 == last.0;
            assert(s[j].0 == s[s.len() - 1].0);
        }
        if gone.contains(last.0) {
            assert(to_map(s).remove_keys(gone) =~= to_map(front).remove_keys(gone));
        } else {
            let k = kept(front, gone);
            lemma_to_map_dom(k, last.0);
            lemma_with_entry(k, last.0, last.1);
            assert(with_entry(k, last.0, last.1) == k.push(last));
            assert(to_map(s).remove_keys(gone) =~= to_map(front).remove_keys(gone).insert(
                last.0,
                last.1,
            ));
            lemma_balance_push(k, last.0, last.1, pkh);
        }
    }
}

/// The keys of the entries that the scan of the first `n` entries for
/// outputs to spend picks.
pub open spec fn picked(s: Entries, pkh: Seq<u8>, amount: i32, n: nat) -> Set<Seq<u8>>
    decreases n,
{
    if n == 0 {
        Set::empty()
    } else {
        let before = picked(s, pkh, amount, (n - 1) as nat);
        match (spendable(s, pkh, amount, (n - 1) as nat), decode_output(s[n - 1].1)) {
            (Ok((accum, _)), Some(o)) => if o.pub_key_hash == pkh && accum < amount {
                before.insert(s[n - 1].0)
            } else {
                before
            },
            _ => before,
        }
    }
}

/// A key that stands under none of the first `n` entries does not matter to
/// the balance without it.
pub proof fn lemma_balance_without_other_key(
    s: Entries,
    gone: Set<Seq<u8>>,
    key: Seq<u8>,
    pkh: Seq<u8>,
    n: nat,
)
    requires
        n <= s.len(),
        forall|i: int| 0 <= i < n ==> (#[trigger] s[i]).0 != key,
    ensures
        balance_without(s, gone.insert(key), pkh, n) == balance_without(s, gone, pkh, n),
    decreases n,
{
    if n > 0 {
        lemma_balance_without_other_key(s, gone, key, pkh, (n - 1) as nat);
        assert(s[n - 1].0 != key);
    }
}

/// What the scan for outputs to spend picks: entries among those scanned,
/// each an output locked to the hash, whose amounts sum to the sum picked.
/// So the balance of the hash without the picked entries is its balance
/// less the sum picked, and the balance of no other hash changes.
pub proof fn lemma_scan_sums(s: Entries, pkh: Seq<u8>, amount: i32, n: nat, other: Seq<u8>)
    requires
        distinct_keys(s),
        n <= s.len(),
        spendable(s, pkh, amount, n) is Ok,
    ensures
        forall|i: int| 0 <= i < n ==> decode_output((#[trigger] s[i]).1) is Some,
        forall|k: Seq<u8>| #[trigger]
            picked(s, pkh, amount, n).contains(k) ==> exists|i: int|
                0 <= i < n && (#[trigger] s[i]).0 == k,
        balance_without(s, picked(s, pkh, amount, n), pkh, n) == balance_upto(s, pkh, n)
            - spendable(s, pkh, amount, n)->Ok_0.0,
        other != pkh ==> balance_without(s, picked(s, pkh, amount, n), other, n) == balance_upto(
            s,
            other,
            n,
        ),
    decreases n,
{
    if n > 0 {
        let m = (n - 1) as nat;
        lemma_scan_sums(s, pkh, amount, m, other);
        let before = picked(s, pkh, amount, m);
        let now = picked(s, pkh, amount, n);
        let key = s[n - 1].0;
        let accum = spendable(s, pkh, amount, m)->Ok_0.0;
        let o = decode_output(s[n - 1].1)->Some_0;
        assert(decode_output(s[n - 1].1) is Some);
        assert(!before.contains(key)) by {
            if before.contains(key) {
                let i = choose|i: int| 0 <= i < m && (#[trigger] s[i]).0 == key;
                assert(s[i].0 == s[n - 1].0);
            }
        }
        assert forall|k: Seq<u8>| #[trigger] now.contains(k) implies exists|i: int|
            0 <= i < n && (#[trigger] s[i]).0 == k by {
            if before.contains(k) {
                let i = choose|i: int| 0 <= i < m && (#[trigger] s[i]).0 == k;
                assert(0 <= i < n && s[i].0 == k);
            } else {
                assert(s[n - 1].0 == k);
            }
        }
        if o.pub_key_hash == pkh && accum < amount {
            assert(now == before.insert(key));
            assert forall|i: int| 0 <= i < m implies (#[trigger] s[i]).0 != key by {
                assert(s[i].0 != s[n - 1].0);
            }
            lemma_balance_without_other_key(s, before, key, pkh, m);
            lemma_balance_without_other_key(s, before, key, other, m);
        } else {
            assert(now == before);
        }
    }
}

/// Every key names the id and the index that it is the key of.
pub open spec fn canonical_keys(s: Entries) -> bool {
    forall|i: int|
        0 <= i < s.len() ==> (parse_key((#[trigger] s[i]).0) matches Some((txid, index))
            ==> output_key(txid, index as int) == s[i].0)
}

/// The key of output `i` of pick `p`.
pub open spec fn pick_key(picks: Picks, p: int, i: int) -> Seq<u8> {
    output_key(picks[p].0, picks[p].1[i] as int)
}

/// The keys of the picked outputs.
pub open spec fn pick_keys(picks: Picks) -> Set<Seq<u8>> {
    Set::new(
        |k: Seq<u8>|
            exists|p: int, i: int|
                0 <= p < picks.len() && 0 <= i < picks[p].1.len() && #[trigger] pick_key(
                    picks,
                    p,
                    i,
                ) == k,
    )
}

/// The keys of the outputs that a list of inputs spends.
pub open spec fn input_keys(vin: Seq<TxInputView>) -> Set<Seq<u8>> {
    Set::new(|k: Seq<u8>| exists|j: int| 0 <= j < vin.len() && #[trigger] input_key(vin[j]) == k)
}

/// The place found for an id holds the id where it is a place.
pub proof fn lemma_pick_index_holds(picks: Picks, txid: Seq<char>, from: int)
    requires
        0 <= from <= picks.len(),
    ensures
        pick_index_from(picks, txid, from) < picks.len() ==> picks[pick_index_from(
            picks,
            txid,
            from,
        )].0 == txid,
    decreases picks.len() - from,
{
    if from < picks.len() && picks[from].0 != txid {
        lemma_pick_index_holds(picks, txid, from + 1);
    }
}

/// One more pick adds the key of the picked output.
pub proof fn lemma_with_pick_keys(picks: Picks, txid: Seq<char>, index: i32)
    ensures
        pick_keys(with_pick(picks, txid, index)) == pick_keys(picks).insert(
            output_key(txid, index as int),
        ),
{
    let after = with_pick(picks, txid, index);
    let at = pick_index_from(picks, txid, 0);
    let key = output_key(txid, index as int);
    lemma_pick_index_bounds(picks, txid, 0);
    lemma_pick_index_holds(picks, txid, 0);
    assert forall|k: Seq<u8>| pick_keys(after).contains(k) implies pick_keys(picks).insert(
        key,
    ).contains(k) by {
        let (p, i) = choose|p: int, i: int|
            0 <= p < after.len() && 0 <= i < after[p].1.len() && #[trigger] pick_key(after, p, i)
                == k;
        if at < picks.len() {
            if p == at && i == picks[at].1.len() {
                assert(k == key);
            } else {
                assert(pick_key(picks, p, i) == k);
            }
        } else {
            if p == picks.len() {
                assert(k == key);
            } else {
                assert(pick_key(picks, p, i) == k);
            }
        }
    }
    assert forall|k: Seq<u8>| pick_keys(picks).insert(key).contains(k) implies pick_keys(
        after,
    ).contains(k) by {
        if pick_keys(picks).contains(k) {
            let (p, i) = choose|p: int, i: int|
                0 <= p < picks.len() && 0 <= i < picks[p].1.len() && #[trigger] pick_key(
                    picks,
                    p,
                    i,
                ) == k;
            assert(pick_key(after, p, i) == k);
        } else {
            if at < picks.len() {
                assert(pick_key(after, at, picks[at].1.len() as int) == k);
            } else {
                assert(pick_key(after, picks.len() as int, 0) == k);
            }
        }
    }
    assert(pick_keys(after) =~= pick_keys(picks).insert(key));
}

/// Where every key names what it is the key of, the keys of the picked
/// outputs are the keys of the picked entries.
pub proof fn lemma_picked_keys(s: Entries, pkh: Seq<u8>, amount: i32, n: nat)
    requires
        canonical_keys(s),
        n <= s.len(),
        spendable(s, pkh, amount, n) is Ok,
    ensures
        pick_keys(spendable(s, pkh, amount, n)->Ok_0.1) == picked(s, pkh, amount, n),
    decreases n,
{
    if n == 0 {
        assert(pick_keys(Seq::<(Seq<char>, Seq<i32>)>::empty()) =~= Set::<Seq<u8>>::empty());
    } else {
        let m = (n - 1) as nat;
        lemma_picked_keys(s, pkh, amount, m);
        let (accum, picks) = spendable(s, pkh, amount, m)->Ok_0;
        let (txid, index) = parse_key(s[n - 1].0)->Some_0;
        let o = decode_output(s[n - 1].1)->Some_0;
        assert(parse_key(s[n - 1].0) is Some);
        if o.pub_key_hash == pkh && accum < amount {
            lemma_with_pick_keys(picks, txid, index);
            assert(output_key(txid, index as int) == s[n - 1].0);
        }
    }
}

/// The inputs that spend picked outputs spend exactly those outputs.
pub proof fn lemma_picks_inputs_keys(picks: Picks, public_key: Seq<u8>)
    ensures
        input_keys(picks_inputs(picks, public_key)) == pick_keys(picks),
    decreases picks.len(),
{
    let vin = picks_inputs(picks, public_key);
    if picks.len() == 0 {
        assert(input_keys(vin) =~= pick_keys(picks));
    } else {
        let front = picks.drop_last();
        let last = picks.len() - 1;
        let head = picks_inputs(front, public_key);
        let group = group_inputs(picks[last].0, picks[last].1, public_key);
        lemma_picks_inputs_keys(front, public_key);
        assert(vin == head + group);
        assert forall|k: Seq<u8>| input_keys(vin).contains(k) implies pick_keys(picks).contains(
            k,
        ) by {
            let j = choose|j: int| 0 <= j < vin.len() && #[trigger] input_key(vin[j]) == k;
            if j < head.len() {
                assert(vin[j] == head[j]);
                assert(input_key(head[j]) == k);
                assert(input_keys(head).contains(k));
                let (p, i) = choose|p: int, i: int|
                    0 <= p < front.len() && 0 <= i < front[p].1.len() && #[trigger] pick_key(
                        front,
                        p,
                        i,
                    ) == k;
                assert(front[p] == picks[p]);
                assert(pick_key(picks, p, i) == k);
            } else {
                let i = j - head.len();
                assert(vin[j] == group[i]);
                assert(pick_key(picks, last, i) == k);
            }
        }
        assert forall|k: Seq<u8>| pick_keys(picks).contains(k) implies input_keys(vin).contains(
            k,
        ) by {
            let (p, i) = choose|p: int, i: int|
                0 <= p < picks.len() && 0 <= i < picks[p].1.len() && #[trigger] pick_key(
                    picks,
                    p,
                    i,
                ) == k;
            if p < last {
                assert(front[p] == picks[p]);
                assert(pick_key(front, p, i) == k);
                assert(pick_keys(front).contains(k));
                let j = choose|j: int| 0 <= j < head.len() && #[trigger] input_key(head[j]) == k;
                assert(vin[j] == head[j]);
                assert(input_key(vin[j]) == k);
            } else {
                assert(vin[head.len() + i] == group[i]);
                assert(input_key(vin[head.len() + i]) == k);
            }
        }
        assert(input_keys(vin) =~= pick_keys(picks));
    }
}

/// The entries that are kept hold outputs where all entries do.
pub proof fn lemma_kept_outputs(s: Entries, gone: Set<Seq<u8>>)
    requires
        all_outputs(s),
    ensures
        all_outputs(kept(s, gone)),
    decreases s.len(),
{
    if s.len() > 0 {
        let front = s.drop_last();
        assert(all_outputs(front)) by {
            assert forall|i: int| 0 <= i < front.len() implies decode_output(
                (#[trigger] front[i]).1,
            ) is Some by {
                assert(front[i] == s[i]);
            }
        }
        lemma_kept_outputs(front, gone);
        let k = kept(front, gone);
        if !gone.contains(s.last().0) {
            assert forall|i: int| 0 <= i < k.push(s.last()).len() implies decode_output(
                (#[trigger] k.push(s.last())[i]).1,
            ) is Some by {
                if i < k.len() {
                    assert(k.push(s.last())[i] == k[i]);
                } else {
                    assert(k.push(s.last())[i] == s[s.len() - 1]);
                }
            }
        }
    }
}

/// Entries with the same keys and values hold outputs alike.
pub proof fn lemma_outputs_by_map(s: Entries, t: Entries)
    requires
        distinct_keys(s),
        distinct_keys(t),
        to_map(s) == to_map(t),
        all_outputs(s),
    ensures
        all_outputs(t),
{
    assert forall|i: int| 0 <= i < t.len() implies decode_output((#[trigger] t[i]).1) is Some by {
        lemma_to_map_value(t, i);
        lemma_to_map_dom(s, t[i].0);
        let j = choose|j: int| 0 <= j < s.len() && (#[trigger] s[j]).0 == t[i].0;
        lemma_to_map_value(s, j);
        assert(decode_output(s[j].1) is Some);
    }
}

/// Where the outputs locked to a hash can be listed, every entry scanned
/// holds an output.
pub proof fn lemma_unlockable_outputs(s: Entries, pkh: Seq<u8>, n: nat)
    requires
        n <= s.len(),
        unlockable(s, pkh, n) is Ok,
    ensures
        forall|i: int| 0 <= i < n ==> decode_output((#[trigger] s[i]).1) is Some,
    decreases n,
{
    if n > 0 {
        lemma_unlockable_outputs(s, pkh, (n - 1) as nat);
    }
}

/// Balances are a matter of what is stored: two keyspaces that hold the
/// same outputs under the same keys give every hash the same balance. So a
/// rebuild of the unspent outputs that stores what was stored changes no
/// balance.
pub proof fn lemma_same_store_same_balance(s: Entries, t: Entries, pkh: Seq<u8>)
    requires
        distinct_keys(s),
        distinct_keys(t),
        to_map(s) == to_map(t),
        unlockable(s, pkh, s.len()) is Ok,
    ensures
        unlockable(t, pkh, t.len()) is Ok,
        total(unlockable(t, pkh, t.len())->Ok_0) == total(unlockable(s, pkh, s.len())->Ok_0),
{
    lemma_unlockable_outputs(s, pkh, s.len());
    assert(all_outputs(s));
    lemma_outputs_by_map(s, t);
    lemma_balance_by_map(s, t, pkh);
    lemma_balance_is_total(s, pkh, s.len());
    lemma_balance_is_total(t, pkh, t.len());
}

/// The unspent outputs of a chain of one block that holds one coinbase
/// give the hash that the coinbase pays the reward as its balance, and
/// every other hash nothing.
pub proof fn lemma_first_block_balance(
    t: Entries,
    g: BlockView,
    coinbase: TransactionView,
    pkh: Seq<u8>,
)
    requires
        distinct_keys(t),
        to_map(t) == crate::blockchain::chain_utxos(seq![g]),
        g.transactions == seq![coinbase],
        is_coinbase(coinbase),
        coinbase.vout.len() == 1,
        coinbase.vout[0].pub_key_hash.len() <= u64::MAX,
    ensures
        unlockable(t, pkh, t.len()) is Ok,
        total(unlockable(t, pkh, t.len())->Ok_0) == if pkh == coinbase.vout[0].pub_key_hash {
            coinbase.vout[0].value as int
        } else {
            0
        },
{
    let one = seq![g];
    let key = output_key(coinbase.id, 0);
    let value = output_bytes(coinbase.vout[0]);
    assert(one.reverse() =~= one);
    crate::blockchain::lemma_scan_one(g);
    let list = seq![coinbase];
    assert(list.drop_last() =~= Seq::<TransactionView>::empty());
    assert(list.last() == coinbase);
    assert(apply_txs(Map::empty(), list.drop_last()) == Map::<Seq<u8>, Seq<u8>>::empty());
    assert(outputs_upto(coinbase, 0) =~= Map::<Seq<u8>, Seq<u8>>::empty());
    assert(created(coinbase) =~= Map::<Seq<u8>, Seq<u8>>::empty().insert(key, value));
    let empty = Seq::<(Seq<u8>, Seq<u8>)>::empty();
    let s = empty.push((key, value));
    lemma_to_map_dom(empty, key);
    lemma_with_entry(empty, key, value);
    assert(with_entry(empty, key, value) == s);
    assert(to_map(s) =~= to_map(t));
    lemma_output_round_trip(coinbase.vout[0]);
    assert(all_outputs(s)) by {
        assert forall|i: int| 0 <= i < s.len() implies decode_output((#[trigger] s[i]).1)
            is Some by {
            assert(s[i] == (key, value));
        }
    }
    lemma_balance_push(empty, key, value, pkh);
    lemma_outputs_by_map(s, t);
    lemma_balance_by_map(s, t, pkh);
    lemma_balance_is_total(t, pkh, t.len());
}

/// What a transfer does to the balances. The unspent outputs `s` become
/// the unspent outputs `t` when the transfer `tx` of `amount` from one
/// wallet to another is applied. Then the balance of the recipient's hash
/// has risen by the amount, that of the sender's hash has fallen by it, and
/// no other balance has changed. This holds where every key of `s` names
/// what it is the key of, and `s` holds nothing yet under the keys of the
/// transfer's own outputs.
pub proof fn lemma_transfer_moves_amount(
    s: Entries,
    t: Entries,
    from: WalletView,
    amount: i32,
    to: WalletView,
    chain: Result<Seq<BlockView>, LedgerError>,
    tx: TransactionView,
    pkh: Seq<u8>,
)
    requires
        distinct_keys(s),
        distinct_keys(t),
        canonical_keys(s),
        transfer_result(from, amount, to, s, chain) == Ok::<TransactionView, LedgerError>(tx),
        forall|i: int|
            0 <= i < tx.vout.len() ==> !to_map(s).contains_key(#[trigger] output_key(tx.id, i)),
        to_map(t) == apply_txs(to_map(s), seq![tx]),
        pub_key_hash(from.public_key).len() <= u64::MAX,
        pub_key_hash(to.public_key).len() <= u64::MAX,
    ensures
        unlockable(s, pkh, s.len()) is Ok,
        unlockable(t, pkh, t.len()) is Ok,
        total(unlockable(t, pkh, t.len())->Ok_0) == total(unlockable(s, pkh, s.len())->Ok_0) + (
        if pkh == pub_key_hash(to.public_key) {
            amount as int
        } else {
            0
        }) - (if pkh == pub_key_hash(from.public_key) {
            amount as int
        } else {
            0
        }),
{
    let from_hash = pub_key_hash(from.public_key);
    let to_hash = pub_key_hash(to.public_key);
    let n = s.len();
    let m = to_map(s);
    let (accum, picks) = spendable(s, from_hash, amount, n)->Ok_0;
    let unsigned = transfer_unsigned(from, amount, to, accum, picks);
    let gone = picked(s, from_hash, amount, n);

    // the transfer is no coinbase, and signing keeps what it spends and pays
    lemma_spendable_picks_indexes(s, from_hash, amount, n);
    lemma_picks_inputs_refer(picks, from.public_key);
    if unsigned.vin.len() == 1 {
        assert(unsigned.vin[0].vout >= 0);
    }
    assert(!is_coinbase(unsigned));
    let prior = crate::blockchain::prior_txs(chain->Ok_0, unsigned);
    assert(tx == sign_result(unsigned, from.private_key, prior)->Ok_0);
    lemma_signing_keeps_the_rest(unsigned, from.private_key, prior);
    assert(tx.vin.len() == unsigned.vin.len());
    assert forall|j: int| 0 <= j < tx.vin.len() implies input_key(#[trigger] tx.vin[j])
        == input_key(unsigned.vin[j]) by {
        let after = sign_result(unsigned, from.private_key, prior)->Ok_0.vin[j];
        assert(after.txid == unsigned.vin[j].txid && after.vout == unsigned.vin[j].vout);
    }
    if tx.vin.len() == 1 {
        let after = sign_result(unsigned, from.private_key, prior)->Ok_0.vin[0];
        assert(after.vout == unsigned.vin[0].vout);
    }
    assert(!is_coinbase(tx));

    // what it consumes is what the scan picked
    lemma_picks_inputs_keys(picks, from.public_key);
    lemma_picked_keys(s, from_hash, amount, n);
    assert(consumed(tx) =~= gone) by {
        assert forall|k: Seq<u8>| consumed(tx).contains(k) implies input_keys(
            unsigned.vin,
        ).contains(k) by {
            let j = choose|j: int|
                0 <= j < tx.vin.len() && j < tx.vin.len() && #[trigger] input_key(tx.vin[j]) == k;
            assert(input_key(unsigned.vin[j]) == k);
        }
        assert forall|k: Seq<u8>| input_keys(unsigned.vin).contains(k) implies consumed(
            tx,
        ).contains(k) by {
            let j = choose|j: int|
                0 <= j < unsigned.vin.len() && #[trigger] input_key(unsigned.vin[j]) == k;
            assert(input_key(tx.vin[j]) == k);
        }
    }

    // the picked entries are entries of `s`, and their amounts sum to `accum`
    lemma_scan_sums(s, from_hash, amount, n, pkh);
    assert(all_outputs(s));
    assert forall|k: Seq<u8>| gone.contains(k) implies m.contains_key(k) by {
        let i = choose|i: int| 0 <= i < n && (#[trigger] s[i]).0 == k;
        lemma_to_map_value(s, i);
    }
    let base = kept(s, gone);
    lemma_kept(s, gone, pkh);
    lemma_kept_outputs(s, gone);

    // the outputs of the transfer come in under fresh keys
    let first = TxOutputView { value: amount, pub_key_hash: to_hash };
    let key0 = output_key(tx.id, 0);
    assert(tx.vout == transfer_outputs(amount, accum, to_hash, from_hash));
    assert(tx.vout[0] == first);
    assert(!m.contains_key(key0));
    lemma_output_round_trip(first);
    lemma_to_map_dom(base, key0);
    lemma_with_entry(base, key0, output_bytes(first));
    let one = base.push((key0, output_bytes(first)));
    assert(with_entry(base, key0, output_bytes(first)) == one);
    lemma_balance_push(base, key0, output_bytes(first), pkh);
    assert(all_outputs(one)) by {
        assert forall|i: int| 0 <= i < one.len() implies decode_output((#[trigger] one[i]).1)
            is Some by {
            if i < base.len() {
                assert(one[i] == base[i]);
            }
        }
    }
    assert(outputs_upto(tx, 1) =~= Map::<Seq<u8>, Seq<u8>>::empty().insert(
        key0,
        output_bytes(first),
    )) by {
        assert(outputs_upto(tx, 0) =~= Map::<Seq<u8>, Seq<u8>>::empty());
    }
    assert(apply_txs(m, seq![tx]) == apply_tx(m, tx)) by {
        let list = seq![tx];
        assert(list.drop_last() =~= Seq::<TransactionView>::empty());
        assert(list.last() == tx);
        assert(apply_txs(m, list.drop_last()) == m);
    }
    if accum > amount {
        let second = TxOutputView { value: (accum - amount) as i32, pub_key_hash: from_hash };
        let key1 = output_key(tx.id, 1);
        assert(tx.vout[1] == second);
        assert(!m.contains_key(key1));
        assert(key0 != key1) by {
            reveal_with_fuel(digits, 2);
            assert(key0.last() == 48u8);
            assert(key1.last() == 49u8);
        }
        lemma_output_round_trip(second);
        lemma_to_map_dom(one, key1);
        lemma_with_entry(one, key1, output_bytes(second));
        let two = one.push((key1, output_bytes(second)));
        assert(with_entry(one, key1, output_bytes(second)) == two);
        lemma_balance_push(one, key1, output_bytes(second), pkh);
        assert(all_outputs(two)) by {
            assert forall|i: int| 0 <= i < two.len() implies decode_output((#[trigger] two[i]).1)
                is Some by {
                if i < one.len() {
                    assert(two[i] == one[i]);
                }
            }
        }
        assert(created(tx) =~= outputs_upto(tx, 1).insert(key1, output_bytes(second)));
        assert(to_map(two) =~= apply_tx(m, tx));
        lemma_balance_by_map(two, t, pkh);
        lemma_outputs_by_map(two, t);
    } else {
        assert(created(tx) =~= outputs_upto(tx, 1));
        assert(to_map(one) =~= apply_tx(m, tx));
        lemma_balance_by_map(one, t, pkh);
        lemma_outputs_by_map(one, t);
    }
    lemma_balance_is_total(s, pkh, n);
    lemma_balance_is_total(t, pkh, t.len());
}

/// Where every entry holds an output, the outputs locked to a hash sum to
/// the balance of the hash.
pub proof fn lemma_balance_is_total(s: Entries, pkh: Seq<u8>, n: nat)
    requires
        all_outputs(s),
        n <= s.len(),
    ensures
        unlockable(s, pkh, n) is Ok,
        total(unlockable(s, pkh, n)->Ok_0) == balance_upto(s, pkh, n),
    decreases n,
{
    if n > 0 {
        lemma_balance_is_total(s, pkh, (n - 1) as nat);
        let found = unlockable(s, pkh, (n - 1) as nat)->Ok_0;
        let o = decode_output(s[n - 1].1)->Some_0;
        assert(decode_output(s[n - 1].1) is Some);
        if o.pub_key_hash == pkh {
            assert(found.push(o).drop_last() =~= found);
        }
    }
}

} // verus!
