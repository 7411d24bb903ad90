use vstd::prelude::*;
use vstd::string::*;
use vstd::utf8::*;
use crate::codec::text_from_utf8;
use crate::transaction::{is_coinbase, TransactionView};
use crate::tx::{output_bytes, TxInputView};

verus! {

/// The unspent outputs as they are stored: the canonical bytes of each
/// output under the key of the output.
pub type Store = Map<Seq<u8>, Seq<u8>>;

/// The byte of the hyphen that parts the transaction id from the index in
/// a key.
pub const HYPHEN: u8 = 0x2d;

/// The byte of the digit zero.
pub const ZERO: u8 = 0x30;

// ---------------------------------------------------------------------------
// Keys
// ---------------------------------------------------------------------------

/// The decimal digits of a natural number, without leading zeros.
pub open spec fn digits(n: nat) -> Seq<u8>
    decreases n,
{
    if n < 10 {
        seq![(ZERO + n) as u8]
    } else {
        digits(n / 10).push((ZERO + n % 10) as u8)
    }
}

/// The decimal text of an integer, with a hyphen before a negative one.
pub open spec fn decimal(n: int) -> Seq<u8> {
    if n < 0 {
        seq![HYPHEN] + digits((-n) as nat)
    } else {
        digits(n as nat)
    }
}

/// The key of output `index` of the transaction `txid`: the id, a hyphen,
/// the index in decimal.
pub open spec fn output_key(txid: Seq<char>, index: int) -> Seq<u8> {
    encode_utf8(txid) + seq![HYPHEN] + decimal(index)
}

/// The key of the output that an input spends.
pub open spec fn input_key(input: TxInputView) -> Seq<u8> {
    output_key(input.txid, input.vout as int)
}

/// The position of the first hyphen from `from` on, or the length where
/// there is none.
pub open spec fn first_hyphen(s: Seq<u8>, from: int) -> int
    decreases s.len() - from,
{
    if from < 0 || from >= s.len() {
        s.len() as int
    } else if s[from] == HYPHEN {
        from
    } else {
        first_hyphen(s, from + 1)
    }
}

/// Every byte is a decimal digit.
pub open spec fn all_digits(s: Seq<u8>) -> bool {
    forall|i: int| 0 <= i < s.len() ==> ZERO <= #[trigger] s[i] <= ZERO + 9
}

/// The number that a string of decimal digits stands for.
pub open spec fn digits_value(s: Seq<u8>) -> nat
    decreases s.len(),
{
    if s.len() == 0 {
        0
    } else {
        (10 * digits_value(s.drop_last()) + (s.last() - ZERO)) as nat
    }
}

/// The transaction id and the output index that a key names: the id is the
/// text before the first hyphen, the index the decimal number between that
/// hyphen and the next one or the end. A key without a hyphen, with an id
/// that is no UTF-8, or with an index that is no number of 31 bits names
/// nothing.
pub open spec fn parse_key(key: Seq<u8>) -> Option<(Seq<char>, i32)> {
    let mark = first_hyphen(key, 0);
    let end = first_hyphen(key, mark + 1);
    let id = key.subrange(0, mark);
    let number = key.subrange(mark + 1, end);
    if mark < key.len() && valid_utf8(id) && number.len() > 0 && all_digits(number)
        && digits_value(number) <= i32::MAX {
        Some((decode_utf8(id), digits_value(number) as i32))
    } else {
        None
    }
}

/// The digits of a number are digits, hold no hyphen, and stand for the
/// number.
pub proof fn lemma_digits(n: nat)
    ensures
        digits(n).len() > 0,
        all_digits(digits(n)),
        digits_value(digits(n)) == n,
    decreases n,
{
    if n < 10 {
        let d = digits(n);
        assert(d.drop_last() =~= Seq::<u8>::empty());
        assert(digits_value(d.drop_last()) == 0);
    } else {
        lemma_digits(n / 10);
        let d = digits(n);
        assert(d.drop_last() =~= digits(n / 10));
        assert(d.last() == (ZERO + n % 10) as u8);
    }
}

/// Where no hyphen stands from `from` up to `to`, the first hyphen from
/// `from` on is the first from `to` on.
pub proof fn lemma_first_hyphen_skips(s: Seq<u8>, from: int, to: int)
    requires
        0 <= from <= to <= s.len(),
        forall|i: int| from <= i < to ==> s[i] != HYPHEN,
    ensures
        first_hyphen(s, from) == first_hyphen(s, to),
    decreases to - from,
{
    if from < to {
        lemma_first_hyphen_skips(s, from + 1, to);
    }
}

/// The key of an output names the output: where the transaction id holds
/// no hyphen and the index is a number of 31 bits, the key reads back as
/// that id and that index.
pub proof fn lemma_key_names_output(txid: Seq<char>, index: int)
    requires
        !encode_utf8(txid).contains(HYPHEN),
        0 <= index <= i32::MAX,
    ensures
        parse_key(output_key(txid, index)) == Some((txid, index as i32)),
{
    let id = encode_utf8(txid);
    let number = digits(index as nat);
    let key = output_key(txid, index);
    let mark = id.len() as int;
    lemma_digits(index as nat);
    assert(key =~= id + seq![HYPHEN] + number);
    assert(key[mark] == HYPHEN);
    assert forall|i: int| 0 <= i < mark implies key[i] != HYPHEN by {
        assert(key[i] == id[i]);
        assert(id.contains(id[i]));
    }
    lemma_first_hyphen_skips(key, 0, mark);
    assert forall|i: int| mark + 1 <= i < key.len() implies key[i] != HYPHEN by {
        assert(key[i] == number[i - mark - 1]);
    }
    lemma_first_hyphen_skips(key, mark + 1, key.len() as int);
    assert(key.subrange(0, mark) =~= id);
    assert(key.subrange(mark + 1, key.len() as int) =~= number);
    encode_utf8_valid_utf8(txid);
    encode_utf8_decode_utf8(txid);
}

/// Bytes below 128 are text: each is the UTF-8 form of one character.
pub proof fn lemma_ascii_bytes_are_text(b: Seq<u8>)
    requires
        forall|i: int| 0 <= i < b.len() ==> #[trigger] b[i] < 128,
    ensures
        valid_utf8(b),
{
    let chars = Seq::new(b.len(), |i: int| b[i] as char);
    assert(is_ascii_chars(chars)) by {
        assert forall|i: int| 0 <= i < chars.len() implies '\0' <= #[trigger] chars[i]
            <= '\u{7f}' by {
            assert(b[i] < 128);
        }
    }
    is_ascii_chars_encode_utf8(chars);
    assert(encode_utf8(chars) =~= b) by {
        assert forall|i: int| 0 <= i < b.len() implies encode_utf8(chars)[i] == b[i] by {
            assert(chars[i] as u8 == encode_utf8(chars)[i]);
            assert(b[i] < 128);
        }
    }
    encode_utf8_valid_utf8(chars);
}

/// The key of an output is text.
pub proof fn lemma_output_key_is_text(txid: Seq<char>, index: int)
    requires
        0 <= index,
    ensures
        valid_utf8(output_key(txid, index)),
{
    lemma_digits(index as nat);
    let mark = seq![HYPHEN];
    let number = digits(index as nat);
    encode_utf8_valid_utf8(txid);
    lemma_ascii_bytes_are_text(mark);
    lemma_ascii_bytes_are_text(number);
    valid_utf8_concat(encode_utf8(txid), mark);
    valid_utf8_concat(encode_utf8(txid) + mark, number);
}

/// Appends the decimal digits of `n`.
pub(crate) fn put_digits(out: &mut Vec<u8>, n: u128)
    ensures
        final(out)@ == old(out)@ + digits(n as nat),
    decreases n,
{
    if n >= 10 {
        put_digits(out, n / 10);
    }
    out.push(ZERO + (n % 10) as u8);
    assert(out@ =~= old(out)@ + digits(n as nat));
}

/// The key of output `index` of the transaction `txid`.
pub fn key_bytes(txid: &str, index: i128) -> (key: Vec<u8>)
    requires
        index > i128::MIN,
    ensures
        key@ == output_key(txid@, index as int),
{
    let mut key = txid.as_bytes_vec();
    key.push(HYPHEN);
    if index < 0 {
        key.push(HYPHEN);
        put_digits(&mut key, (-index) as u128);
    } else {
        put_digits(&mut key, index as u128);
    }
    assert(key@ =~= output_key(txid@, index as int));
    key
}

/// The position of the first hyphen from `from` on.
pub(crate) fn find_hyphen(key: &[u8], from: usize) -> (r: usize)
    requires
        from <= key@.len(),
    ensures
        r == first_hyphen(key@, from as int),
        from <= r <= key@.len(),
{
    let mut i: usize = from;
    while i < key.len()
        invariant
            from <= i <= key@.len(),
            first_hyphen(key@, from as int) == first_hyphen(key@, i as int),
        decreases key@.len() - i,
    {
        if key[i] == HYPHEN {
            return i;
        }
        i += 1;
    }
    i
}

/// A longer string of digits stands for no smaller number.
pub proof fn lemma_digits_value_grows(s: Seq<u8>, k: int)
    requires
        all_digits(s),
        0 <= k <= s.len(),
    ensures
        digits_value(s.subrange(0, k)) <= digits_value(s),
    decreases s.len() - k,
{
    if k < s.len() {
        let longer = s.subrange(0, k + 1);
        assert(longer.drop_last() =~= s.subrange(0, k));
        assert(longer.last() == s[k]);
        lemma_digits_value_grows(s, k + 1);
    } else {
        assert(s.subrange(0, k) =~= s);
    }
}

/// Reads a key back into the transaction id and the output index.
pub fn split_key(key: &[u8]) -> (r: Option<(String, i32)>)
    ensures
        match r {
            Some((txid, index)) => parse_key(key@) == Some((txid@, index)),
            None => parse_key(key@) is None,
        },
{
    let mark = find_hyphen(key, 0);
    if mark >= key.len() {
        return None;
    }
    let end = find_hyphen(key, mark + 1);
    if end == mark + 1 {
        return None;
    }
    let ghost number = key@.subrange(mark + 1, end as int);
    let mut value: u64 = 0;
    let mut i: usize = mark + 1;
    while i < end
        invariant
            mark + 1 <= i <= end <= key@.len(),
            mark == first_hyphen(key@, 0),
            end == first_hyphen(key@, mark + 1),
            number == key@.subrange(mark + 1, end as int),
            all_digits(number.subrange(0, i - (mark + 1))),
            value == digits_value(number.subrange(0, i - (mark + 1))),
            value <= i32::MAX,
        decreases end - i,
    {
        let b = key[i];
        let ghost seen = number.subrange(0, i - (mark + 1));
        let ghost next = number.subrange(0, i + 1 - (mark + 1));
        proof {
            assert(next.drop_last() =~= seen);
            assert(next.last() == b);
        }
        if b < ZERO || b > ZERO + 9 {
            assert(number[i - (mark + 1)] == b);
            return None;
        }
        value = value * 10 + (b - ZERO) as u64;
        if value > i32::MAX as u64 {
            proof {
                if all_digits(number) {
                    lemma_digits_value_grows(number, i + 1 - (mark + 1));
                }
            }
            return None;
        }
        i += 1;
    }
    assert(number.subrange(0, i - (mark + 1)) =~= number);
    let id = vstd::slice::slice_to_vec(vstd::slice::slice_subrange(key, 0, mark));
    match text_from_utf8(id) {
        Some(txid) => Some((txid, value as i32)),
        None => None,
    }
}

// ---------------------------------------------------------------------------
// The unspent outputs of a list of transactions
// ---------------------------------------------------------------------------

/// The first `n` outputs of a transaction under their keys.
pub open spec fn outputs_upto(tx: TransactionView, n: nat) -> Store
    decreases n,
{
    if n == 0 {
        Map::empty()
    } else {
        outputs_upto(tx, (n - 1) as nat).insert(
            output_key(tx.id, n - 1),
            output_bytes(tx.vout[n - 1]),
        )
    }
}

/// The outputs that a transaction creates, under their keys.
pub open spec fn created(tx: TransactionView) -> Store {
    outputs_upto(tx, tx.vout.len())
}

/// The keys that the first `n` inputs of a transaction name.
pub open spec fn inputs_upto(tx: TransactionView, n: nat) -> Set<Seq<u8>> {
    Set::new(|k: Seq<u8>| exists|i: int| 0 <= i < n && i < tx.vin.len() && #[trigger] input_key(tx.vin[i]) == k)
}

/// The keys of the outputs that a transaction consumes; a coinbase
/// consumes nothing.
pub open spec fn consumed(tx: TransactionView) -> Set<Seq<u8>> {
    if is_coinbase(tx) {
        Set::empty()
    } else {
        inputs_upto(tx, tx.vin.len())
    }
}

/// The unspent outputs after a transaction: its outputs are put in, then
/// the outputs that it consumes are taken out.
pub open spec fn apply_tx(m: Store, tx: TransactionView) -> Store {
    m.union_prefer_right(created(tx)).remove_keys(consumed(tx))
}

/// The unspent outputs after a list of transactions, applied in order.
pub open spec fn apply_txs(m: Store, txs: Seq<TransactionView>) -> Store
    decreases txs.len(),
{
    if txs.len() == 0 {
        m
    } else {
        apply_tx(apply_txs(m, txs.drop_last()), txs.last())
    }
}

/// The keys that the transactions of a list consume.
pub open spec fn consumed_by(txs: Seq<TransactionView>) -> Set<Seq<u8>>
    decreases txs.len(),
{
    if txs.len() == 0 {
        Set::empty()
    } else {
        consumed(txs.first()).union(consumed_by(txs.drop_first()))
    }
}

/// The outputs of a list of transactions that no transaction at the same
/// or a later place in the list consumes; of two outputs under one key the
/// later one stands.
pub open spec fn surviving(txs: Seq<TransactionView>) -> Store
    decreases txs.len(),
{
    if txs.len() == 0 {
        Map::empty()
    } else {
        created(txs.first()).remove_keys(consumed_by(txs)).union_prefer_right(
            surviving(txs.drop_first()),
        )
    }
}

/// Applying a list is applying its first transaction and then the rest.
pub proof fn lemma_apply_txs_front(m: Store, txs: Seq<TransactionView>)
    requires
        txs.len() > 0,
    ensures
        apply_txs(m, txs) == apply_txs(apply_tx(m, txs.first()), txs.drop_first()),
    decreases txs.len(),
{
    if txs.len() == 1 {
        assert(txs.drop_last() =~= Seq::<TransactionView>::empty());
        assert(txs.drop_first() =~= Seq::<TransactionView>::empty());
        assert(txs.last() == txs.first());
        assert(apply_txs(m, txs.drop_last()) == m);
    } else {
        let front = txs.drop_last();
        lemma_apply_txs_front(m, front);
        assert(front.first() == txs.first());
        assert(front.drop_first() =~= txs.drop_first().drop_last());
        assert(txs.drop_first().last() == txs.last());
    }
}

/// Applying one list after another is applying the two in a row.
pub proof fn lemma_apply_txs_concat(m: Store, a: Seq<TransactionView>, b: Seq<TransactionView>)
    ensures
        apply_txs(m, a + b) == apply_txs(apply_txs(m, a), b),
    decreases b.len(),
{
    if b.len() == 0 {
        assert(a + b =~= a);
    } else {
        lemma_apply_txs_concat(m, a, b.drop_last());
        assert((a + b).drop_last() =~= a + b.drop_last());
        assert((a + b).last() == b.last());
    }
}

/// Walking a list from its end, with the consumed keys in hand, finds what
/// applying the list from its start leaves: of what was there before, all
/// that the list does not consume; of the list's own outputs, those that
/// survive.
pub proof fn lemma_apply_txs_is_surviving(m: Store, txs: Seq<TransactionView>)
    ensures
        apply_txs(m, txs) == m.remove_keys(consumed_by(txs)).union_prefer_right(surviving(txs)),
    decreases txs.len(),
{
    if txs.len() == 0 {
        assert(m.remove_keys(consumed_by(txs)).union_prefer_right(surviving(txs)) =~= m);
    } else {
        let t = txs.first();
        let rest = txs.drop_first();
        lemma_apply_txs_front(m, txs);
        lemma_apply_txs_is_surviving(apply_tx(m, t), rest);
        assert(apply_tx(m, t).remove_keys(consumed_by(rest)).union_prefer_right(surviving(rest))
            =~= m.remove_keys(consumed_by(txs)).union_prefer_right(surviving(txs)));
    }
}

/// From nothing, applying a list leaves exactly its surviving outputs.
pub proof fn lemma_apply_from_empty(txs: Seq<TransactionView>)
    ensures
        apply_txs(Map::empty(), txs) == surviving(txs),
{
    lemma_apply_txs_is_surviving(Map::empty(), txs);
    assert(Map::<Seq<u8>, Seq<u8>>::empty().remove_keys(consumed_by(txs)).union_prefer_right(
        surviving(txs),
    ) =~= surviving(txs));
}

/// A key among the first `n` outputs of a transaction is the key of one of
/// them, and stands for the last output under that key.
pub proof fn lemma_outputs_upto(tx: TransactionView, n: nat, k: Seq<u8>)
    requires
        n <= tx.vout.len(),
        outputs_upto(tx, n).contains_key(k),
    ensures
        exists|i: int|
            0 <= i < n && #[trigger] output_key(tx.id, i) == k && outputs_upto(tx, n)[k]
                == output_bytes(tx.vout[i]),
    decreases n,
{
    if n > 0 {
        if output_key(tx.id, n - 1) == k {
            assert(output_key(tx.id, n - 1) == k && outputs_upto(tx, n)[k] == output_bytes(
                tx.vout[n - 1],
            ));
        } else {
            lemma_outputs_upto(tx, (n - 1) as nat, k);
            let i = choose|i: int|
                0 <= i < n - 1 && #[trigger] output_key(tx.id, i) == k && outputs_upto(
                    tx,
                    (n - 1) as nat,
                )[k] == output_bytes(tx.vout[i]);
            assert(output_key(tx.id, i) == k);
        }
    }
}

/// A surviving key is consumed by no transaction of the list from the
/// place `j` on, where `j` is a place at or before the one that created it.
pub open spec fn unspent_at(txs: Seq<TransactionView>, j: int, i: int, k: Seq<u8>) -> bool {
    &&& 0 <= j < txs.len()
    &&& 0 <= i < txs[j].vout.len()
    &&& output_key(txs[j].id, i) == k
    &&& surviving(txs)[k] == output_bytes(txs[j].vout[i])
    &&& forall|later: int| j <= later < txs.len() ==> !consumed(#[trigger] txs[later]).contains(k)
}

/// The keys consumed by a list are those consumed by its transactions.
pub proof fn lemma_consumed_by(txs: Seq<TransactionView>, j: int)
    requires
        0 <= j < txs.len(),
    ensures
        consumed(txs[j]).subset_of(consumed_by(txs)),
    decreases txs.len(),
{
    if j > 0 {
        lemma_consumed_by(txs.drop_first(), j - 1);
        assert(txs.drop_first()[j - 1] == txs[j]);
    }
}

/// Every unspent output is an output of a transaction of the list, and no
/// transaction at the same or a later place consumes it.
pub proof fn lemma_surviving_is_unspent(txs: Seq<TransactionView>, k: Seq<u8>)
    requires
        surviving(txs).contains_key(k),
    ensures
        exists|j: int, i: int| unspent_at(txs, j, i, k),
    decreases txs.len(),
{
    let rest = txs.drop_first();
    if surviving(rest).contains_key(k) {
        lemma_surviving_is_unspent(rest, k);
        let (j, i) = choose|j: int, i: int| unspent_at(rest, j, i, k);
        assert forall|later: int| j + 1 <= later < txs.len() implies !consumed(
            #[trigger] txs[later],
        ).contains(k) by {
            assert(txs[later] == rest[later - 1]);
        }
        assert(txs[j + 1] == rest[j]);
        assert(unspent_at(txs, j + 1, i, k));
    } else {
        let t = txs.first();
        assert(created(t).contains_key(k));
        assert(!consumed_by(txs).contains(k));
        lemma_outputs_upto(t, t.vout.len(), k);
        let i = choose|i: int|
            0 <= i < t.vout.len() && #[trigger] output_key(t.id, i) == k && created(t)[k]
                == output_bytes(t.vout[i]);
        assert forall|later: int| 0 <= later < txs.len() implies !consumed(
            #[trigger] txs[later],
        ).contains(k) by {
            lemma_consumed_by(txs, later);
        }
        assert(unspent_at(txs, 0, i, k));
    }
}

} // verus!
