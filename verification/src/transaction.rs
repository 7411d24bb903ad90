use vstd::prelude::*;
use vstd::string::*;
use vstd::utf8::*;
use crate::address;
use crate::codec::{
    get_text, get_u64, holds_at, lemma_holds_at_concat, lemma_holds_at_start, lemma_holds_whole,
    lemma_read_text, lemma_read_u64, lemma_text_was_written, lemma_u64_was_written, put_text,
    put_u64, read_text, read_u64, text_bytes, u64_bytes,
};
use crate::digest::{hashable, sha256, sha256_digest, MAX_MESSAGE_LEN};
use crate::errors::LedgerError;
use crate::hex::{hex, lemma_hex_len, to_hex};
use crate::signature;
use crate::signature::{ed25519_signature, ed25519_verify, PUBLIC_KEY_LEN, SECRET_KEY_LEN, SIGNATURE_LEN};
use crate::system;
use crate::tx::{
    copy_bytes, copy_inputs, copy_outputs, get_inputs, get_outputs, inputs_bytes, inputs_fit,
    inputs_view, lemma_inputs_were_written, lemma_outputs_were_written, lemma_read_inputs,
    lemma_read_outputs, outputs_bytes, outputs_fit, outputs_view,
    put_inputs, put_outputs, read_inputs, read_outputs, TxInput, TxInputView, TxOutput,
    TxOutputView,
};

verus! {

/// The amount that a coinbase transaction mints.
pub const REWARD: i32 = 100;

/// What a transaction is: its id, its inputs and its outputs.
pub struct TransactionView {
    pub id: Seq<char>,
    pub vin: Seq<TxInputView>,
    pub vout: Seq<TxOutputView>,
}

/// A transfer of value: inputs that spend prior outputs, and new outputs.
#[derive(Debug, PartialEq, Eq)]
pub struct Transaction {
    pub id: String,
    pub vin: Vec<TxInput>,
    pub vout: Vec<TxOutput>,
}

impl View for Transaction {
    type V = TransactionView;

    open spec fn view(&self) -> TransactionView {
        TransactionView {
            id: self.id@,
            vin: inputs_view(self.vin@),
            vout: outputs_view(self.vout@),
        }
    }
}

impl Clone for Transaction {
    fn clone(&self) -> (r: Self)
        ensures
            r@ == self@,
    {
        Transaction {
            id: self.id.clone(),
            vin: copy_inputs(&self.vin),
            vout: copy_outputs(&self.vout),
        }
    }
}

/// The transactions of a list, each by its view.
pub open spec fn txs_view(v: Seq<Transaction>) -> Seq<TransactionView> {
    v.map_values(|t: Transaction| t@)
}

/// Copies a list of transactions.
pub(crate) fn copy_txs(v: &Vec<Transaction>) -> (r: Vec<Transaction>)
    ensures
        txs_view(r@) == txs_view(v@),
{
    let mut r: Vec<Transaction> = Vec::new();
    let mut i: usize = 0;
    while i < v.len()
        invariant
            i <= v.len(),
            r@.len() == i,
            forall|j: int| 0 <= j < i ==> r@[j]@ == v@[j]@,
        decreases v.len() - i,
    {
        r.push(v[i].clone());
        i += 1;
    }
    assert(txs_view(r@) =~= txs_view(v@));
    r
}

// ---------------------------------------------------------------------------
// Canonical bytes and the hash over them
// ---------------------------------------------------------------------------

/// A transaction in canonical bytes: `id`, the inputs, the outputs.
pub open spec fn tx_bytes(tx: TransactionView) -> Seq<u8> {
    text_bytes(tx.id) + inputs_bytes(tx.vin) + outputs_bytes(tx.vout)
}

/// Every length in the transaction fits the 64 bits that the layout gives it.
pub open spec fn tx_fits(tx: TransactionView) -> bool {
    &&& encode_utf8(tx.id).len() <= u64::MAX
    &&& inputs_fit(tx.vin)
    &&& outputs_fit(tx.vout)
}

/// Reads a transaction at `pos`.
pub open spec fn read_tx(s: Seq<u8>, pos: int) -> Option<(TransactionView, int)> {
    match read_text(s, pos) {
        Some((id, stop1)) => match read_inputs(s, stop1) {
            Some((vin, stop2)) => match read_outputs(s, stop2) {
                Some((vout, stop3)) => Some((TransactionView { id, vin, vout }, stop3)),
                None => None,
            },
            None => None,
        },
        None => None,
    }
}

/// The transaction that a byte string is the canonical form of, if it is one.
pub open spec fn decode_tx(s: Seq<u8>) -> Option<TransactionView> {
    match read_tx(s, 0) {
        Some((tx, end)) => if end == s.len() {
            Some(tx)
        } else {
            None
        },
        None => None,
    }
}

/// A hash text has the size of a SHA-256 digest in hexadecimal: 64 digits,
/// one byte each.
pub open spec fn hash_sized(hash: Seq<char>) -> bool {
    hash.len() == 64 && encode_utf8(hash).len() == 64
}

/// Every output is locked to a hash of 20 bytes.
pub open spec fn locks_sized(tx: TransactionView) -> bool {
    forall|i: int|
        0 <= i < tx.vout.len() ==> (#[trigger] tx.vout[i]).pub_key_hash.len() == address::BODY_LEN
}

/// Every input carries a signature of 64 bytes.
pub open spec fn signatures_sized(tx: TransactionView) -> bool {
    forall|i: int| 0 <= i < tx.vin.len() ==> (#[trigger] tx.vin[i]).signature.len() == SIGNATURE_LEN
}

/// The hash of a transaction: SHA-256 over its canonical bytes, in
/// lowercase hexadecimal.
pub open spec fn tx_hash(tx: TransactionView) -> Seq<char> {
    hex(sha256(tx_bytes(tx)))
}

/// A transaction that stands at `pos` in canonical bytes is read back as
/// it was.
pub proof fn lemma_read_tx(s: Seq<u8>, pos: int, tx: TransactionView)
    requires
        tx_fits(tx),
        holds_at(s, pos, tx_bytes(tx)),
    ensures
        read_tx(s, pos) == Some((tx, pos + tx_bytes(tx).len())),
{
    let a = text_bytes(tx.id);
    let b = inputs_bytes(tx.vin);
    let c = outputs_bytes(tx.vout);
    lemma_holds_at_concat(s, pos, a + b, c);
    lemma_holds_at_concat(s, pos, a, b);
    lemma_read_text(s, pos, tx.id);
    lemma_read_inputs(s, pos + a.len(), tx.vin);
    lemma_read_outputs(s, pos + a.len() + b.len(), tx.vout);
}

/// A transaction is read only from its canonical bytes.
pub proof fn lemma_tx_was_written(s: Seq<u8>, pos: int)
    requires
        read_tx(s, pos) is Some,
    ensures
        read_tx(s, pos)->Some_0.1 == pos + tx_bytes(read_tx(s, pos)->Some_0.0).len(),
        holds_at(s, pos, tx_bytes(read_tx(s, pos)->Some_0.0)),
        tx_fits(read_tx(s, pos)->Some_0.0),
{
    let tx = read_tx(s, pos)->Some_0.0;
    lemma_text_was_written(s, pos);
    let stop1 = read_text(s, pos)->Some_0.1;
    lemma_inputs_were_written(s, stop1);
    let stop2 = read_inputs(s, stop1)->Some_0.1;
    lemma_outputs_were_written(s, stop2);
    let a = text_bytes(tx.id);
    let b = inputs_bytes(tx.vin);
    let c = outputs_bytes(tx.vout);
    lemma_holds_at_concat(s, pos, a, b);
    lemma_holds_at_concat(s, pos, a + b, c);
}

/// Bytes are read as a transaction exactly when they are the canonical
/// bytes of that transaction.
pub proof fn lemma_tx_bytes_are_canonical(s: Seq<u8>, tx: TransactionView)
    ensures
        decode_tx(s) == Some(tx) <==> s == tx_bytes(tx) && tx_fits(tx),
{
    if decode_tx(s) == Some(tx) {
        lemma_tx_was_written(s, 0);
        lemma_holds_whole(s, tx_bytes(tx));
    }
    if s == tx_bytes(tx) && tx_fits(tx) {
        lemma_tx_round_trip(tx);
    }
}

/// A transaction written in canonical bytes is read back as it was.
pub proof fn lemma_tx_round_trip(tx: TransactionView)
    requires
        tx_fits(tx),
    ensures
        decode_tx(tx_bytes(tx)) == Some(tx),
{
    let s = tx_bytes(tx);
    lemma_holds_at_start(s, Seq::empty());
    assert(s + Seq::<u8>::empty() =~= s);
    lemma_read_tx(s, 0, tx);
}

/// Appends a transaction in canonical bytes.
pub(crate) fn put_tx(out: &mut Vec<u8>, tx: &Transaction)
    ensures
        final(out)@ == old(out)@ + tx_bytes(tx@),
        tx_fits(tx@),
{
    put_text(out, tx.id.as_str());
    put_inputs(out, &tx.vin);
    put_outputs(out, &tx.vout);
    assert(out@ =~= old(out)@ + tx_bytes(tx@));
}

/// Reads a transaction at `pos`.
pub(crate) fn get_tx(buf: &[u8], pos: usize) -> (r: Option<(Transaction, usize)>)
    ensures
        match r {
            Some((tx, next)) => read_tx(buf@, pos as int) == Some((tx@, next as int)),
            None => read_tx(buf@, pos as int) is None,
        },
        r matches Some((_, next)) ==> pos < next <= buf@.len(),
{
    let (id, stop1) = match get_text(buf, pos) {
        Some(x) => x,
        None => return None,
    };
    let (vin, stop2) = match get_inputs(buf, stop1) {
        Some(x) => x,
        None => return None,
    };
    let (vout, stop3) = match get_outputs(buf, stop2) {
        Some(x) => x,
        None => return None,
    };
    Some((Transaction { id, vin, vout }, stop3))
}

/// The transactions of a list in canonical bytes, one after the other.
pub open spec fn txs_body(s: Seq<TransactionView>) -> Seq<u8>
    decreases s.len(),
{
    if s.len() == 0 {
        Seq::empty()
    } else {
        txs_body(s.drop_last()) + tx_bytes(s.last())
    }
}

/// A list of transactions in canonical bytes: the count, then the
/// transactions.
pub open spec fn txs_bytes(s: Seq<TransactionView>) -> Seq<u8> {
    u64_bytes(s.len() as u64) + txs_body(s)
}

/// The count and every length in a list of transactions fit their 64
/// bits.
pub open spec fn txs_fit(s: Seq<TransactionView>) -> bool {
    &&& s.len() <= u64::MAX
    &&& forall|k: int| 0 <= k < s.len() ==> tx_fits(#[trigger] s[k])
}

/// Reads `n` transactions from `pos` on.
pub open spec fn read_txs_n(s: Seq<u8>, pos: int, n: nat) -> Option<(Seq<TransactionView>, int)>
    decreases n,
{
    if n == 0 {
        Some((Seq::empty(), pos))
    } else {
        match read_txs_n(s, pos, (n - 1) as nat) {
            Some((items, p)) => match read_tx(s, p) {
                Some((item, next)) => Some((items.push(item), next)),
                None => None,
            },
            None => None,
        }
    }
}

/// Reads a counted list of transactions at `pos`.
pub open spec fn read_txs(s: Seq<u8>, pos: int) -> Option<(Seq<TransactionView>, int)> {
    match read_u64(s, pos) {
        Some((n, p)) => read_txs_n(s, p, n as nat),
        None => None,
    }
}

/// Transactions that stand one after the other from `pos` on are read
/// back as they were.
pub proof fn lemma_read_txs_n(s: Seq<u8>, pos: int, items: Seq<TransactionView>)
    requires
        txs_fit(items),
        holds_at(s, pos, txs_body(items)),
    ensures
        read_txs_n(s, pos, items.len()) == Some((items, pos + txs_body(items).len())),
    decreases items.len(),
{
    if items.len() > 0 {
        let front = items.drop_last();
        lemma_holds_at_concat(s, pos, txs_body(front), tx_bytes(items.last()));
        lemma_read_txs_n(s, pos, front);
        lemma_read_tx(s, pos + txs_body(front).len(), items.last());
        assert(front.push(items.last()) =~= items);
    }
}

/// A counted list of transactions that stands at `pos` is read back as it
/// was.
pub proof fn lemma_read_txs(s: Seq<u8>, pos: int, items: Seq<TransactionView>)
    requires
        txs_fit(items),
        holds_at(s, pos, txs_bytes(items)),
    ensures
        read_txs(s, pos) == Some((items, pos + txs_bytes(items).len())),
{
    lemma_holds_at_concat(s, pos, u64_bytes(items.len() as u64), txs_body(items));
    lemma_read_u64(s, pos, items.len() as u64);
    lemma_read_txs_n(s, pos + 8, items);
}

/// Transactions are read one after the other only from their canonical
/// bytes.
pub proof fn lemma_txs_n_were_written(s: Seq<u8>, pos: int, n: nat)
    requires
        0 <= pos <= s.len(),
        read_txs_n(s, pos, n) is Some,
    ensures
        read_txs_n(s, pos, n)->Some_0.0.len() == n,
        read_txs_n(s, pos, n)->Some_0.1 == pos + txs_body(read_txs_n(s, pos, n)->Some_0.0).len(),
        holds_at(s, pos, txs_body(read_txs_n(s, pos, n)->Some_0.0)),
        forall|k: int| 0 <= k < n ==> tx_fits(#[trigger] read_txs_n(s, pos, n)->Some_0.0[k]),
    decreases n,
{
    if n > 0 {
        let (front, mid) = read_txs_n(s, pos, (n - 1) as nat)->Some_0;
        lemma_txs_n_were_written(s, pos, (n - 1) as nat);
        lemma_tx_was_written(s, mid);
        let item = read_tx(s, mid)->Some_0.0;
        let all = front.push(item);
        assert(all.drop_last() =~= front);
        lemma_holds_at_concat(s, pos, txs_body(front), tx_bytes(item));
    } else {
        assert(s.subrange(pos, pos) =~= Seq::<u8>::empty());
    }
}

/// A counted list of transactions is read only from its canonical bytes.
pub proof fn lemma_txs_were_written(s: Seq<u8>, pos: int)
    requires
        read_txs(s, pos) is Some,
    ensures
        read_txs(s, pos)->Some_0.1 == pos + txs_bytes(read_txs(s, pos)->Some_0.0).len(),
        holds_at(s, pos, txs_bytes(read_txs(s, pos)->Some_0.0)),
        txs_fit(read_txs(s, pos)->Some_0.0),
{
    lemma_u64_was_written(s, pos);
    let n = read_u64(s, pos)->Some_0.0;
    lemma_txs_n_were_written(s, pos + 8, n as nat);
    let items = read_txs(s, pos)->Some_0.0;
    lemma_holds_at_concat(s, pos, u64_bytes(n), txs_body(items));
}

/// Once a read of a list has failed, reading more of it fails too.
pub proof fn lemma_read_txs_n_fails(s: Seq<u8>, pos: int, k: nat, n: nat)
    requires
        k <= n,
        read_txs_n(s, pos, k) is None,
    ensures
        read_txs_n(s, pos, n) is None,
    decreases n,
{
    if k < n {
        lemma_read_txs_n_fails(s, pos, k, (n - 1) as nat);
    }
}

/// Appends a counted list of transactions.
pub(crate) fn put_txs(out: &mut Vec<u8>, v: &Vec<Transaction>)
    ensures
        final(out)@ == old(out)@ + txs_bytes(txs_view(v@)),
        txs_fit(txs_view(v@)),
{
    let ghost items = txs_view(v@);
    put_u64(out, v.len() as u64);
    let ghost head = out@;
    let mut i: usize = 0;
    while i < v.len()
        invariant
            i <= v.len(),
            items == txs_view(v@),
            out@ == head + txs_body(items.subrange(0, i as int)),
            forall|k: int| 0 <= k < i ==> tx_fits(#[trigger] items[k]),
        decreases v.len() - i,
    {
        put_tx(out, &v[i]);
        proof {
            let next = items.subrange(0, i + 1);
            assert(next.drop_last() =~= items.subrange(0, i as int));
            assert(next.last() == v@[i as int]@);
            assert(out@ =~= head + txs_body(next));
        }
        i += 1;
    }
    assert(items.subrange(0, i as int) =~= items);
    assert(out@ =~= old(out)@ + txs_bytes(items));
}

/// Reads a counted list of transactions at `pos`.
pub(crate) fn get_txs(buf: &[u8], pos: usize) -> (r: Option<(Vec<Transaction>, usize)>)
    ensures
        match r {
            Some((v, next)) => read_txs(buf@, pos as int) == Some((txs_view(v@), next as int)),
            None => read_txs(buf@, pos as int) is None,
        },
        r matches Some((_, next)) ==> pos < next <= buf@.len(),
{
    let (n, start) = match get_u64(buf, pos) {
        Some(x) => x,
        None => return None,
    };
    let mut v: Vec<Transaction> = Vec::new();
    let mut cur = start;
    let mut i: u64 = 0;
    while i < n
        invariant
            i <= n,
            start <= cur <= buf@.len(),
            pos < start,
            read_u64(buf@, pos as int) == Some((n, start as int)),
            read_txs_n(buf@, start as int, i as nat) == Some((txs_view(v@), cur as int)),
        decreases n - i,
    {
        match get_tx(buf, cur) {
            None => {
                proof {
                    let k = (i + 1) as nat;
                    assert(read_txs_n(buf@, start as int, (k - 1) as nat) is Some);
                    assert(read_txs_n(buf@, start as int, k) is None);
                    lemma_read_txs_n_fails(buf@, start as int, k, n as nat);
                }
                return None;
            },
            Some((item, next)) => {
                proof {
                    assert(txs_view(v@).push(item@) =~= txs_view(v@.push(item)));
                }
                v.push(item);
                cur = next;
            },
        }
        i += 1;
    }
    Some((v, cur))
}

// ---------------------------------------------------------------------------
// Coinbase
// ---------------------------------------------------------------------------

/// A transaction is coinbase when its only input refers to nothing.
pub open spec fn is_coinbase(tx: TransactionView) -> bool {
    tx.vin.len() == 1 && tx.vin[0].txid.len() == 0 && tx.vin[0].vout == -1
}

/// The memo that a coinbase carries: the one given, or a note that names
/// the recipient where none is given.
pub open spec fn coinbase_memo(to: Seq<char>, memo: Seq<char>) -> Seq<char> {
    if memo.len() == 0 {
        "Reward to '"@ + to + "'"@
    } else {
        memo
    }
}

/// The coinbase that pays the reward to the hash `body`, before its id is
/// set: one input that refers to nothing and carries the memo and the salt,
/// one output.
pub open spec fn coinbase_draft(body: Seq<u8>, memo: Seq<char>, salt: Seq<u8>) -> TransactionView {
    TransactionView {
        id: Seq::empty(),
        vin: seq![
            TxInputView {
                txid: Seq::empty(),
                vout: -1i32,
                signature: Seq::empty(),
                pub_key: encode_utf8(memo) + salt,
            },
        ],
        vout: seq![TxOutputView { value: REWARD, pub_key_hash: body }],
    }
}

/// The draft with its id: the hash of the draft.
pub open spec fn coinbase_tx(body: Seq<u8>, memo: Seq<char>, salt: Seq<u8>) -> TransactionView {
    TransactionView { id: tx_hash(coinbase_draft(body, memo, salt)), ..coinbase_draft(body, memo, salt) }
}

/// What building a coinbase for the address `to` gives.
pub open spec fn coinbase_result(to: Seq<char>, memo: Seq<char>, salt: Seq<u8>) -> Result<
    TransactionView,
    LedgerError,
> {
    match address::decoded_body(to) {
        None => Err(LedgerError::AddressDecode),
        Some(body) => {
            let draft = coinbase_draft(body, coinbase_memo(to, memo), salt);
            if hashable(tx_bytes(draft).len()) {
                Ok(coinbase_tx(body, coinbase_memo(to, memo), salt))
            } else {
                Err(LedgerError::SerializationFailure)
            }
        },
    }
}

// ---------------------------------------------------------------------------
// Signing and verification
// ---------------------------------------------------------------------------

/// The copy that is hashed for signing: no input carries a signature or a
/// public key.
pub open spec fn trimmed(tx: TransactionView) -> TransactionView {
    TransactionView { id: tx.id, vin: tx.vin.map_values(|i: TxInputView| bare(i)), vout: tx.vout }
}

/// An input without signature and public key.
pub open spec fn bare(i: TxInputView) -> TxInputView {
    TxInputView { txid: i.txid, vout: i.vout, signature: Seq::empty(), pub_key: Seq::empty() }
}

/// The supplied prior transaction with the given id: the last one in the
/// list, where several carry it.
pub open spec fn find_prev(prev: Seq<TransactionView>, txid: Seq<char>) -> Option<TransactionView>
    decreases prev.len(),
{
    if prev.len() == 0 {
        None
    } else if prev.last().id == txid {
        Some(prev.last())
    } else {
        find_prev(prev.drop_last(), txid)
    }
}

/// The prior output that an input spends, where the prior transaction is
/// supplied, is not empty and has that output.
pub open spec fn spent_output(prev: Seq<TransactionView>, input: TxInputView) -> Option<
    TxOutputView,
> {
    match find_prev(prev, input.txid) {
        Some(p) => if p.id.len() > 0 && 0 <= input.vout < p.vout.len() {
            Some(p.vout[input.vout as int])
        } else {
            None
        },
        None => None,
    }
}

/// Every input of the transaction spends a supplied prior output.
pub open spec fn refs_resolved(tx: TransactionView, prev: Seq<TransactionView>) -> bool {
    forall|i: int| 0 <= i < tx.vin.len() ==> spent_output(prev, #[trigger] tx.vin[i]) is Some
}

/// The trimmed copy as it is hashed for input `i`: it carries the id `id`,
/// and input `i` carries, in place of a public key, the hash that locks the
/// output it spends.
pub open spec fn signing_form(
    tx: TransactionView,
    prev: Seq<TransactionView>,
    id: Seq<char>,
    i: int,
) -> TransactionView {
    TransactionView {
        id,
        vin: trimmed(tx).vin.update(
            i,
            TxInputView {
                pub_key: spent_output(prev, tx.vin[i]).unwrap().pub_key_hash,
                ..bare(tx.vin[i])
            },
        ),
        vout: tx.vout,
    }
}

/// The id that the trimmed copy carries after `i` inputs have been
/// processed: the transaction's own id at first, then the hash of the form
/// of the input processed last. The id after input `i` is what is signed
/// for input `i`.
pub open spec fn signing_id(tx: TransactionView, prev: Seq<TransactionView>, i: nat) -> Seq<char>
    decreases i,
{
    if i == 0 {
        tx.id
    } else {
        tx_hash(signing_form(tx, prev, signing_id(tx, prev, (i - 1) as nat), i - 1))
    }
}

/// The form of input `i` can be hashed.
pub open spec fn form_hashable(tx: TransactionView, prev: Seq<TransactionView>, i: int) -> bool {
    hashable(tx_bytes(signing_form(tx, prev, signing_id(tx, prev, i as nat), i)).len())
}

/// The form of every input can be hashed.
pub open spec fn signable(tx: TransactionView, prev: Seq<TransactionView>) -> bool {
    forall|i: int| 0 <= i < tx.vin.len() ==> #[trigger] form_hashable(tx, prev, i)
}

/// The message that is signed for input `i`: the bytes of its signing id.
pub open spec fn signing_message(tx: TransactionView, prev: Seq<TransactionView>, i: int) -> Seq<u8> {
    encode_utf8(signing_id(tx, prev, (i + 1) as nat))
}

/// The transaction with every input signed under `secret_key`.
pub open spec fn signed(
    tx: TransactionView,
    secret_key: Seq<u8>,
    prev: Seq<TransactionView>,
) -> TransactionView {
    TransactionView {
        id: tx.id,
        vin: Seq::new(
            tx.vin.len(),
            |i: int|
                TxInputView {
                    signature: ed25519_signature(signing_message(tx, prev, i), secret_key),
                    ..tx.vin[i]
                },
        ),
        vout: tx.vout,
    }
}

/// What signing gives: the signed transaction, or why there is none.
pub open spec fn sign_result(
    tx: TransactionView,
    secret_key: Seq<u8>,
    prev: Seq<TransactionView>,
) -> Result<TransactionView, LedgerError> {
    if is_coinbase(tx) {
        Ok(tx)
    } else if secret_key.len() != SECRET_KEY_LEN {
        Err(LedgerError::InvalidKey)
    } else if !refs_resolved(tx, prev) {
        Err(LedgerError::MissingPrevTx)
    } else if !signable(tx, prev) {
        Err(LedgerError::SerializationFailure)
    } else {
        Ok(signed(tx, secret_key, prev))
    }
}

/// The signature on input `i` has the right sizes and holds for the
/// message of that input under the input's public key.
pub open spec fn input_verifies(tx: TransactionView, prev: Seq<TransactionView>, i: int) -> bool {
    &&& tx.vin[i].pub_key.len() == PUBLIC_KEY_LEN
    &&& tx.vin[i].signature.len() == SIGNATURE_LEN
    &&& ed25519_verify(signing_message(tx, prev, i), tx.vin[i].pub_key, tx.vin[i].signature)
}

/// The verdict on the inputs from `i` on, taken in order: the first input
/// whose form cannot be hashed ends it with an error, the first whose
/// signature does not hold ends it with `false`.
pub open spec fn verify_from(tx: TransactionView, prev: Seq<TransactionView>, i: nat) -> Result<
    bool,
    LedgerError,
>
    decreases tx.vin.len() - i,
{
    if i >= tx.vin.len() {
        Ok(true)
    } else if !form_hashable(tx, prev, i as int) {
        Err(LedgerError::SerializationFailure)
    } else if !input_verifies(tx, prev, i as int) {
        Ok(false)
    } else {
        verify_from(tx, prev, i + 1)
    }
}

/// The verdict on a transaction against the supplied prior transactions.
pub open spec fn verify_result(tx: TransactionView, prev: Seq<TransactionView>) -> Result<
    bool,
    LedgerError,
> {
    if is_coinbase(tx) {
        Ok(true)
    } else if !refs_resolved(tx, prev) {
        Err(LedgerError::MissingPrevTx)
    } else {
        verify_from(tx, prev, 0)
    }
}

/// Of two lists of prior transactions in a row, the second decides where
/// it holds the id; else the first.
pub proof fn lemma_find_prev_concat(
    first: Seq<TransactionView>,
    second: Seq<TransactionView>,
    txid: Seq<char>,
)
    ensures
        find_prev(first + second, txid) == if find_prev(second, txid) is Some {
            find_prev(second, txid)
        } else {
            find_prev(first, txid)
        },
    decreases second.len(),
{
    if second.len() == 0 {
        assert(first + second =~= first);
    } else {
        assert((first + second).drop_last() =~= first + second.drop_last());
        assert((first + second).last() == second.last());
        lemma_find_prev_concat(first, second.drop_last(), txid);
    }
}

/// The ids that are signed depend on the prior transactions only through
/// the outputs that the inputs spend.
pub proof fn lemma_signing_id_by_spent(
    tx: TransactionView,
    prev1: Seq<TransactionView>,
    prev2: Seq<TransactionView>,
    i: nat,
)
    requires
        i <= tx.vin.len(),
        forall|k: int|
            0 <= k < tx.vin.len() ==> spent_output(prev1, #[trigger] tx.vin[k]) == spent_output(
                prev2,
                tx.vin[k],
            ),
    ensures
        signing_id(tx, prev1, i) == signing_id(tx, prev2, i),
    decreases i,
{
    if i > 0 {
        lemma_signing_id_by_spent(tx, prev1, prev2, (i - 1) as nat);
        assert(spent_output(prev1, tx.vin[i - 1]) == spent_output(prev2, tx.vin[i - 1]));
    }
}

/// The verdict on the inputs from `i` on depends on the prior transactions
/// only through the outputs that the inputs spend.
pub proof fn lemma_verify_from_by_spent(
    tx: TransactionView,
    prev1: Seq<TransactionView>,
    prev2: Seq<TransactionView>,
    i: nat,
)
    requires
        forall|k: int|
            0 <= k < tx.vin.len() ==> spent_output(prev1, #[trigger] tx.vin[k]) == spent_output(
                prev2,
                tx.vin[k],
            ),
    ensures
        verify_from(tx, prev1, i) == verify_from(tx, prev2, i),
    decreases tx.vin.len() - i,
{
    if i < tx.vin.len() {
        lemma_signing_id_by_spent(tx, prev1, prev2, i);
        lemma_signing_id_by_spent(tx, prev1, prev2, i + 1);
        assert(spent_output(prev1, tx.vin[i as int]) == spent_output(prev2, tx.vin[i as int]));
        lemma_verify_from_by_spent(tx, prev1, prev2, i + 1);
    }
}

/// The verdict on a transaction depends on the prior transactions only
/// through the outputs that its inputs spend.
pub proof fn lemma_verdict_by_spent(
    tx: TransactionView,
    prev1: Seq<TransactionView>,
    prev2: Seq<TransactionView>,
)
    requires
        forall|k: int|
            0 <= k < tx.vin.len() ==> spent_output(prev1, #[trigger] tx.vin[k]) == spent_output(
                prev2,
                tx.vin[k],
            ),
    ensures
        verify_result(tx, prev1) == verify_result(tx, prev2),
{
    lemma_verify_from_by_spent(tx, prev1, prev2, 0);
    if refs_resolved(tx, prev1) {
        assert forall|k: int| 0 <= k < tx.vin.len() implies spent_output(
            prev2,
            #[trigger] tx.vin[k],
        ) is Some by {
            assert(spent_output(prev1, tx.vin[k]) is Some);
        }
    }
    if refs_resolved(tx, prev2) {
        assert forall|k: int| 0 <= k < tx.vin.len() implies spent_output(
            prev1,
            #[trigger] tx.vin[k],
        ) is Some by {
            assert(spent_output(prev2, tx.vin[k]) is Some);
        }
    }
}

/// A coinbase needs no signature: it verifies against any prior
/// transactions, and signing leaves it as it is.
pub proof fn lemma_coinbase_verifies(
    tx: TransactionView,
    secret_key: Seq<u8>,
    prev: Seq<TransactionView>,
)
    requires
        is_coinbase(tx),
    ensures
        verify_result(tx, prev) == Ok::<bool, LedgerError>(true),
        sign_result(tx, secret_key, prev) == Ok::<TransactionView, LedgerError>(tx),
{
}

/// Signing changes nothing but the signatures: the id, the outputs, and
/// of each input the output it spends and the public key stay.
pub proof fn lemma_signing_keeps_the_rest(
    tx: TransactionView,
    secret_key: Seq<u8>,
    prev: Seq<TransactionView>,
)
    requires
        sign_result(tx, secret_key, prev) is Ok,
    ensures
        sign_result(tx, secret_key, prev)->Ok_0.id == tx.id,
        sign_result(tx, secret_key, prev)->Ok_0.vout == tx.vout,
        sign_result(tx, secret_key, prev)->Ok_0.vin.len() == tx.vin.len(),
        forall|i: int|
            0 <= i < tx.vin.len() ==> {
                let after = #[trigger] sign_result(tx, secret_key, prev)->Ok_0.vin[i];
                after.txid == tx.vin[i].txid && after.vout == tx.vin[i].vout && after.pub_key
                    == tx.vin[i].pub_key
            },
{
}

/// The index of the last transaction of `prev` with the given id.
fn find_prev_index(prev: &Vec<Transaction>, txid: &String) -> (r: Option<usize>)
    ensures
        match r {
            Some(k) => k < prev@.len() && find_prev(txs_view(prev@), txid@) == Some(prev@[k as int]@),
            None => find_prev(txs_view(prev@), txid@) is None,
        },
{
    let ghost all = txs_view(prev@);
    let mut k: usize = prev.len();
    assert(all.subrange(0, k as int) =~= all);
    while k > 0
        invariant
            k <= prev@.len(),
            all == txs_view(prev@),
            find_prev(all, txid@) == find_prev(all.subrange(0, k as int), txid@),
        decreases k,
    {
        let ghost head = all.subrange(0, k as int);
        assert(head.last() == prev@[k - 1]@);
        assert(head.drop_last() =~= all.subrange(0, k - 1));
        if prev[k - 1].id == *txid {
            return Some(k - 1);
        }
        k -= 1;
    }
    None
}

/// The hash that locks the output that `input` spends.
fn spent_key_hash(prev: &Vec<Transaction>, input: &TxInput) -> (r: Option<Vec<u8>>)
    ensures
        match r {
            Some(h) => spent_output(txs_view(prev@), input@) is Some && h@ == spent_output(
                txs_view(prev@),
                input@,
            ).unwrap().pub_key_hash,
            None => spent_output(txs_view(prev@), input@) is None,
        },
{
    match find_prev_index(prev, &input.txid) {
        None => None,
        Some(k) => {
            let p = &prev[k];
            if p.id.as_str().is_empty() || input.vout < 0 || input.vout as usize >= p.vout.len() {
                None
            } else {
                Some(copy_bytes(&p.vout[input.vout as usize].pub_key_hash))
            }
        },
    }
}

impl Transaction {
    /// The transaction in canonical bytes.
    pub fn to_bytes(&self) -> (bytes: Vec<u8>)
        ensures
            bytes@ == tx_bytes(self@),
            tx_fits(self@),
    {
        let mut bytes: Vec<u8> = Vec::new();
        put_tx(&mut bytes, self);
        assert(bytes@ =~= tx_bytes(self@));
        bytes
    }

    /// Reads a transaction from its canonical bytes; anything else is
    /// refused.
    pub fn from_bytes(bytes: &[u8]) -> (r: Option<Self>)
        ensures
            match r {
                Some(tx) => decode_tx(bytes@) == Some(tx@),
                None => decode_tx(bytes@) is None,
            },
    {
        match get_tx(bytes, 0) {
            Some((tx, end)) => if end == bytes.len() {
                Some(tx)
            } else {
                None
            },
            None => None,
        }
    }

    /// The hash of the transaction as it stands, signatures and public keys
    /// included. Bytes beyond what the hash engine counts are refused.
    pub fn hash(&self) -> (r: Result<String, LedgerError>)
        ensures
            match r {
                Ok(h) => hashable(tx_bytes(self@).len()) && h@ == tx_hash(self@) && hash_sized(h@),
                Err(e) => !hashable(tx_bytes(self@).len()) && e
                    == LedgerError::SerializationFailure,
            },
    {
        let bytes = self.to_bytes();
        if bytes.len() as u64 >= MAX_MESSAGE_LEN {
            return Err(LedgerError::SerializationFailure);
        }
        let digest = sha256_digest(bytes.as_slice());
        proof {
            lemma_hex_len(digest@);
        }
        Ok(to_hex(digest.as_slice()))
    }

    /// Whether the transaction mints coins: its only input refers to nothing.
    pub fn is_coinbase(&self) -> (r: bool)
        ensures
            r == is_coinbase(self@),
    {
        self.vin.len() == 1 && self.vin[0].txid.as_str().is_empty() && self.vin[0].vout == -1
    }

    /// The copy that is hashed for signing.
    pub fn trim_copy(&self) -> (r: Transaction)
        ensures
            r@ == trimmed(self@),
            r.vin@.len() == self.vin@.len(),
    {
        let mut vin: Vec<TxInput> = Vec::new();
        let mut i: usize = 0;
        while i < self.vin.len()
            invariant
                i <= self.vin.len(),
                vin@.len() == i,
                forall|j: int| 0 <= j < i ==> vin@[j]@ == bare(self.vin@[j]@),
            decreases self.vin.len() - i,
        {
            let item = &self.vin[i];
            vin.push(
                TxInput {
                    txid: item.txid.clone(),
                    vout: item.vout,
                    signature: Vec::new(),
                    pub_key: Vec::new(),
                },
            );
            i += 1;
        }
        let r = Transaction { id: self.id.clone(), vin, vout: copy_outputs(&self.vout) };
        assert(r@.vin =~= trimmed(self@).vin);
        r
    }

    /// The coinbase that pays the reward to the address `to`, with `salt`
    /// behind the memo in its input. An empty memo is replaced by a note
    /// that names the recipient.
    pub fn coinbase(to: String, memo: String, salt: &[u8]) -> (r: Result<Transaction, LedgerError>)
        ensures
            match r {
                Ok(tx) => coinbase_result(to@, memo@, salt@) == Ok::<TransactionView, LedgerError>(
                    tx@,
                ) && hash_sized(tx@.id) && locks_sized(tx@),
                Err(e) => coinbase_result(to@, memo@, salt@) == Err::<
                    TransactionView,
                    LedgerError,
                >(e),
            },
    {
        let note = if memo.as_str().is_empty() {
            let mut note = String::from_str("Reward to '");
            note.append(to.as_str());
            note.append("'");
            note
        } else {
            memo
        };
        let mut pub_key = note.as_str().as_bytes_vec();
        let mut tail = vstd::slice::slice_to_vec(salt);
        pub_key.append(&mut tail);
        let output = match TxOutput::new(REWARD, to) {
            Ok(o) => o,
            Err(e) => return Err(e),
        };
        let mut vin: Vec<TxInput> = Vec::new();
        vin.push(TxInput { txid: String::new(), vout: -1, signature: Vec::new(), pub_key });
        let mut vout: Vec<TxOutput> = Vec::new();
        vout.push(output);
        let mut tx = Transaction { id: String::new(), vin, vout };
        proof {
            let body = address::decoded_body(to@).unwrap();
            assert(tx@.vin =~= coinbase_draft(body, coinbase_memo(to@, memo@), salt@).vin);
            assert(tx@.vout =~= coinbase_draft(body, coinbase_memo(to@, memo@), salt@).vout);
        }
        match tx.hash() {
            Ok(id) => {
                tx.id = id;
                Ok(tx)
            },
            Err(e) => Err(e),
        }
    }

    /// A coinbase that pays the reward to the address `to`, made unique by
    /// 32 fresh random bytes. Whatever the bytes are, the result is the
    /// coinbase built from them.
    pub fn new_coinbase(to: String, data: String) -> (r: Result<Transaction, LedgerError>)
        ensures
            match r {
                Ok(tx) => exists|salt: Seq<u8>|
                    salt.len() == 32 && #[trigger] coinbase_result(to@, data@, salt) == Ok::<
                        TransactionView,
                        LedgerError,
                    >(tx@),
                Err(e) => e == LedgerError::EntropyUnavailable || exists|salt: Seq<u8>|
                    salt.len() == 32 && #[trigger] coinbase_result(to@, data@, salt) == Err::<
                        TransactionView,
                        LedgerError,
                    >(e),
            },
    {
        match system::random_seed() {
            None => Err(LedgerError::EntropyUnavailable),
            Some(salt) => Transaction::coinbase(to, data, salt.as_slice()),
        }
    }

    /// Gives the trimmed copy the id that is signed for input `idx`: the
    /// input carries the hash that locks the output it spends while the
    /// copy is hashed, and nothing afterwards.
    fn rehash_for_input(
        copy: &mut Transaction,
        input: &TxInput,
        idx: usize,
        prev_tx: &Vec<Transaction>,
        Ghost(tx): Ghost<TransactionView>,
    ) -> (r: Result<(), LedgerError>)
        requires
            idx < tx.vin.len(),
            input@ == tx.vin[idx as int],
            old(copy).vin@.len() == tx.vin.len(),
            old(copy)@.vin == trimmed(tx).vin,
            old(copy)@.vout == tx.vout,
            old(copy)@.id == signing_id(tx, txs_view(prev_tx@), idx as nat),
        ensures
            match r {
                Ok(()) => {
                    &&& spent_output(txs_view(prev_tx@), tx.vin[idx as int]) is Some
                    &&& form_hashable(tx, txs_view(prev_tx@), idx as int)
                    &&& final(copy).vin@.len() == tx.vin.len()
                    &&& final(copy)@.vin == trimmed(tx).vin
                    &&& final(copy)@.vout == tx.vout
                    &&& final(copy)@.id == signing_id(tx, txs_view(prev_tx@), (idx + 1) as nat)
                    &&& hash_sized(final(copy)@.id)
                },
                Err(e) => if spent_output(txs_view(prev_tx@), tx.vin[idx as int]) is None {
                    e == LedgerError::MissingPrevTx
                } else {
                    e == LedgerError::SerializationFailure && !form_hashable(
                        tx,
                        txs_view(prev_tx@),
                        idx as int,
                    )
                },
            },
    {
        let ghost prev = txs_view(prev_tx@);
        let key_hash = match spent_key_hash(prev_tx, input) {
            Some(h) => h,
            None => {
                return Err(LedgerError::MissingPrevTx);
            },
        };
        let txid = input.txid.clone();
        let vout = input.vout;
        copy.vin.set(idx, TxInput { txid, vout, signature: Vec::new(), pub_key: key_hash });
        proof {
            assert(copy@.vin =~= signing_form(
                tx,
                prev,
                signing_id(tx, prev, idx as nat),
                idx as int,
            ).vin);
            assert(copy@ == signing_form(tx, prev, signing_id(tx, prev, idx as nat), idx as int));
        }
        match copy.hash() {
            Ok(id) => {
                copy.id = id;
            },
            Err(e) => {
                return Err(e);
            },
        }
        let txid = input.txid.clone();
        copy.vin.set(idx, TxInput { txid, vout, signature: Vec::new(), pub_key: Vec::new() });
        assert(copy@.vin =~= trimmed(tx).vin);
        Ok(())
    }

    /// Signs every input with `private_key`. Each input is signed over the
    /// id that the trimmed copy gets when that input carries the hash that
    /// locks the output it spends; each signature has 64 bytes. A coinbase
    /// is left as it is. Where signing fails, the transaction is unchanged.
    pub fn sign(&mut self, private_key: &[u8], prev_tx: &Vec<Transaction>) -> (r: Result<
        (),
        LedgerError,
    >)
        ensures
            match r {
                Ok(()) => sign_result(old(self)@, private_key@, txs_view(prev_tx@)) == Ok::<
                    TransactionView,
                    LedgerError,
                >(final(self)@) && (!is_coinbase(old(self)@) ==> signatures_sized(final(self)@)),
                Err(e) => sign_result(old(self)@, private_key@, txs_view(prev_tx@)) == Err::<
                    TransactionView,
                    LedgerError,
                >(e) && final(self)@ == old(self)@,
            },
    {
        if self.is_coinbase() {
            return Ok(());
        }
        if private_key.len() != SECRET_KEY_LEN {
            return Err(LedgerError::InvalidKey);
        }
        let ghost tx = self@;
        let ghost prev = txs_view(prev_tx@);
        let n = self.vin.len();
        let mut copy = self.trim_copy();
        let mut signatures: Vec<Vec<u8>> = Vec::new();
        let mut idx: usize = 0;
        while idx < n
            invariant
                idx <= n,
                n == self.vin@.len(),
                tx == self@,
                tx == old(self)@,
                !is_coinbase(tx),
                prev == txs_view(prev_tx@),
                private_key@.len() == SECRET_KEY_LEN,
                copy.vin@.len() == n,
                copy@.vin == trimmed(tx).vin,
                copy@.vout == tx.vout,
                copy@.id == signing_id(tx, prev, idx as nat),
                signatures@.len() == idx,
                forall|j: int| 0 <= j < idx ==> spent_output(prev, #[trigger] tx.vin[j]) is Some,
                forall|j: int| 0 <= j < idx ==> #[trigger] form_hashable(tx, prev, j),
                forall|j: int|
                    0 <= j < idx ==> (#[trigger] signatures@[j])@ == ed25519_signature(
                        signing_message(tx, prev, j),
                        private_key@,
                    ) && signatures@[j]@.len() == SIGNATURE_LEN,
            decreases n - idx,
        {
            assert(tx.vin[idx as int] == self.vin@[idx as int]@);
            match Transaction::rehash_for_input(&mut copy, &self.vin[idx], idx, prev_tx, Ghost(tx)) {
                Ok(()) => {},
                Err(LedgerError::MissingPrevTx) => {
                    return Err(LedgerError::MissingPrevTx);
                },
                Err(_) => {
                    // The inputs before this one were resolved; whether the
                    // later ones are decides which error is owed.
                    return Transaction::sign_failure(self, private_key, prev_tx, idx);
                },
            }
            let sig = signature::sign(copy.id.as_str().as_bytes(), private_key);
            signatures.push(sig);
            idx += 1;
        }
        let mut k: usize = 0;
        while k < n
            invariant
                k <= n,
                n == self.vin@.len(),
                n == signatures@.len(),
                n == tx.vin.len(),
                self@.id == tx.id,
                self@.vout == tx.vout,
                forall|j: int|
                    0 <= j < n ==> (#[trigger] signatures@[j])@ == ed25519_signature(
                        signing_message(tx, prev, j),
                        private_key@,
                    ) && signatures@[j]@.len() == SIGNATURE_LEN,
                forall|j: int|
                    0 <= j < k ==> self.vin@[j]@ == signed(tx, private_key@, prev).vin[j]
                        && (#[trigger] self.vin@[j])@.signature.len() == SIGNATURE_LEN,
                forall|j: int| k <= j < n ==> self.vin@[j]@ == tx.vin[j],
            decreases n - k,
        {
            let item = &self.vin[k];
            let next = TxInput {
                txid: item.txid.clone(),
                vout: item.vout,
                signature: copy_bytes(&signatures[k]),
                pub_key: copy_bytes(&item.pub_key),
            };
            assert(next@ == signed(tx, private_key@, prev).vin[k as int]);
            self.vin.set(k, next);
            k += 1;
        }
        assert(self@.vin =~= signed(tx, private_key@, prev).vin);
        assert(signatures_sized(self@)) by {
            assert forall|i: int| 0 <= i < self@.vin.len() implies (#[trigger] self@.vin[i]).signature.len()
                == SIGNATURE_LEN by {
                assert(self@.vin[i] == self.vin@[i]@);
            }
        }
        Ok(())
    }

    /// The error that signing owes once the form of input `at` cannot be
    /// hashed: a later input that spends nothing supplied comes first.
    fn sign_failure(
        tx: &Transaction,
        private_key: &[u8],
        prev_tx: &Vec<Transaction>,
        at: usize,
    ) -> (r: Result<(), LedgerError>)
        requires
            !is_coinbase(tx@),
            private_key@.len() == SECRET_KEY_LEN,
            at < tx.vin@.len(),
            forall|j: int| 0 <= j < at ==> spent_output(txs_view(prev_tx@), #[trigger] tx@.vin[j]) is Some,
            !form_hashable(tx@, txs_view(prev_tx@), at as int),
        ensures
            r is Err,
            sign_result(tx@, private_key@, txs_view(prev_tx@)) == Err::<TransactionView, LedgerError>(
                r->Err_0,
            ),
    {
        let mut j: usize = at;
        while j < tx.vin.len()
            invariant
                at <= j <= tx.vin@.len(),
                !is_coinbase(tx@),
                private_key@.len() == SECRET_KEY_LEN,
                !form_hashable(tx@, txs_view(prev_tx@), at as int),
                forall|k: int|
                    0 <= k < j ==> spent_output(txs_view(prev_tx@), #[trigger] tx@.vin[k]) is Some,
            decreases tx.vin@.len() - j,
        {
            assert(tx@.vin[j as int] == tx.vin@[j as int]@);
            if spent_key_hash(prev_tx, &tx.vin[j]).is_none() {
                assert(spent_output(txs_view(prev_tx@), tx@.vin[j as int]) is None);
                return Err(LedgerError::MissingPrevTx);
            }
            j += 1;
        }
        Err(LedgerError::SerializationFailure)
    }

    /// Whether every input carries a signature that holds, over the same
    /// ids that signing uses, under the public key that the input carries.
    /// A coinbase always verifies.
    pub fn verify(&self, prev_tx: &Vec<Transaction>) -> (r: Result<bool, LedgerError>)
        ensures
            r == verify_result(self@, txs_view(prev_tx@)),
    {
        if self.is_coinbase() {
            return Ok(true);
        }
        let ghost tx = self@;
        let ghost prev = txs_view(prev_tx@);
        let n = self.vin.len();
        let mut j: usize = 0;
        while j < n
            invariant
                j <= n,
                n == self.vin@.len(),
                tx == self@,
                !is_coinbase(tx),
                prev == txs_view(prev_tx@),
                forall|k: int| 0 <= k < j ==> spent_output(prev, #[trigger] tx.vin[k]) is Some,
            decreases n - j,
        {
            assert(tx.vin[j as int] == self.vin@[j as int]@);
            if spent_key_hash(prev_tx, &self.vin[j]).is_none() {
                assert(spent_output(prev, tx.vin[j as int]) is None);
                return Err(LedgerError::MissingPrevTx);
            }
            j += 1;
        }
        let mut copy = self.trim_copy();
        let mut idx: usize = 0;
        while idx < n
            invariant
                idx <= n,
                n == self.vin@.len(),
                tx == self@,
                prev == txs_view(prev_tx@),
                !is_coinbase(tx),
                refs_resolved(tx, prev),
                copy.vin@.len() == n,
                copy@.vin == trimmed(tx).vin,
                copy@.vout == tx.vout,
                copy@.id == signing_id(tx, prev, idx as nat),
                verify_from(tx, prev, 0) == verify_from(tx, prev, idx as nat),
            decreases n - idx,
        {
            assert(tx.vin[idx as int] == self.vin@[idx as int]@);
            match Transaction::rehash_for_input(&mut copy, &self.vin[idx], idx, prev_tx, Ghost(tx)) {
                Ok(()) => {},
                Err(e) => {
                    return Err(e);
                },
            }
            let input = &self.vin[idx];
            if input.pub_key.len() != PUBLIC_KEY_LEN || input.signature.len() != SIGNATURE_LEN {
                return Ok(false);
            }
            if !signature::verify(
                copy.id.as_str().as_bytes(),
                input.pub_key.as_slice(),
                input.signature.as_slice(),
            ) {
                return Ok(false);
            }
            idx += 1;
        }
        Ok(true)
    }
}

} // verus!
