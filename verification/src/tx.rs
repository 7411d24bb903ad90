use vstd::prelude::*;
use vstd::utf8::*;
use crate::address;
use crate::codec::{
    blob_bytes, get_blob, get_i32, get_text, get_u64, holds_at, i32_bytes, lemma_blob_was_written,
    lemma_holds_at_concat, lemma_holds_at_start, lemma_holds_whole, lemma_i32_was_written,
    lemma_read_blob, lemma_read_i32, lemma_read_text, lemma_read_u64, lemma_text_was_written,
    lemma_u64_was_written, put_blob, put_i32, put_text, put_u64, read_blob, read_i32, read_text,
    read_u64, text_bytes, u64_bytes,
};
use crate::errors::LedgerError;

verus! {

/// What a transaction input is: the output it spends, the spender's raw
/// public key and the signature.
pub struct TxInputView {
    pub txid: Seq<char>,
    pub vout: i32,
    pub signature: Seq<u8>,
    pub pub_key: Seq<u8>,
}

/// What a transaction output is: an amount locked to a public-key hash.
pub struct TxOutputView {
    pub value: i32,
    pub pub_key_hash: Seq<u8>,
}

/// A reference to a prior output, with the spender's public key and a
/// signature. The coinbase input refers to nothing: empty `txid`, `vout` -1.
#[derive(Debug, PartialEq, Eq)]
pub struct TxInput {
    pub txid: String,
    pub vout: i32,
    pub signature: Vec<u8>,
    pub pub_key: Vec<u8>,
}

/// An amount locked to the hash of the recipient's public key.
#[derive(Debug, PartialEq, Eq)]
pub struct TxOutput {
    pub value: i32,
    pub pub_key_hash: Vec<u8>,
}

/// A list of outputs.
#[derive(Debug, PartialEq, Eq)]
pub struct TxOutputs {
    pub outputs: Vec<TxOutput>,
}

impl View for TxInput {
    type V = TxInputView;

    open spec fn view(&self) -> TxInputView {
        TxInputView {
            txid: self.txid@,
            vout: self.vout,
            signature: self.signature@,
            pub_key: self.pub_key@,
        }
    }
}

impl View for TxOutput {
    type V = TxOutputView;

    open spec fn view(&self) -> TxOutputView {
        TxOutputView { value: self.value, pub_key_hash: self.pub_key_hash@ }
    }
}

impl View for TxOutputs {
    type V = Seq<TxOutputView>;

    open spec fn view(&self) -> Seq<TxOutputView> {
        outputs_view(self.outputs@)
    }
}

/// The inputs of a list, each by its view.
pub open spec fn inputs_view(v: Seq<TxInput>) -> Seq<TxInputView> {
    v.map_values(|i: TxInput| i@)
}

/// The outputs of a list, each by its view.
pub open spec fn outputs_view(v: Seq<TxOutput>) -> Seq<TxOutputView> {
    v.map_values(|o: TxOutput| o@)
}

/// Copies a byte string.
pub(crate) fn copy_bytes(b: &Vec<u8>) -> (r: Vec<u8>)
    ensures
        r@ == b@,
{
    vstd::slice::slice_to_vec(b.as_slice())
}

/// Whether two byte strings are equal.
pub(crate) fn same_bytes(a: &[u8], b: &[u8]) -> (r: bool)
    ensures
        r == (a@ == b@),
{
    if a.len() != b.len() {
        return false;
    }
    let mut i: usize = 0;
    while i < a.len()
        invariant
            i <= a.len(),
            a.len() == b.len(),
            forall|j: int| 0 <= j < i ==> a@[j] == b@[j],
        decreases a.len() - i,
    {
        if a[i] != b[i] {
            return false;
        }
        i += 1;
    }
    assert(a@ =~= b@);
    true
}

impl Clone for TxInput {
    fn clone(&self) -> (r: Self)
        ensures
            r@ == self@,
    {
        TxInput {
            txid: self.txid.clone(),
            vout: self.vout,
            signature: copy_bytes(&self.signature),
            pub_key: copy_bytes(&self.pub_key),
        }
    }
}

impl Clone for TxOutput {
    fn clone(&self) -> (r: Self)
        ensures
            r@ == self@,
    {
        TxOutput { value: self.value, pub_key_hash: copy_bytes(&self.pub_key_hash) }
    }
}

/// Copies a list of inputs.
pub(crate) fn copy_inputs(v: &Vec<TxInput>) -> (r: Vec<TxInput>)
    ensures
        inputs_view(r@) == inputs_view(v@),
{
    let mut r: Vec<TxInput> = Vec::new();
    let mut i: usize = 0;
    while i < v.len()
        invariant
            i <= v.len(),
            r@.len() == i,
            forall|j: int| 0 <= j < i ==> r@[j]@ == v@[j]@,
        decreases v.len() - i,
    {
        r.push(v[i].clone());
        i += 1;
    }
    assert(inputs_view(r@) =~= inputs_view(v@));
    r
}

/// Copies a list of outputs.
pub(crate) fn copy_outputs(v: &Vec<TxOutput>) -> (r: Vec<TxOutput>)
    ensures
        outputs_view(r@) == outputs_view(v@),
{
    let mut r: Vec<TxOutput> = Vec::new();
    let mut i: usize = 0;
    while i < v.len()
        invariant
            i <= v.len(),
            r@.len() == i,
            forall|j: int| 0 <= j < i ==> r@[j]@ == v@[j]@,
        decreases v.len() - i,
    {
        r.push(v[i].clone());
        i += 1;
    }
    assert(outputs_view(r@) =~= outputs_view(v@));
    r
}

impl Clone for TxOutputs {
    fn clone(&self) -> (r: Self)
        ensures
            r@ == self@,
    {
        TxOutputs { outputs: copy_outputs(&self.outputs) }
    }
}

// ---------------------------------------------------------------------------
// Canonical bytes
// ---------------------------------------------------------------------------

/// An input in canonical bytes: `txid`, `vout`, `signature`, `pub_key`.
pub open spec fn input_bytes(i: TxInputView) -> Seq<u8> {
    text_bytes(i.txid) + i32_bytes(i.vout) + blob_bytes(i.signature) + blob_bytes(i.pub_key)
}

/// An output in canonical bytes: `value`, `pub_key_hash`.
pub open spec fn output_bytes(o: TxOutputView) -> Seq<u8> {
    i32_bytes(o.value) + blob_bytes(o.pub_key_hash)
}

/// The inputs of a list in canonical bytes, one after the other.
pub open spec fn inputs_body(s: Seq<TxInputView>) -> Seq<u8>
    decreases s.len(),
{
    if s.len() == 0 {
        Seq::empty()
    } else {
        inputs_body(s.drop_last()) + input_bytes(s.last())
    }
}

/// The outputs of a list in canonical bytes, one after the other.
pub open spec fn outputs_body(s: Seq<TxOutputView>) -> Seq<u8>
    decreases s.len(),
{
    if s.len() == 0 {
        Seq::empty()
    } else {
        outputs_body(s.drop_last()) + output_bytes(s.last())
    }
}

/// A list of inputs in canonical bytes: the count, then the inputs.
pub open spec fn inputs_bytes(s: Seq<TxInputView>) -> Seq<u8> {
    u64_bytes(s.len() as u64) + inputs_body(s)
}

/// A list of outputs in canonical bytes: the count, then the outputs.
pub open spec fn outputs_bytes(s: Seq<TxOutputView>) -> Seq<u8> {
    u64_bytes(s.len() as u64) + outputs_body(s)
}

/// Every length of the input fits the 64 bits that the layout gives it.
pub open spec fn input_fits(i: TxInputView) -> bool {
    &&& encode_utf8(i.txid).len() <= u64::MAX
    &&& i.signature.len() <= u64::MAX
    &&& i.pub_key.len() <= u64::MAX
}

/// The length of the output's hash fits the 64 bits that the layout gives it.
pub open spec fn output_fits(o: TxOutputView) -> bool {
    o.pub_key_hash.len() <= u64::MAX
}

/// The count and every length in a list of inputs fit their 64 bits.
pub open spec fn inputs_fit(s: Seq<TxInputView>) -> bool {
    &&& s.len() <= u64::MAX
    &&& forall|k: int| 0 <= k < s.len() ==> input_fits(#[trigger] s[k])
}

/// The count and every length in a list of outputs fit their 64 bits.
pub open spec fn outputs_fit(s: Seq<TxOutputView>) -> bool {
    &&& s.len() <= u64::MAX
    &&& forall|k: int| 0 <= k < s.len() ==> output_fits(#[trigger] s[k])
}

/// Reads an input at `pos`.
pub open spec fn read_input(s: Seq<u8>, pos: int) -> Option<(TxInputView, int)> {
    match read_text(s, pos) {
        Some((txid, stop1)) => match read_i32(s, stop1) {
            Some((vout, stop2)) => match read_blob(s, stop2) {
                Some((signature, stop3)) => match read_blob(s, stop3) {
                    Some((pub_key, stop4)) => Some(
                        (TxInputView { txid, vout, signature, pub_key }, stop4),
                    ),
                    None => None,
                },
                None => None,
            },
            None => None,
        },
        None => None,
    }
}

/// Reads an output at `pos`.
pub open spec fn read_output(s: Seq<u8>, pos: int) -> Option<(TxOutputView, int)> {
    match read_i32(s, pos) {
        Some((value, stop1)) => match read_blob(s, stop1) {
            Some((pub_key_hash, stop2)) => Some((TxOutputView { value, pub_key_hash }, stop2)),
            None => None,
        },
        None => None,
    }
}

/// Reads `n` inputs from `pos` on.
pub open spec fn read_inputs_n(s: Seq<u8>, pos: int, n: nat) -> Option<(Seq<TxInputView>, int)>
    decreases n,
{
    if n == 0 {
        Some((Seq::empty(), pos))
    } else {
        match read_inputs_n(s, pos, (n - 1) as nat) {
            Some((items, p)) => match read_input(s, p) {
                Some((item, next)) => Some((items.push(item), next)),
                None => None,
            },
            None => None,
        }
    }
}

/// Reads `n` outputs from `pos` on.
pub open spec fn read_outputs_n(s: Seq<u8>, pos: int, n: nat) -> Option<(Seq<TxOutputView>, int)>
    decreases n,
{
    if n == 0 {
        Some((Seq::empty(), pos))
    } else {
        match read_outputs_n(s, pos, (n - 1) as nat) {
            Some((items, p)) => match read_output(s, p) {
                Some((item, next)) => Some((items.push(item), next)),
                None => None,
            },
            None => None,
        }
    }
}

/// Reads a counted list of inputs at `pos`.
pub open spec fn read_inputs(s: Seq<u8>, pos: int) -> Option<(Seq<TxInputView>, int)> {
    match read_u64(s, pos) {
        Some((n, p)) => read_inputs_n(s, p, n as nat),
        None => None,
    }
}

/// Reads a counted list of outputs at `pos`.
pub open spec fn read_outputs(s: Seq<u8>, pos: int) -> Option<(Seq<TxOutputView>, int)> {
    match read_u64(s, pos) {
        Some((n, p)) => read_outputs_n(s, p, n as nat),
        None => None,
    }
}

/// The output that a byte string is the canonical form of, if it is one.
pub open spec fn decode_output(s: Seq<u8>) -> Option<TxOutputView> {
    match read_output(s, 0) {
        Some((o, end)) => if end == s.len() {
            Some(o)
        } else {
            None
        },
        None => None,
    }
}

/// An input that stands at `pos` in canonical bytes is read back as it
/// was.
pub proof fn lemma_read_input(s: Seq<u8>, pos: int, i: TxInputView)
    requires
        input_fits(i),
        holds_at(s, pos, input_bytes(i)),
    ensures
        read_input(s, pos) == Some((i, pos + input_bytes(i).len())),
{
    let a = text_bytes(i.txid);
    let b = i32_bytes(i.vout);
    let c = blob_bytes(i.signature);
    let d = blob_bytes(i.pub_key);
    lemma_holds_at_concat(s, pos, a + b + c, d);
    lemma_holds_at_concat(s, pos, a + b, c);
    lemma_holds_at_concat(s, pos, a, b);
    lemma_read_text(s, pos, i.txid);
    lemma_read_i32(s, pos + a.len(), i.vout);
    lemma_read_blob(s, pos + a.len() + b.len(), i.signature);
    lemma_read_blob(s, pos + a.len() + b.len() + c.len(), i.pub_key);
}

/// An output that stands at `pos` in canonical bytes is read back as it
/// was.
pub proof fn lemma_read_output(s: Seq<u8>, pos: int, o: TxOutputView)
    requires
        output_fits(o),
        holds_at(s, pos, output_bytes(o)),
    ensures
        read_output(s, pos) == Some((o, pos + output_bytes(o).len())),
{
    let a = i32_bytes(o.value);
    lemma_holds_at_concat(s, pos, a, blob_bytes(o.pub_key_hash));
    lemma_read_i32(s, pos, o.value);
    lemma_read_blob(s, pos + a.len(), o.pub_key_hash);
}

/// Inputs that stand one after the other from `pos` on are read back as
/// they were.
pub proof fn lemma_read_inputs_n(s: Seq<u8>, pos: int, items: Seq<TxInputView>)
    requires
        inputs_fit(items),
        holds_at(s, pos, inputs_body(items)),
    ensures
        read_inputs_n(s, pos, items.len()) == Some((items, pos + inputs_body(items).len())),
    decreases items.len(),
{
    if items.len() > 0 {
        let front = items.drop_last();
        lemma_holds_at_concat(s, pos, inputs_body(front), input_bytes(items.last()));
        lemma_read_inputs_n(s, pos, front);
        lemma_read_input(s, pos + inputs_body(front).len(), items.last());
        assert(front.push(items.last()) =~= items);
    }
}

/// Outputs that stand one after the other from `pos` on are read back as
/// they were.
pub proof fn lemma_read_outputs_n(s: Seq<u8>, pos: int, items: Seq<TxOutputView>)
    requires
        outputs_fit(items),
        holds_at(s, pos, outputs_body(items)),
    ensures
        read_outputs_n(s, pos, items.len()) == Some((items, pos + outputs_body(items).len())),
    decreases items.len(),
{
    if items.len() > 0 {
        let front = items.drop_last();
        lemma_holds_at_concat(s, pos, outputs_body(front), output_bytes(items.last()));
        lemma_read_outputs_n(s, pos, front);
        lemma_read_output(s, pos + outputs_body(front).len(), items.last());
        assert(front.push(items.last()) =~= items);
    }
}

/// A counted list of inputs that stands at `pos` is read back as it was.
pub proof fn lemma_read_inputs(s: Seq<u8>, pos: int, items: Seq<TxInputView>)
    requires
        inputs_fit(items),
        holds_at(s, pos, inputs_bytes(items)),
    ensures
        read_inputs(s, pos) == Some((items, pos + inputs_bytes(items).len())),
{
    lemma_holds_at_concat(s, pos, u64_bytes(items.len() as u64), inputs_body(items));
    lemma_read_u64(s, pos, items.len() as u64);
    lemma_read_inputs_n(s, pos + 8, items);
}

/// A counted list of outputs that stands at `pos` is read back as it was.
pub proof fn lemma_read_outputs(s: Seq<u8>, pos: int, items: Seq<TxOutputView>)
    requires
        outputs_fit(items),
        holds_at(s, pos, outputs_bytes(items)),
    ensures
        read_outputs(s, pos) == Some((items, pos + outputs_bytes(items).len())),
{
    lemma_holds_at_concat(s, pos, u64_bytes(items.len() as u64), outputs_body(items));
    lemma_read_u64(s, pos, items.len() as u64);
    lemma_read_outputs_n(s, pos + 8, items);
}

/// An input is read only from its canonical bytes.
pub proof fn lemma_input_was_written(s: Seq<u8>, pos: int)
    requires
        read_input(s, pos) is Some,
    ensures
        read_input(s, pos)->Some_0.1 == pos + input_bytes(read_input(s, pos)->Some_0.0).len(),
        holds_at(s, pos, input_bytes(read_input(s, pos)->Some_0.0)),
        input_fits(read_input(s, pos)->Some_0.0),
{
    let i = read_input(s, pos)->Some_0.0;
    lemma_text_was_written(s, pos);
    let stop1 = read_text(s, pos)->Some_0.1;
    lemma_i32_was_written(s, stop1);
    let stop2 = stop1 + 4;
    lemma_blob_was_written(s, stop2);
    let stop3 = read_blob(s, stop2)->Some_0.1;
    lemma_blob_was_written(s, stop3);
    let a = text_bytes(i.txid);
    let b = i32_bytes(i.vout);
    let c = blob_bytes(i.signature);
    let d = blob_bytes(i.pub_key);
    lemma_holds_at_concat(s, pos, a, b);
    lemma_holds_at_concat(s, pos, a + b, c);
    lemma_holds_at_concat(s, pos, a + b + c, d);
}

/// An output is read only from its canonical bytes.
pub proof fn lemma_output_was_written(s: Seq<u8>, pos: int)
    requires
        read_output(s, pos) is Some,
    ensures
        read_output(s, pos)->Some_0.1 == pos + output_bytes(read_output(s, pos)->Some_0.0).len(),
        holds_at(s, pos, output_bytes(read_output(s, pos)->Some_0.0)),
        output_fits(read_output(s, pos)->Some_0.0),
{
    let o = read_output(s, pos)->Some_0.0;
    lemma_i32_was_written(s, pos);
    lemma_blob_was_written(s, pos + 4);
    lemma_holds_at_concat(s, pos, i32_bytes(o.value), blob_bytes(o.pub_key_hash));
}

/// Inputs are read one after the other only from their canonical bytes.
pub proof fn lemma_inputs_n_were_written(s: Seq<u8>, pos: int, n: nat)
    requires
        0 <= pos <= s.len(),
        read_inputs_n(s, pos, n) is Some,
    ensures
        read_inputs_n(s, pos, n)->Some_0.0.len() == n,
        read_inputs_n(s, pos, n)->Some_0.1 == pos + inputs_body(
            read_inputs_n(s, pos, n)->Some_0.0,
        ).len(),
        holds_at(s, pos, inputs_body(read_inputs_n(s, pos, n)->Some_0.0)),
        forall|k: int| 0 <= k < n ==> input_fits(#[trigger] read_inputs_n(s, pos, n)->Some_0.0[k]),
    decreases n,
{
    if n > 0 {
        let (front, mid) = read_inputs_n(s, pos, (n - 1) as nat)->Some_0;
        lemma_inputs_n_were_written(s, pos, (n - 1) as nat);
        lemma_input_was_written(s, mid);
        let item = read_input(s, mid)->Some_0.0;
        let all = front.push(item);
        assert(all.drop_last() =~= front);
        lemma_holds_at_concat(s, pos, inputs_body(front), input_bytes(item));
    } else {
        assert(s.subrange(pos, pos) =~= Seq::<u8>::empty());
    }
}

/// Outputs are read one after the other only from their canonical bytes.
pub proof fn lemma_outputs_n_were_written(s: Seq<u8>, pos: int, n: nat)
    requires
        0 <= pos <= s.len(),
        read_outputs_n(s, pos, n) is Some,
    ensures
        read_outputs_n(s, pos, n)->Some_0.0.len() == n,
        read_outputs_n(s, pos, n)->Some_0.1 == pos + outputs_body(
            read_outputs_n(s, pos, n)->Some_0.0,
        ).len(),
        holds_at(s, pos, outputs_body(read_outputs_n(s, pos, n)->Some_0.0)),
        forall|k: int| 0 <= k < n ==> output_fits(#[trigger] read_outputs_n(s, pos, n)->Some_0.0[k]),
    decreases n,
{
    if n > 0 {
        let (front, mid) = read_outputs_n(s, pos, (n - 1) as nat)->Some_0;
        lemma_outputs_n_were_written(s, pos, (n - 1) as nat);
        lemma_output_was_written(s, mid);
        let item = read_output(s, mid)->Some_0.0;
        let all = front.push(item);
        assert(all.drop_last() =~= front);
        lemma_holds_at_concat(s, pos, outputs_body(front), output_bytes(item));
    } else {
        assert(s.subrange(pos, pos) =~= Seq::<u8>::empty());
    }
}

/// A counted list of inputs is read only from its canonical bytes.
pub proof fn lemma_inputs_were_written(s: Seq<u8>, pos: int)
    requires
        read_inputs(s, pos) is Some,
    ensures
        read_inputs(s, pos)->Some_0.1 == pos + inputs_bytes(read_inputs(s, pos)->Some_0.0).len(),
        holds_at(s, pos, inputs_bytes(read_inputs(s, pos)->Some_0.0)),
        inputs_fit(read_inputs(s, pos)->Some_0.0),
{
    lemma_u64_was_written(s, pos);
    let n = read_u64(s, pos)->Some_0.0;
    lemma_inputs_n_were_written(s, pos + 8, n as nat);
    let items = read_inputs(s, pos)->Some_0.0;
    lemma_holds_at_concat(s, pos, u64_bytes(n), inputs_body(items));
}

/// A counted list of outputs is read only from its canonical bytes.
pub proof fn lemma_outputs_were_written(s: Seq<u8>, pos: int)
    requires
        read_outputs(s, pos) is Some,
    ensures
        read_outputs(s, pos)->Some_0.1 == pos + outputs_bytes(read_outputs(s, pos)->Some_0.0).len(),
        holds_at(s, pos, outputs_bytes(read_outputs(s, pos)->Some_0.0)),
        outputs_fit(read_outputs(s, pos)->Some_0.0),
{
    lemma_u64_was_written(s, pos);
    let n = read_u64(s, pos)->Some_0.0;
    lemma_outputs_n_were_written(s, pos + 8, n as nat);
    let items = read_outputs(s, pos)->Some_0.0;
    lemma_holds_at_concat(s, pos, u64_bytes(n), outputs_body(items));
}

/// Bytes are read as an output exactly when they are the canonical bytes
/// of that output.
pub proof fn lemma_output_bytes_are_canonical(s: Seq<u8>, o: TxOutputView)
    ensures
        decode_output(s) == Some(o) <==> s == output_bytes(o) && output_fits(o),
{
    if decode_output(s) == Some(o) {
        lemma_output_was_written(s, 0);
        lemma_holds_whole(s, output_bytes(o));
    }
    if s == output_bytes(o) && output_fits(o) {
        lemma_output_round_trip(o);
    }
}

/// An output written in canonical bytes is read back as it was.
pub proof fn lemma_output_round_trip(o: TxOutputView)
    requires
        output_fits(o),
    ensures
        decode_output(output_bytes(o)) == Some(o),
{
    let s = output_bytes(o);
    lemma_holds_at_start(s, Seq::empty());
    assert(s + Seq::<u8>::empty() =~= s);
    lemma_read_output(s, 0, o);
}

/// Once a read of a list has failed, reading more of it fails too.
pub proof fn lemma_read_inputs_n_fails(s: Seq<u8>, pos: int, k: nat, n: nat)
    requires
        k <= n,
        read_inputs_n(s, pos, k) is None,
    ensures
        read_inputs_n(s, pos, n) is None,
    decreases n,
{
    if k < n {
        lemma_read_inputs_n_fails(s, pos, k, (n - 1) as nat);
    }
}

/// Once a read of a list has failed, reading more of it fails too.
pub proof fn lemma_read_outputs_n_fails(s: Seq<u8>, pos: int, k: nat, n: nat)
    requires
        k <= n,
        read_outputs_n(s, pos, k) is None,
    ensures
        read_outputs_n(s, pos, n) is None,
    decreases n,
{
    if k < n {
        lemma_read_outputs_n_fails(s, pos, k, (n - 1) as nat);
    }
}

/// Appends an input in canonical bytes.
pub(crate) fn put_input(out: &mut Vec<u8>, i: &TxInput)
    ensures
        final(out)@ == old(out)@ + input_bytes(i@),
        input_fits(i@),
{
    put_text(out, i.txid.as_str());
    put_i32(out, i.vout);
    put_blob(out, i.signature.as_slice());
    put_blob(out, i.pub_key.as_slice());
    assert(out@ =~= old(out)@ + input_bytes(i@));
}

/// Appends an output in canonical bytes.
pub(crate) fn put_output(out: &mut Vec<u8>, o: &TxOutput)
    ensures
        final(out)@ == old(out)@ + output_bytes(o@),
        output_fits(o@),
{
    put_i32(out, o.value);
    put_blob(out, o.pub_key_hash.as_slice());
    assert(out@ =~= old(out)@ + output_bytes(o@));
}

/// Appends a counted list of inputs.
pub(crate) fn put_inputs(out: &mut Vec<u8>, v: &Vec<TxInput>)
    ensures
        final(out)@ == old(out)@ + inputs_bytes(inputs_view(v@)),
        inputs_fit(inputs_view(v@)),
{
    let ghost items = inputs_view(v@);
    put_u64(out, v.len() as u64);
    let ghost head = out@;
    let mut i: usize = 0;
    while i < v.len()
        invariant
            i <= v.len(),
            items == inputs_view(v@),
            out@ == head + inputs_body(items.subrange(0, i as int)),
            forall|k: int| 0 <= k < i ==> input_fits(#[trigger] items[k]),
        decreases v.len() - i,
    {
        put_input(out, &v[i]);
        proof {
            let next = items.subrange(0, i + 1);
            assert(next.drop_last() =~= items.subrange(0, i as int));
            assert(next.last() == v@[i as int]@);
            assert(out@ =~= head + inputs_body(next));
        }
        i += 1;
    }
    assert(items.subrange(0, i as int) =~= items);
    assert(out@ =~= old(out)@ + inputs_bytes(items));
}

/// Appends a counted list of outputs.
pub(crate) fn put_outputs(out: &mut Vec<u8>, v: &Vec<TxOutput>)
    ensures
        final(out)@ == old(out)@ + outputs_bytes(outputs_view(v@)),
        outputs_fit(outputs_view(v@)),
{
    let ghost items = outputs_view(v@);
    put_u64(out, v.len() as u64);
    let ghost head = out@;
    let mut i: usize = 0;
    while i < v.len()
        invariant
            i <= v.len(),
            items == outputs_view(v@),
            out@ == head + outputs_body(items.subrange(0, i as int)),
            forall|k: int| 0 <= k < i ==> output_fits(#[trigger] items[k]),
        decreases v.len() - i,
    {
        put_output(out, &v[i]);
        proof {
            let next = items.subrange(0, i + 1);
            assert(next.drop_last() =~= items.subrange(0, i as int));
            assert(next.last() == v@[i as int]@);
            assert(out@ =~= head + outputs_body(next));
        }
        i += 1;
    }
    assert(items.subrange(0, i as int) =~= items);
    assert(out@ =~= old(out)@ + outputs_bytes(items));
}

/// Reads an input at `pos`.
pub(crate) fn get_input(buf: &[u8], pos: usize) -> (r: Option<(TxInput, usize)>)
    ensures
        match r {
            Some((i, next)) => read_input(buf@, pos as int) == Some((i@, next as int)),
            None => read_input(buf@, pos as int) is None,
        },
        r matches Some((_, next)) ==> pos < next <= buf@.len(),
{
    let (txid, stop1) = match get_text(buf, pos) {
        Some(x) => x,
        None => return None,
    };
    let (vout, stop2) = match get_i32(buf, stop1) {
        Some(x) => x,
        None => return None,
    };
    let (signature, stop3) = match get_blob(buf, stop2) {
        Some(x) => x,
        None => return None,
    };
    let (pub_key, stop4) = match get_blob(buf, stop3) {
        Some(x) => x,
        None => return None,
    };
    Some((TxInput { txid, vout, signature, pub_key }, stop4))
}

/// Reads an output at `pos`.
pub(crate) fn get_output(buf: &[u8], pos: usize) -> (r: Option<(TxOutput, usize)>)
    ensures
        match r {
            Some((o, next)) => read_output(buf@, pos as int) == Some((o@, next as int)),
            None => read_output(buf@, pos as int) is None,
        },
        r matches Some((_, next)) ==> pos < next <= buf@.len(),
{
    let (value, stop1) = match get_i32(buf, pos) {
        Some(x) => x,
        None => return None,
    };
    let (pub_key_hash, stop2) = match get_blob(buf, stop1) {
        Some(x) => x,
        None => return None,
    };
    Some((TxOutput { value, pub_key_hash }, stop2))
}

/// Reads a counted list of inputs at `pos`.
pub(crate) fn get_inputs(buf: &[u8], pos: usize) -> (r: Option<(Vec<TxInput>, usize)>)
    ensures
        match r {
            Some((v, next)) => read_inputs(buf@, pos as int) == Some(
                (inputs_view(v@), next as int),
            ),
            None => read_inputs(buf@, pos as int) is None,
        },
        r matches Some((_, next)) ==> pos < next <= buf@.len(),
{
    let (n, start) = match get_u64(buf, pos) {
        Some(x) => x,
        None => return None,
    };
    let mut v: Vec<TxInput> = Vec::new();
    let mut cur = start;
    let mut i: u64 = 0;
    while i < n
        invariant
            i <= n,
            start <= cur <= buf@.len(),
            pos < start,
            read_u64(buf@, pos as int) == Some((n, start as int)),
            read_inputs_n(buf@, start as int, i as nat) == Some((inputs_view(v@), cur as int)),
        decreases n - i,
    {
        match get_input(buf, cur) {
            None => {
                proof {
                    let k = (i + 1) as nat;
                    assert(read_inputs_n(buf@, start as int, (k - 1) as nat) is Some);
                    assert(read_inputs_n(buf@, start as int, k) is None);
                    lemma_read_inputs_n_fails(buf@, start as int, k, n as nat);
                }
                return None;
            },
            Some((item, next)) => {
                proof {
                    assert(inputs_view(v@).push(item@) =~= inputs_view(v@.push(item)));
                }
                v.push(item);
                cur = next;
            },
        }
        i += 1;
    }
    Some((v, cur))
}

/// Reads a counted list of outputs at `pos`.
pub(crate) fn get_outputs(buf: &[u8], pos: usize) -> (r: Option<(Vec<TxOutput>, usize)>)
    ensures
        match r {
            Some((v, next)) => read_outputs(buf@, pos as int) == Some(
                (outputs_view(v@), next as int),
            ),
            None => read_outputs(buf@, pos as int) is None,
        },
        r matches Some((_, next)) ==> pos < next <= buf@.len(),
{
    let (n, start) = match get_u64(buf, pos) {
        Some(x) => x,
        None => return None,
    };
    let mut v: Vec<TxOutput> = Vec::new();
    let mut cur = start;
    let mut i: u64 = 0;
    while i < n
        invariant
            i <= n,
            start <= cur <= buf@.len(),
            pos < start,
            read_u64(buf@, pos as int) == Some((n, start as int)),
            read_outputs_n(buf@, start as int, i as nat) == Some((outputs_view(v@), cur as int)),
        decreases n - i,
    {
        match get_output(buf, cur) {
            None => {
                proof {
                    let k = (i + 1) as nat;
                    assert(read_outputs_n(buf@, start as int, (k - 1) as nat) is Some);
                    assert(read_outputs_n(buf@, start as int, k) is None);
                    lemma_read_outputs_n_fails(buf@, start as int, k, n as nat);
                }
                return None;
            },
            Some((item, next)) => {
                proof {
                    assert(outputs_view(v@).push(item@) =~= outputs_view(v@.push(item)));
                }
                v.push(item);
                cur = next;
            },
        }
        i += 1;
    }
    Some((v, cur))
}

impl TxOutput {
    /// Whether the output is locked to the given public-key hash.
    pub fn can_be_unlock_with(&self, unlock_data: &[u8]) -> (r: bool)
        ensures
            r == (self@.pub_key_hash == unlock_data@),
    {
        same_bytes(self.pub_key_hash.as_slice(), unlock_data)
    }

    /// The amount of the output.
    pub fn get_value(&self) -> (r: i32)
        ensures
            r == self@.value,
    {
        self.value
    }

    /// An output of `value` locked to the public-key hash that `address`
    /// stands for, 20 bytes; a text that is no address of this ledger is
    /// refused.
    pub fn new(value: i32, address: String) -> (r: Result<Self, LedgerError>)
        ensures
            match address::decoded_body(address@) {
                Some(body) => r matches Ok(o) && o@ == (TxOutputView {
                    value,
                    pub_key_hash: body,
                }) && body.len() == address::BODY_LEN,
                None => r == Err::<Self, LedgerError>(LedgerError::AddressDecode),
            },
    {
        let mut output = TxOutput { value, pub_key_hash: Vec::new() };
        match output.lock(address.as_str()) {
            Ok(()) => Ok(output),
            Err(e) => Err(e),
        }
    }

    /// Locks the output to the public-key hash that `address` stands for.
    pub fn lock(&mut self, address: &str) -> (r: Result<(), LedgerError>)
        ensures
            match address::decoded_body(address@) {
                Some(body) => r is Ok && final(self)@ == (TxOutputView {
                    value: old(self)@.value,
                    pub_key_hash: body,
                }) && body.len() == address::BODY_LEN,
                None => r == Err::<(), LedgerError>(LedgerError::AddressDecode) && final(self)@
                    == old(self)@,
            },
    {
        match address::decode(address) {
            Some(body) => {
                self.pub_key_hash = body;
                Ok(())
            },
            None => Err(LedgerError::AddressDecode),
        }
    }

    /// The output in canonical bytes.
    pub fn to_bytes(&self) -> (bytes: Vec<u8>)
        ensures
            bytes@ == output_bytes(self@),
            output_fits(self@),
    {
        let mut bytes: Vec<u8> = Vec::new();
        put_output(&mut bytes, self);
        assert(bytes@ =~= output_bytes(self@));
        bytes
    }

    /// Reads an output from its canonical bytes; anything else is refused.
    pub fn from_bytes(bytes: &[u8]) -> (r: Option<Self>)
        ensures
            match r {
                Some(o) => decode_output(bytes@) == Some(o@),
                None => decode_output(bytes@) is None,
            },
    {
        match get_output(bytes, 0) {
            Some((o, end)) => if end == bytes.len() {
                Some(o)
            } else {
                None
            },
            None => None,
        }
    }
}

} // verus!
