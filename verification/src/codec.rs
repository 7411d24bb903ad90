use vstd::bytes::*;
use vstd::prelude::*;
use vstd::slice::*;
use vstd::utf8::*;

verus! {

// ---------------------------------------------------------------------------
// The canonical byte layout: little-endian integers of fixed width, byte
// strings behind a 64-bit length, text as the byte string of its UTF-8 form.
// ---------------------------------------------------------------------------

/// Four bytes, little-endian.
pub open spec fn u32_bytes(x: u32) -> Seq<u8> {
    spec_u32_to_le_bytes(x)
}

/// Four bytes, little-endian two's complement.
pub open spec fn i32_bytes(x: i32) -> Seq<u8> {
    spec_u32_to_le_bytes(x as u32)
}

/// Eight bytes, little-endian.
pub open spec fn u64_bytes(x: u64) -> Seq<u8> {
    spec_u64_to_le_bytes(x)
}

/// Sixteen bytes, little-endian.
pub open spec fn u128_bytes(x: u128) -> Seq<u8> {
    spec_u128_to_le_bytes(x)
}

/// A byte string: its length in eight bytes, then the bytes.
pub open spec fn blob_bytes(b: Seq<u8>) -> Seq<u8> {
    u64_bytes(b.len() as u64) + b
}

/// A text: the byte string of its UTF-8 form.
pub open spec fn text_bytes(s: Seq<char>) -> Seq<u8> {
    blob_bytes(encode_utf8(s))
}

/// `part` stands in `s` from position `pos` on.
pub open spec fn holds_at(s: Seq<u8>, pos: int, part: Seq<u8>) -> bool {
    &&& 0 <= pos
    &&& pos + part.len() <= s.len()
    &&& s.subrange(pos, pos + part.len()) == part
}

/// Reads four bytes at `pos`; gives the value and the position behind it.
pub open spec fn read_u32(s: Seq<u8>, pos: int) -> Option<(u32, int)> {
    if 0 <= pos && pos + 4 <= s.len() {
        Some((spec_u32_from_le_bytes(s.subrange(pos, pos + 4)), pos + 4))
    } else {
        None
    }
}

/// Reads a signed four-byte integer at `pos`.
pub open spec fn read_i32(s: Seq<u8>, pos: int) -> Option<(i32, int)> {
    match read_u32(s, pos) {
        Some((x, next)) => Some((x as i32, next)),
        None => None,
    }
}

/// Reads eight bytes at `pos`.
pub open spec fn read_u64(s: Seq<u8>, pos: int) -> Option<(u64, int)> {
    if 0 <= pos && pos + 8 <= s.len() {
        Some((spec_u64_from_le_bytes(s.subrange(pos, pos + 8)), pos + 8))
    } else {
        None
    }
}

/// Reads sixteen bytes at `pos`.
pub open spec fn read_u128(s: Seq<u8>, pos: int) -> Option<(u128, int)> {
    if 0 <= pos && pos + 16 <= s.len() {
        Some((spec_u128_from_le_bytes(s.subrange(pos, pos + 16)), pos + 16))
    } else {
        None
    }
}

/// Reads a length-prefixed byte string at `pos`.
pub open spec fn read_blob(s: Seq<u8>, pos: int) -> Option<(Seq<u8>, int)> {
    match read_u64(s, pos) {
        Some((len, start)) => if start + len <= s.len() {
            Some((s.subrange(start, start + len), start + len))
        } else {
            None
        },
        None => None,
    }
}

/// Reads a text at `pos`; the bytes must be well-formed UTF-8.
pub open spec fn read_text(s: Seq<u8>, pos: int) -> Option<(Seq<char>, int)> {
    match read_blob(s, pos) {
        Some((b, next)) => if valid_utf8(b) {
            Some((decode_utf8(b), next))
        } else {
            None
        },
        None => None,
    }
}

// ---------------------------------------------------------------------------
// What is written is read back.
// ---------------------------------------------------------------------------

/// A concatenation stands at `pos` exactly when its first part stands there
/// and its second part right behind.
pub proof fn lemma_holds_at_concat(s: Seq<u8>, pos: int, a: Seq<u8>, b: Seq<u8>)
    ensures
        holds_at(s, pos, a + b) <==> holds_at(s, pos, a) && holds_at(s, pos + a.len(), b),
{
    if holds_at(s, pos, a + b) {
        let whole = s.subrange(pos, pos + (a + b).len());
        assert(s.subrange(pos, pos + a.len()) =~= whole.subrange(0, a.len() as int));
        assert(whole.subrange(0, a.len() as int) =~= a);
        assert(s.subrange(pos + a.len(), pos + a.len() + b.len()) =~= whole.subrange(
            a.len() as int,
            (a + b).len() as int,
        ));
        assert(whole.subrange(a.len() as int, (a + b).len() as int) =~= b);
    }
    if holds_at(s, pos, a) && holds_at(s, pos + a.len(), b) {
        let left = s.subrange(pos, pos + a.len());
        let right = s.subrange(pos + a.len(), pos + a.len() + b.len());
        assert(s.subrange(pos, pos + (a + b).len()) =~= left + right);
    }
}

/// Every byte string stands at the start of itself followed by anything.
pub proof fn lemma_holds_at_start(part: Seq<u8>, rest: Seq<u8>)
    ensures
        holds_at(part + rest, 0, part),
{
    assert((part + rest).subrange(0, part.len() as int) =~= part);
}

/// What was written as a four-byte number is read back as that number.
pub proof fn lemma_read_u32(s: Seq<u8>, pos: int, x: u32)
    requires
        holds_at(s, pos, u32_bytes(x)),
    ensures
        u32_bytes(x).len() == 4,
        read_u32(s, pos) == Some((x, pos + 4)),
{
    lemma_auto_spec_u32_to_from_le_bytes();
}

/// What was written as a signed four-byte number is read back as that
/// number.
pub proof fn lemma_read_i32(s: Seq<u8>, pos: int, x: i32)
    requires
        holds_at(s, pos, i32_bytes(x)),
    ensures
        i32_bytes(x).len() == 4,
        read_i32(s, pos) == Some((x, pos + 4)),
{
    lemma_read_u32(s, pos, x as u32);
    assert((x as u32) as i32 == x) by (bit_vector);
}

/// What was written as an eight-byte number is read back as that number.
pub proof fn lemma_read_u64(s: Seq<u8>, pos: int, x: u64)
    requires
        holds_at(s, pos, u64_bytes(x)),
    ensures
        u64_bytes(x).len() == 8,
        read_u64(s, pos) == Some((x, pos + 8)),
{
    lemma_auto_spec_u64_to_from_le_bytes();
}

/// What was written as a sixteen-byte number is read back as that number.
pub proof fn lemma_read_u128(s: Seq<u8>, pos: int, x: u128)
    requires
        holds_at(s, pos, u128_bytes(x)),
    ensures
        u128_bytes(x).len() == 16,
        read_u128(s, pos) == Some((x, pos + 16)),
{
    lemma_auto_spec_u128_to_from_le_bytes();
}

/// What was written as a byte string is read back as that byte string.
pub proof fn lemma_read_blob(s: Seq<u8>, pos: int, b: Seq<u8>)
    requires
        b.len() <= u64::MAX,
        holds_at(s, pos, blob_bytes(b)),
    ensures
        blob_bytes(b).len() == 8 + b.len(),
        read_blob(s, pos) == Some((b, pos + 8 + b.len())),
{
    lemma_auto_spec_u64_to_from_le_bytes();
    lemma_holds_at_concat(s, pos, u64_bytes(b.len() as u64), b);
    lemma_read_u64(s, pos, b.len() as u64);
}

/// What was written as a text is read back as that text.
pub proof fn lemma_read_text(s: Seq<u8>, pos: int, t: Seq<char>)
    requires
        encode_utf8(t).len() <= u64::MAX,
        holds_at(s, pos, text_bytes(t)),
    ensures
        text_bytes(t).len() == 8 + encode_utf8(t).len(),
        read_text(s, pos) == Some((t, pos + 8 + encode_utf8(t).len())),
{
    lemma_read_blob(s, pos, encode_utf8(t));
    encode_utf8_valid_utf8(t);
    encode_utf8_decode_utf8(t);
}

// ---------------------------------------------------------------------------
// What is read was written: a value is read only from its own bytes.
// ---------------------------------------------------------------------------

/// A four-byte number is read only from the bytes that it is written as.
pub proof fn lemma_u32_was_written(s: Seq<u8>, pos: int)
    requires
        read_u32(s, pos) is Some,
    ensures
        read_u32(s, pos)->Some_0.1 == pos + 4,
        u32_bytes(read_u32(s, pos)->Some_0.0).len() == 4,
        holds_at(s, pos, u32_bytes(read_u32(s, pos)->Some_0.0)),
{
    lemma_auto_spec_u32_to_from_le_bytes();
    let part = s.subrange(pos, pos + 4);
    assert(spec_u32_to_le_bytes(spec_u32_from_le_bytes(part)) == part);
}

/// A signed four-byte number is read only from the bytes that it is
/// written as.
pub proof fn lemma_i32_was_written(s: Seq<u8>, pos: int)
    requires
        read_i32(s, pos) is Some,
    ensures
        read_i32(s, pos)->Some_0.1 == pos + 4,
        i32_bytes(read_i32(s, pos)->Some_0.0).len() == 4,
        holds_at(s, pos, i32_bytes(read_i32(s, pos)->Some_0.0)),
{
    lemma_u32_was_written(s, pos);
    let x = read_u32(s, pos)->Some_0.0;
    assert((x as i32) as u32 == x) by (bit_vector);
}

/// An eight-byte number is read only from the bytes that it is written as.
pub proof fn lemma_u64_was_written(s: Seq<u8>, pos: int)
    requires
        read_u64(s, pos) is Some,
    ensures
        read_u64(s, pos)->Some_0.1 == pos + 8,
        u64_bytes(read_u64(s, pos)->Some_0.0).len() == 8,
        holds_at(s, pos, u64_bytes(read_u64(s, pos)->Some_0.0)),
{
    lemma_auto_spec_u64_to_from_le_bytes();
    let part = s.subrange(pos, pos + 8);
    assert(spec_u64_to_le_bytes(spec_u64_from_le_bytes(part)) == part);
}

/// A sixteen-byte number is read only from the bytes that it is written
/// as.
pub proof fn lemma_u128_was_written(s: Seq<u8>, pos: int)
    requires
        read_u128(s, pos) is Some,
    ensures
        read_u128(s, pos)->Some_0.1 == pos + 16,
        u128_bytes(read_u128(s, pos)->Some_0.0).len() == 16,
        holds_at(s, pos, u128_bytes(read_u128(s, pos)->Some_0.0)),
{
    lemma_auto_spec_u128_to_from_le_bytes();
    let part = s.subrange(pos, pos + 16);
    assert(spec_u128_to_le_bytes(spec_u128_from_le_bytes(part)) == part);
}

/// A byte string is read only from the bytes that it is written as.
pub proof fn lemma_blob_was_written(s: Seq<u8>, pos: int)
    requires
        read_blob(s, pos) is Some,
    ensures
        read_blob(s, pos)->Some_0.1 == pos + blob_bytes(read_blob(s, pos)->Some_0.0).len(),
        holds_at(s, pos, blob_bytes(read_blob(s, pos)->Some_0.0)),
        read_blob(s, pos)->Some_0.0.len() <= u64::MAX,
{
    lemma_u64_was_written(s, pos);
    let n = read_u64(s, pos)->Some_0.0;
    let b = read_blob(s, pos)->Some_0.0;
    assert(b.len() == n);
    assert(b.len() as u64 == n);
    assert(u64_bytes(n).len() == 8);
    assert(blob_bytes(b) == u64_bytes(n) + b);
    assert(holds_at(s, pos + 8, b));
    lemma_holds_at_concat(s, pos, u64_bytes(n), b);
}

/// A text is read only from the bytes that it is written as.
pub proof fn lemma_text_was_written(s: Seq<u8>, pos: int)
    requires
        read_text(s, pos) is Some,
    ensures
        read_text(s, pos)->Some_0.1 == pos + text_bytes(read_text(s, pos)->Some_0.0).len(),
        holds_at(s, pos, text_bytes(read_text(s, pos)->Some_0.0)),
        encode_utf8(read_text(s, pos)->Some_0.0).len() <= u64::MAX,
{
    lemma_blob_was_written(s, pos);
    decode_utf8_encode_utf8(read_blob(s, pos)->Some_0.0);
}

/// Bytes that are all of one part are that part.
pub proof fn lemma_holds_whole(s: Seq<u8>, part: Seq<u8>)
    requires
        holds_at(s, 0, part),
        part.len() == s.len(),
    ensures
        s == part,
{
    assert(s.subrange(0, s.len() as int) =~= s);
}

// ---------------------------------------------------------------------------
// Writing
// ---------------------------------------------------------------------------

/// Appends a signed four-byte number.
pub(crate) fn put_i32(out: &mut Vec<u8>, x: i32)
    ensures
        final(out)@ == old(out)@ + i32_bytes(x),
{
    let mut bytes = u32_to_le_bytes(#[verifier::truncate] (x as u32));
    out.append(&mut bytes);
}

/// Appends an eight-byte number.
pub(crate) fn put_u64(out: &mut Vec<u8>, x: u64)
    ensures
        final(out)@ == old(out)@ + u64_bytes(x),
{
    let mut bytes = u64_to_le_bytes(x);
    out.append(&mut bytes);
}

/// Appends a sixteen-byte number.
pub(crate) fn put_u128(out: &mut Vec<u8>, x: u128)
    ensures
        final(out)@ == old(out)@ + u128_bytes(x),
{
    let mut bytes = u128_to_le_bytes(x);
    out.append(&mut bytes);
}

/// Appends a byte string behind its length.
pub(crate) fn put_blob(out: &mut Vec<u8>, b: &[u8])
    ensures
        final(out)@ == old(out)@ + blob_bytes(b@),
        b@.len() <= usize::MAX,
{
    put_u64(out, b.len() as u64);
    let mut bytes = slice_to_vec(b);
    out.append(&mut bytes);
    assert(out@ =~= old(out)@ + blob_bytes(b@));
}

/// Appends a text as the byte string of its UTF-8 form.
pub(crate) fn put_text(out: &mut Vec<u8>, s: &str)
    ensures
        final(out)@ == old(out)@ + text_bytes(s@),
        encode_utf8(s@).len() <= usize::MAX,
{
    put_blob(out, s.as_bytes());
}

// ---------------------------------------------------------------------------
// Reading
// ---------------------------------------------------------------------------

/// Whether an executable read gave what the layout says stands at `pos`.
pub open spec fn read_as<T>(got: Option<(T, usize)>, want: Option<(T, int)>) -> bool {
    match got {
        Some((v, next)) => want == Some((v, next as int)),
        None => want is None,
    }
}

/// Reads a signed four-byte number at `pos`.
pub(crate) fn get_i32(buf: &[u8], pos: usize) -> (r: Option<(i32, usize)>)
    ensures
        read_as(r, read_i32(buf@, pos as int)),
        r matches Some((_, next)) ==> pos < next <= buf@.len(),
{
    if pos > buf.len() || buf.len() - pos < 4 {
        return None;
    }
    let x = u32_from_le_bytes(slice_subrange(buf, pos, pos + 4));
    Some((#[verifier::truncate] (x as i32), pos + 4))
}

/// Reads an eight-byte number at `pos`.
pub(crate) fn get_u64(buf: &[u8], pos: usize) -> (r: Option<(u64, usize)>)
    ensures
        read_as(r, read_u64(buf@, pos as int)),
        r matches Some((_, next)) ==> pos < next <= buf@.len(),
{
    if pos > buf.len() || buf.len() - pos < 8 {
        return None;
    }
    let x = u64_from_le_bytes(slice_subrange(buf, pos, pos + 8));
    Some((x, pos + 8))
}

/// Reads a sixteen-byte number at `pos`.
pub(crate) fn get_u128(buf: &[u8], pos: usize) -> (r: Option<(u128, usize)>)
    ensures
        read_as(r, read_u128(buf@, pos as int)),
        r matches Some((_, next)) ==> pos < next <= buf@.len(),
{
    if pos > buf.len() || buf.len() - pos < 16 {
        return None;
    }
    let x = u128_from_le_bytes(slice_subrange(buf, pos, pos + 16));
    Some((x, pos + 16))
}

/// Reads a length-prefixed byte string at `pos`.
pub(crate) fn get_blob(buf: &[u8], pos: usize) -> (r: Option<(Vec<u8>, usize)>)
    ensures
        match r {
            Some((b, next)) => read_blob(buf@, pos as int) == Some((b@, next as int)),
            None => read_blob(buf@, pos as int) is None,
        },
        r matches Some((_, next)) ==> pos < next <= buf@.len(),
{
    match get_u64(buf, pos) {
        None => None,
        Some((len, start)) => {
            if len > (buf.len() - start) as u64 {
                return None;
            }
            let end = start + len as usize;
            Some((slice_to_vec(slice_subrange(buf, start, end)), end))
        },
    }
}

/// `String::from_utf8`: well-formed UTF-8 gives the text that those bytes
/// encode, anything else gives nothing.
#[verifier::external_body]
pub(crate) fn text_from_utf8(bytes: Vec<u8>) -> (r: Option<String>)
    ensures
        valid_utf8(bytes@) <==> r is Some,
        r matches Some(s) ==> s@ == decode_utf8(bytes@),
{
    String::from_utf8(bytes).ok()
}

/// Reads a text at `pos`.
pub(crate) fn get_text(buf: &[u8], pos: usize) -> (r: Option<(String, usize)>)
    ensures
        match r {
            Some((s, next)) => read_text(buf@, pos as int) == Some((s@, next as int)),
            None => read_text(buf@, pos as int) is None,
        },
        r matches Some((_, next)) ==> pos < next <= buf@.len(),
{
    match get_blob(buf, pos) {
        None => None,
        Some((bytes, next)) => match text_from_utf8(bytes) {
            None => None,
            Some(s) => Some((s, next)),
        },
    }
}

} // verus!
