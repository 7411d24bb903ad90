use vstd::prelude::*;
use vstd::string::*;
use vstd::utf8::{encode_utf8, is_ascii_chars, is_ascii_chars_encode_utf8};

verus! {

/// The lowercase hexadecimal digit of a value below 16.
pub open spec fn hex_char(nibble: int) -> char {
    if nibble == 0 {
        '0'
    } else if nibble == 1 {
        '1'
    } else if nibble == 2 {
        '2'
    } else if nibble == 3 {
        '3'
    } else if nibble == 4 {
        '4'
    } else if nibble == 5 {
        '5'
    } else if nibble == 6 {
        '6'
    } else if nibble == 7 {
        '7'
    } else if nibble == 8 {
        '8'
    } else if nibble == 9 {
        '9'
    } else if nibble == 10 {
        'a'
    } else if nibble == 11 {
        'b'
    } else if nibble == 12 {
        'c'
    } else if nibble == 13 {
        'd'
    } else if nibble == 14 {
        'e'
    } else {
        'f'
    }
}

/// The lowercase hexadecimal text of a byte string: two digits per byte,
/// the high half first.
pub open spec fn hex(bytes: Seq<u8>) -> Seq<char> {
    Seq::new(
        2 * bytes.len(),
        |i: int| if i % 2 == 0 {
            hex_char(bytes[i / 2] as int / 16)
        } else {
            hex_char(bytes[i / 2] as int % 16)
        },
    )
}

/// Hexadecimal text is ASCII: its UTF-8 form has one byte per digit.
pub proof fn lemma_hex_len(bytes: Seq<u8>)
    ensures
        hex(bytes).len() == 2 * bytes.len(),
        is_ascii_chars(hex(bytes)),
        encode_utf8(hex(bytes)).len() == 2 * bytes.len(),
{
    assert(is_ascii_chars(hex(bytes))) by {
        assert forall|i: int| 0 <= i < hex(bytes).len() implies '\0' <= #[trigger] hex(bytes)[i]
            <= '\u{7f}' by {
            let b = bytes[i / 2] as int;
            assert(0 <= b / 16 < 16);
            assert(0 <= b % 16 < 16);
        }
    }
    is_ascii_chars_encode_utf8(hex(bytes));
}

/// The text of one hexadecimal digit.
fn digit_text(nibble: u8) -> (text: &'static str)
    requires
        nibble < 16,
    ensures
        text@ == seq![hex_char(nibble as int)],
{
    proof {
        reveal_strlit("0");
        reveal_strlit("1");
        reveal_strlit("2");
        reveal_strlit("3");
        reveal_strlit("4");
        reveal_strlit("5");
        reveal_strlit("6");
        reveal_strlit("7");
        reveal_strlit("8");
        reveal_strlit("9");
        reveal_strlit("a");
        reveal_strlit("b");
        reveal_strlit("c");
        reveal_strlit("d");
        reveal_strlit("e");
        reveal_strlit("f");
    }
    let text = match nibble {
        0 => "0",
        1 => "1",
        2 => "2",
        3 => "3",
        4 => "4",
        5 => "5",
        6 => "6",
        7 => "7",
        8 => "8",
        9 => "9",
        10 => "a",
        11 => "b",
        12 => "c",
        13 => "d",
        14 => "e",
        _ => "f",
    };
    assert(text@ =~= seq![hex_char(nibble as int)]);
    text
}

/// Writes a byte string as lowercase hexadecimal text.
pub fn to_hex(bytes: &[u8]) -> (text: String)
    ensures
        text@ == hex(bytes@),
{
    let mut text = String::new();
    let mut i: usize = 0;
    while i < bytes.len()
        invariant
            i <= bytes.len(),
            text@ == hex(bytes@.subrange(0, i as int)),
        decreases bytes.len() - i,
    {
        let b: u8 = bytes[i];
        let ghost before = text@;
        text.append(digit_text(b / 16));
        text.append(digit_text(b % 16));
        proof {
            let done = bytes@.subrange(0, i as int);
            let next = bytes@.subrange(0, i + 1);
            assert(text@ =~= hex(next)) by {
                assert(forall|j: int| 0 <= j < i ==> next[j] == done[j]);
                assert(next[i as int] == b);
            }
        }
        i += 1;
    }
    assert(bytes@.subrange(0, i as int) =~= bytes@);
    text
}

} // verus!
