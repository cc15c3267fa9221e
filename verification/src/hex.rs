//! Hexadecimal text.

use vstd::prelude::*;
use vstd::utf8::{encode_utf8, is_ascii_chars, is_ascii_chars_encode_utf8, is_char_boundary};
use crate::number::NumberError;
use crate::text::{decimal, push_decimal, push_text};

verus! {

/// The lower-case hexadecimal digit for a value.
pub open spec fn hex_char(d: int) -> char {
    if d < 10 {
        (48 + d) as char
    } else {
        (87 + d) as char
    }
}

/// Two lower-case digits per byte.
pub open spec fn hex_text(bytes: Seq<u8>) -> Seq<char> {
    Seq::new(
        2 * bytes.len(),
        |j: int| hex_char(if j % 2 == 0 { bytes[j / 2] as int / 16 } else { bytes[j / 2] as int % 16 }),
    )
}

/// The lower-case hexadecimal digit for a value.
fn nibble(d: u8) -> (c: char)
    requires
        d < 16,
    ensures
        c == hex_char(d as int),
{
    if d < 10 {
        (48 + d) as char
    } else {
        (87 + d) as char
    }
}

/// Writes bytes as lower-case hexadecimal digits.
pub fn hex_encode(bytes: &[u8]) -> (text: String)
    ensures
        text@ == hex_text(bytes@),
        text@.len() == 2 * bytes@.len(),
        forall|i: int|
            0 <= i < bytes@.len() ==> text@[2 * i] == "0123456789abcdef"@[#[trigger] bytes@[i] as int / 16]
                && text@[2 * i + 1] == "0123456789abcdef"@[bytes@[i] as int % 16],
{
    proof {
        law_hex_digits(bytes@);
    }
    let mut text = String::new();
    for i in 0..bytes.len()
        invariant
            text@ == hex_text(bytes@).take(2 * i),
    {
        let b: u8 = bytes[i];
        text.push(nibble(b / 16));
        text.push(nibble(b % 16));
        proof {
            let all = hex_text(bytes@);
            assert(all.take(2 * (i + 1)) =~= all.take(2 * i).push(all[2 * i as int]).push(all[2 * i + 1]));
        }
    }
    proof {
        assert(hex_text(bytes@).take(2 * bytes@.len() as int) =~= hex_text(bytes@));
    }
    text
}

/// The text of bytes has two digits for each, the upper half first, from the sixteen
/// lower-case digits in their order.
pub proof fn law_hex_digits(bytes: Seq<u8>)
    ensures
        hex_text(bytes).len() == 2 * bytes.len(),
        forall|i: int|
            0 <= i < bytes.len() ==> hex_text(bytes)[2 * i] == "0123456789abcdef"@[#[trigger] bytes[i] as int
                / 16] && hex_text(bytes)[2 * i + 1] == "0123456789abcdef"@[bytes[i] as int % 16],
{
    reveal_strlit("0123456789abcdef");
}

/// The value of a hexadecimal digit of either case.
pub open spec fn digit_value(b: u8) -> Option<int> {
    if 48 <= b <= 57 {
        Some(b - 48)
    } else if 97 <= b <= 102 {
        Some(b - 87)
    } else if 65 <= b <= 70 {
        Some(b - 55)
    } else {
        None
    }
}

/// The value of a pair of characters read as one hexadecimal number: two digits, or a plus
/// sign and one digit.
pub open spec fn pair_value(a: u8, b: u8) -> Option<int> {
    match digit_value(b) {
        None => None,
        Some(low) => if a == 43 {
            Some(low)
        } else {
            match digit_value(a) {
                None => None,
                Some(high) => Some(16 * high + low),
            }
        },
    }
}

/// The number of the first pair from `from` on that has no value; the number of pairs if
/// every one has.
pub open spec fn first_bad_pair(b: Seq<u8>, from: int) -> int
    decreases b.len() - from,
{
    if 2 * from + 1 >= b.len() || from < 0 {
        b.len() as int / 2
    } else if pair_value(b[2 * from], b[2 * from + 1]) is None {
        from
    } else {
        first_bad_pair(b, from + 1)
    }
}

/// The values of all pairs, 0 for a pair that has none.
pub open spec fn pair_bytes(b: Seq<u8>) -> Seq<u8> {
    Seq::new(
        b.len() / 2,
        |i: int|
            match pair_value(b[2 * i], b[2 * i + 1]) {
                Some(v) => v as u8,
                None => 0u8,
            },
    )
}

/// Message for a pair without a value.
pub open spec fn bad_pair_message(offset: nat) -> Seq<char> {
    "Invalid hex at "@ + decimal(offset) + ": "@ + NumberError::InvalidDigit.words()
}

/// The pairs of characters up to the first without a value can be cut out of the text: the
/// cut behind that one falls between two characters.
pub open spec fn pairs_cut(text: Seq<char>) -> bool {
    let b = encode_utf8(text);
    let bad = first_bad_pair(b, 0);
    b.len() % 2 == 0 && 2 * bad < b.len() ==> is_char_boundary(b, 2 * bad + 2)
}

/// Every pair of characters can be cut out of the text.
pub open spec fn all_pairs_cut(text: Seq<char>) -> bool {
    let b = encode_utf8(text);
    &&& b.len() % 2 == 0
    &&& forall|i: int| 0 <= 2 * i <= b.len() ==> #[trigger] is_char_boundary(b, 2 * i)
}

fn hex_digit(b: u8) -> (d: Option<u8>)
    ensures
        match digit_value(b) {
            Some(v) => d is Some && d->0 == v && v < 16,
            None => d is None,
        },
{
    if 48 <= b && b <= 57 {
        Some(b - 48)
    } else if 97 <= b && b <= 102 {
        Some(b - 87)
    } else if 65 <= b && b <= 70 {
        Some(b - 55)
    } else {
        None
    }
}

fn hex_pair(a: u8, b: u8) -> (v: Option<u8>)
    ensures
        match pair_value(a, b) {
            Some(n) => v is Some && v->0 == n && n < 256,
            None => v is None,
        },
{
    match hex_digit(b) {
        None => None,
        Some(low) => if a == 43 {
            Some(low)
        } else {
            match hex_digit(a) {
                None => None,
                Some(high) => Some(16 * high + low),
            }
        },
    }
}

/// What hexadecimal text stands for, or the message for text that is none.
pub open spec fn hex_decoded(text: Seq<char>) -> Result<Seq<u8>, Seq<char>> {
    let b = encode_utf8(text);
    let bad = first_bad_pair(b, 0);
    if b.len() % 2 != 0 {
        Err("Hex string has odd length"@)
    } else if 2 * bad < b.len() {
        Err(bad_pair_message(2 * bad as nat))
    } else {
        Ok(pair_bytes(b))
    }
}

/// Reads hexadecimal text, two characters per byte.
pub fn hex_decode(hex: &str) -> (result: Result<Vec<u8>, String>)
    requires
        pairs_cut(hex@),
    ensures
        match hex_decoded(hex@) {
            Ok(bytes) => result is Ok && result->Ok_0@ == bytes,
            Err(message) => result is Err && result->Err_0@ == message,
        },
{
    let b = hex.as_bytes();
    if b.len() % 2 != 0 {
        return Err("Hex string has odd length".to_string());
    }
    let len: usize = b.len();
    let n: usize = len / 2;
    let mut out: Vec<u8> = Vec::new();
    for i in 0..n
        invariant
            b@ == encode_utf8(hex@),
            b@.len() == len == 2 * n,
            out@ == pair_bytes(b@).take(i as int),
            first_bad_pair(b@, 0) == first_bad_pair(b@, i as int),
    {
        match hex_pair(b[2 * i], b[2 * i + 1]) {
            Some(v) => {
                out.push(v);
                proof {
                    assert(pair_bytes(b@).take(i + 1) =~= pair_bytes(b@).take(i as int).push(v));
                }
            },
            None => {
                let mut message = String::new();
                push_text(&mut message, "Invalid hex at ");
                push_decimal(&mut message, (2 * i) as u64);
                push_text(&mut message, ": ");
                NumberError::InvalidDigit.push_words(&mut message);
                proof {
                    assert(message@ =~= bad_pair_message(2 * i as nat));
                }
                return Err(message);
            },
        }
    }
    proof {
        assert(pair_bytes(b@).take(n as int) =~= pair_bytes(b@));
    }
    Ok(out)
}

/// The first 32 bytes of `bytes`, filled up with zeros.
pub open spec fn padded32(bytes: Seq<u8>) -> Seq<u8> {
    Seq::new(32, |i: int| if i < bytes.len() { bytes[i] } else { 0u8 })
}

/// Tells whether the pairs of characters that decoding looks at can be cut out of the text.
pub fn cuts_pairs(hex: &str) -> (b: bool)
    ensures
        b == pairs_cut(hex@),
{
    let b = hex.as_bytes();
    if b.len() % 2 != 0 {
        return true;
    }
    let len: usize = b.len();
    let n: usize = len / 2;
    for i in 0..n
        invariant
            b@ == encode_utf8(hex@),
            b@.len() == len,
            len % 2 == 0,
            n == len / 2,
            first_bad_pair(b@, 0) == first_bad_pair(b@, i as int),
    {
        if hex_pair(b[2 * i], b[2 * i + 1]).is_none() {
            return hex.is_char_boundary(2 * i + 2);
        }
    }
    true
}

/// Reads up to 32 bytes of hexadecimal text; what is no number counts as zero.
pub fn hex_to_bytes32(hex: &str) -> (out: [u8; 32])
    requires
        all_pairs_cut(hex@),
    ensures
        out@ == padded32(pair_bytes(encode_utf8(hex@))),
{
    let mut out: [u8; 32] = [0u8; 32];
    let b = hex.as_bytes();
    let n: usize = if b.len() / 2 < 32 { b.len() / 2 } else { 32 };
    for i in 0..n
        invariant
            b@ == encode_utf8(hex@),
            n <= 32,
            n <= b@.len() / 2,
            forall|j: int| 0 <= j < i ==> out@[j] == pair_bytes(b@)[j],
            forall|j: int| i <= j < 32 ==> out@[j] == 0,
    {
        out[i] = match hex_pair(b[2 * i], b[2 * i + 1]) {
            Some(v) => v,
            None => 0,
        };
    }
    proof {
        assert(out@ =~= padded32(pair_bytes(b@)));
    }
    out
}

/// Writes 32 bytes as lower-case hexadecimal digits.
pub fn bytes32_to_hex(bytes: &[u8; 32]) -> (text: String)
    ensures
        text@ == hex_text(bytes@),
{
    hex_encode(bytes.as_slice())
}

/// ASCII text can be cut anywhere.
pub proof fn law_ascii_pairs_cut(text: Seq<char>)
    requires
        is_ascii_chars(text),
    ensures
        pairs_cut(text),
        text.len() % 2 == 0 ==> all_pairs_cut(text),
{
    let b = encode_utf8(text);
    is_ascii_chars_encode_utf8(text);
    vstd::utf8::encode_utf8_valid_utf8(text);
    vstd::utf8::is_char_boundary_start_end_of_seq(b);
    assert forall|i: int| 0 <= i <= b.len() implies #[trigger] is_char_boundary(b, i) by {
        if i < b.len() {
            assert(text[i] as u8 == b[i]);
            vstd::utf8::is_char_boundary_iff_not_is_continuation_byte(b, i);
        }
    }
    lemma_first_bad_pair_range(b, 0);
}

proof fn lemma_first_bad_pair_range(b: Seq<u8>, from: int)
    requires
        0 <= from <= b.len() / 2,
    ensures
        from <= first_bad_pair(b, from) <= b.len() / 2,
        forall|i: int|
            from <= i < first_bad_pair(b, from) ==> pair_value(
                #[trigger] b[2 * i],
                b[2 * i + 1],
            ) is Some,
        2 * first_bad_pair(b, from) + 1 < b.len() ==> pair_value(
            b[2 * first_bad_pair(b, from)],
            b[2 * first_bad_pair(b, from) + 1],
        ) is None,
    decreases b.len() - from,
{
    if 2 * from + 1 < b.len() && pair_value(b[2 * from], b[2 * from + 1]) is Some {
        lemma_first_bad_pair_range(b, from + 1);
    }
}

proof fn lemma_hex_char(d: int)
    requires
        0 <= d < 16,
    ensures
        hex_char(d) <= '\u{7f}',
        digit_value(hex_char(d) as u8) == Some(d),
        hex_char(d) as u8 != 43,
{
}

/// Hexadecimal text is ASCII and reads back as the bytes that it was written from.
pub proof fn law_hex_round_trip(bytes: Seq<u8>)
    ensures
        is_ascii_chars(hex_text(bytes)),
        pairs_cut(hex_text(bytes)),
        all_pairs_cut(hex_text(bytes)),
        pair_bytes(encode_utf8(hex_text(bytes))) == bytes,
        hex_decoded(hex_text(bytes)) == Ok::<Seq<u8>, Seq<char>>(bytes),
{
    let t = hex_text(bytes);
    assert forall|j: int| 0 <= j < t.len() implies '\0' <= #[trigger] t[j] <= '\u{7f}' by {
        lemma_hex_char(bytes[j / 2] as int / 16);
        lemma_hex_char(bytes[j / 2] as int % 16);
    }
    law_ascii_pairs_cut(t);
    is_ascii_chars_encode_utf8(t);
    let b = encode_utf8(t);
    assert forall|i: int| 0 <= i < bytes.len() implies pair_value(#[trigger] b[2 * i], b[2 * i + 1])
        == Some(bytes[i] as int) by {
        lemma_hex_char(bytes[i] as int / 16);
        lemma_hex_char(bytes[i] as int % 16);
        assert(t[2 * i] as u8 == b[2 * i]);
        assert(t[2 * i + 1] as u8 == b[2 * i + 1]);
    }
    lemma_first_bad_pair_range(b, 0);
    assert(pair_bytes(b) =~= bytes);
}

/// A lower-case hexadecimal digit.
pub open spec fn is_lower_hex(c: char) -> bool {
    '0' <= c <= '9' || 'a' <= c <= 'f'
}

/// A checksum text: 64 lower-case digits.
pub open spec fn is_checksum(text: Seq<char>) -> bool {
    &&& text.len() == 64
    &&& forall|i: int| 0 <= i < 64 ==> is_lower_hex(#[trigger] text[i])
}

/// A checksum text survives the way to 32 bytes and back.
pub proof fn law_checksum_round_trip(text: Seq<char>)
    requires
        is_checksum(text),
    ensures
        all_pairs_cut(text),
        hex_text(padded32(pair_bytes(encode_utf8(text)))) == text,
{
    assert(is_ascii_chars(text));
    law_ascii_pairs_cut(text);
    is_ascii_chars_encode_utf8(text);
    let b = encode_utf8(text);
    let bytes = padded32(pair_bytes(b));
    assert forall|j: int| 0 <= j < 64 implies hex_text(bytes)[j] == text[j] by {
        let i = j / 2;
        assert(is_lower_hex(text[2 * i]) && is_lower_hex(text[2 * i + 1]));
        assert(text[2 * i] as u8 == b[2 * i]);
        assert(text[2 * i + 1] as u8 == b[2 * i + 1]);
        let high = digit_value(b[2 * i])->0;
        let low = digit_value(b[2 * i + 1])->0;
        assert(bytes[i] == 16 * high + low);
        assert(bytes[i] as int / 16 == high);
        assert(bytes[i] as int % 16 == low);
    }
    assert(hex_text(bytes) =~= text);
}

/// The text of 32 bytes is a checksum text.
pub proof fn law_hex_text_is_checksum(bytes: Seq<u8>)
    requires
        bytes.len() == 32,
    ensures
        is_checksum(hex_text(bytes)),
{
    assert forall|i: int| 0 <= i < 64 implies is_lower_hex(#[trigger] hex_text(bytes)[i]) by {
        lemma_hex_char(bytes[i / 2] as int / 16);
        lemma_hex_char(bytes[i / 2] as int % 16);
    }
}

/// The worth of a hexadecimal digit of either case.
pub open spec fn digit_worth(c: char) -> int {
    if c <= '9' {
        c as int - '0' as int
    } else if c <= 'F' {
        10 + (c as int - 'A' as int)
    } else {
        10 + (c as int - 'a' as int)
    }
}

/// A character is a hexadecimal digit of either case.
pub open spec fn is_hex_digit(c: char) -> bool {
    '0' <= c <= '9' || 'A' <= c <= 'F' || 'a' <= c <= 'f'
}

/// Hexadecimal digits of either case are read in pairs, the upper half first, up to the first
/// pair that has another character; that pair is the error, with its place. A pair is more
/// than its digits only in that the first of them may be a plus sign.
pub proof fn law_hex_reads_pairs(text: Seq<char>, good: int)
    requires
        is_ascii_chars(text),
        text.len() % 2 == 0,
        0 <= good <= text.len() / 2,
        forall|j: int| 0 <= j < 2 * good ==> is_hex_digit(#[trigger] text[j]),
        2 * good < text.len() ==> !is_hex_digit(text[2 * good + 1]) || !is_hex_digit(text[2 * good])
            && text[2 * good] != '+',
    ensures
        2 * good == text.len() ==> {
            &&& hex_decoded(text) is Ok
            &&& hex_decoded(text)->Ok_0.len() == good
            &&& forall|i: int|
                0 <= i < good ==> #[trigger] hex_decoded(text)->Ok_0[i] == 16 * digit_worth(text[2 * i])
                    + digit_worth(text[2 * i + 1])
        },
        2 * good < text.len() ==> hex_decoded(text) == Err::<Seq<u8>, Seq<char>>(
            "Invalid hex at "@ + decimal((2 * good) as nat) + ": "@ + "invalid digit found in string"@,
        ),
{
    let b = encode_utf8(text);
    is_ascii_chars_encode_utf8(text);
    lemma_pairs_up_to(text, b, 0, good);
    if 2 * good == text.len() {
        assert forall|i: int| 0 <= i < good implies #[trigger] hex_decoded(text)->Ok_0[i] == 16
            * digit_worth(text[2 * i]) + digit_worth(text[2 * i + 1]) by {
            lemma_digit_worth(text, b, 2 * i);
            lemma_digit_worth(text, b, 2 * i + 1);
        }
    }
}

proof fn lemma_digit_worth(text: Seq<char>, b: Seq<u8>, j: int)
    requires
        is_ascii_chars(text),
        b.len() == text.len(),
        0 <= j < text.len(),
        text[j] as u8 == b[j],
    ensures
        is_hex_digit(text[j]) ==> digit_value(b[j]) == Some(digit_worth(text[j])) && 0 <= digit_worth(
            text[j],
        ) < 16 && b[j] != 43,
        !is_hex_digit(text[j]) ==> digit_value(b[j]) is None,
        b[j] == 43 <==> text[j] == '+',
{
    assert('\0' <= text[j] <= '\u{7f}');
}

proof fn lemma_pairs_up_to(text: Seq<char>, b: Seq<u8>, from: int, good: int)
    requires
        is_ascii_chars(text),
        b.len() == text.len(),
        text.len() % 2 == 0,
        forall|i: int| 0 <= i < text.len() ==> text[i] as u8 == #[trigger] b[i],
        0 <= from <= good <= text.len() / 2,
        forall|j: int| 0 <= j < 2 * good ==> is_hex_digit(#[trigger] text[j]),
        2 * good < text.len() ==> !is_hex_digit(text[2 * good + 1]) || !is_hex_digit(text[2 * good])
            && text[2 * good] != '+',
    ensures
        first_bad_pair(b, from) == good,
    decreases good - from,
{
    if 2 * from + 1 < b.len() {
        assert(text[2 * from] as u8 == b[2 * from]);
        assert(text[2 * from + 1] as u8 == b[2 * from + 1]);
        lemma_digit_worth(text, b, 2 * from);
        lemma_digit_worth(text, b, 2 * from + 1);
        if from < good {
            lemma_pairs_up_to(text, b, from + 1, good);
        }
    }
}

/// Thirty-two bytes written in hexadecimal are read as they were, and text of another length is
/// cut off or filled up with zero bytes.
pub proof fn law_checksum_bytes(bytes: Seq<u8>)
    ensures
        padded32(pair_bytes(encode_utf8(hex_text(bytes)))).len() == 32,
        forall|i: int|
            0 <= i < 32 ==> #[trigger] padded32(pair_bytes(encode_utf8(hex_text(bytes))))[i] == if i
                < bytes.len() {
                bytes[i]
            } else {
                0u8
            },
        bytes.len() == 32 ==> padded32(pair_bytes(encode_utf8(hex_text(bytes)))) == bytes,
{
    law_hex_round_trip(bytes);
    if bytes.len() == 32 {
        assert(padded32(bytes) =~= bytes);
    }
}

} // verus!
