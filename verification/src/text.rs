//! Text on the way to the display: decimal labels, hexadecimal strings, and
//! the step from staged bytes to string slices.

use crate::bytes::move_to_front;
use crate::error::ErrorCode;
use crate::numeral::{decimal_text, digits10};
use vstd::prelude::*;
use vstd::string::StringSliceAdditionalSpecFns;
use vstd::utf8::{
    encode_utf8, encode_utf8_decode_utf8, encode_utf8_valid_utf8, is_ascii_chars,
    is_ascii_chars_encode_utf8, valid_utf8,
};

verus! {

/// Whether every byte is an ASCII character.
pub open spec fn is_ascii_bytes(bytes: Seq<u8>) -> bool {
    forall|i: int| 0 <= i < bytes.len() ==> bytes[i] < 128
}

/// The characters that ASCII bytes stand for.
pub open spec fn ascii_text(bytes: Seq<u8>) -> Seq<char> {
    Seq::new(bytes.len(), |i: int| bytes[i] as char)
}

/// ASCII bytes are valid UTF-8, and the only text that they encode is
/// their own characters.
pub proof fn lemma_ascii_is_utf8(bytes: Seq<u8>)
    requires
        is_ascii_bytes(bytes),
    ensures
        valid_utf8(bytes),
        encode_utf8(ascii_text(bytes)) == bytes,
        forall|chars: Seq<char>| encode_utf8(chars) == bytes ==> chars == ascii_text(bytes),
{
    let text = ascii_text(bytes);
    assert(is_ascii_chars(text)) by {
        assert forall|i: int| 0 <= i < text.len() implies '\0' <= #[trigger] text[i]
            <= '\u{7f}' by {
            assert(bytes[i] < 128);
        }
    }
    is_ascii_chars_encode_utf8(text);
    assert(encode_utf8(text) =~= bytes) by {
        assert forall|i: int| 0 <= i < text.len() implies encode_utf8(text)[i] == bytes[i] by {
            assert(text[i] as u8 == encode_utf8(text)[i]);
        }
    }
    encode_utf8_valid_utf8(text);
    assert forall|chars: Seq<char>| encode_utf8(chars) == bytes implies chars == text by {
        encode_utf8_decode_utf8(chars);
        encode_utf8_decode_utf8(text);
    }
}

/// The standard library's `core::str::from_utf8`, with its error dropped.
/// The contract says what the standard library documents: the call succeeds
/// exactly on well-formed UTF-8, and the string slice it returns is made of
/// the very bytes that it was given.
#[verifier::external_body]
fn utf8_text(bytes: &[u8]) -> (text: Option<&str>)
    ensures
        text is Some <==> valid_utf8(bytes@),
        text matches Some(s) ==> s.spec_bytes() == bytes@,
{
    core::str::from_utf8(bytes).ok()
}

/// The text that `bytes` encode, or `InternalError` when they are not
/// well-formed UTF-8. ASCII bytes always give their own characters.
pub fn bytes_to_string(bytes: &[u8]) -> (text: Result<&str, ErrorCode>)
    ensures
        text is Ok <==> valid_utf8(bytes@),
        text matches Ok(s) ==> encode_utf8(s@) == bytes@,
        text matches Err(e) ==> e == ErrorCode::InternalError,
        is_ascii_bytes(bytes@) ==> (text matches Ok(s) && s@ == ascii_text(bytes@)),
{
    proof {
        if is_ascii_bytes(bytes@) {
            lemma_ascii_is_utf8(bytes@);
        }
    }
    match utf8_text(bytes) {
        Some(s) => Ok(s),
        None => Err(ErrorCode::InternalError),
    }
}

/// The lower-case hexadecimal digit for a value below 16.
pub open spec fn hex_char(nibble: u8) -> u8 {
    if nibble < 10 {
        (48 + nibble) as u8
    } else {
        (87 + nibble) as u8
    }
}

/// `bytes` in lower-case hexadecimal, two characters for each byte.
pub open spec fn hex_text(bytes: Seq<u8>) -> Seq<u8> {
    Seq::new(
        2 * bytes.len(),
        |i: int|
            if i % 2 == 0 {
                hex_char(bytes[i / 2] / 16)
            } else {
                hex_char(bytes[i / 2] % 16)
            },
    )
}

/// The 32 bytes in lower-case hexadecimal.
pub fn to_hex(bytes: &[u8; 32]) -> (hex: [u8; 64])
    ensures
        hex@ == hex_text(bytes@),
{
    let mut hex = [0u8; 64];
    let mut i: usize = 0;
    while i < 32
        invariant
            i <= 32,
            forall|k: int| 0 <= k < 2 * i ==> hex@[k] == hex_text(bytes@)[k],
        decreases 32 - i,
    {
        let high: u8 = bytes[i] / 16;
        let low: u8 = bytes[i] % 16;
        hex[2 * i] = if high < 10 {
            48 + high
        } else {
            87 + high
        };
        hex[2 * i + 1] = if low < 10 {
            48 + low
        } else {
            87 + low
        };
        i += 1;
    }
    assert(hex@ =~= hex_text(bytes@));
    hex
}

/// Writes `index` in decimal to the front of `output` and returns the
/// digits, or `None` when `output` is shorter than they are.
pub fn index_to_str<'a>(index: usize, output: &'a mut [u8]) -> (text: Option<&'a [u8]>)
    ensures
        text is Some <==> decimal_text(index as nat).len() <= old(output)@.len(),
        text matches Some(t) ==> t@ == decimal_text(index as nat) && final(output)@.take(
            t@.len() as int,
        ) == t@,
        final(output)@.len() == old(output)@.len(),
{
    let total: usize = output.len();
    if total == 0 {
        return None;
    }
    if index == 0 {
        output[0] = 48u8;
        assert(output@.take(1) =~= seq![48u8]);
        assert(output@.subrange(0, 1) =~= seq![48u8]);
        return Some(&output[0..1]);
    }
    let mut v: usize = index;
    let mut at: usize = total;
    assert(output@.subrange(at as int, total as int) =~= Seq::<u8>::empty());
    assert(digits10(index as nat) + Seq::<u8>::empty() =~= digits10(index as nat));
    while v > 0
        invariant
            total == output@.len(),
            output@.len() == old(output)@.len(),
            at <= total,
            index > 0,
            digits10(index as nat) == digits10(v as nat) + output@.subrange(
                at as int,
                total as int,
            ),
        decreases v,
    {
        if at == 0 {
            return None;
        }
        at -= 1;
        let ghost emitted = output@.subrange(at + 1, total as int);
        let digit: u8 = (v % 10) as u8;
        output[at] = 48u8 + digit;
        proof {
            assert(output@.subrange(at as int, total as int) =~= seq![(48 + digit) as u8]
                + emitted);
            assert(digits10((v / 10) as nat).push((48 + digit) as u8) + emitted =~= digits10(
                (v / 10) as nat,
            ) + (seq![(48 + digit) as u8] + emitted));
        }
        v /= 10;
    }
    assert(digits10(0) + output@.subrange(at as int, total as int) =~= output@.subrange(
        at as int,
        total as int,
    ));
    assert(output@.subrange(at as int, total as int) =~= output@.skip(at as int));
    move_to_front(output, at);
    let count: usize = total - at;
    assert(output@.subrange(0, count as int) =~= output@.take(count as int));
    Some(&output[0..count])
}

/// Decimal digits are ASCII.
pub proof fn lemma_decimal_text_ascii(n: nat)
    ensures
        is_ascii_bytes(decimal_text(n)),
        is_ascii_bytes(digits10(n)),
        forall|i: int| 0 <= i < digits10(n).len() ==> 48 <= #[trigger] digits10(n)[i] <= 57,
    decreases n,
{
    if n > 0 {
        lemma_decimal_text_ascii(n / 10);
    }
}

/// Hexadecimal text is ASCII.
pub proof fn lemma_hex_text_ascii(bytes: Seq<u8>)
    ensures
        is_ascii_bytes(hex_text(bytes)),
{
}

} // verus!
