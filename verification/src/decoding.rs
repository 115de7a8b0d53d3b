//! What it means to read standard base64 text back, and the proof that
//! reading back undoes encoding.

use crate::encoding::{encoded_byte, encoded_len, group, octet, sextet, standard_base64, symbol, PAD};
use vstd::prelude::*;

verus! {

/// The 6-bit digit that a letter stands for. Any other byte, the padding
/// byte among them, counts as zero.
pub open spec fn digit(c: u8) -> int {
    if 65 <= c <= 90 {
        c - 65
    } else if 97 <= c <= 122 {
        c - 71
    } else if 48 <= c <= 57 {
        c + 4
    } else if c == 43 {
        62
    } else if c == 47 {
        63
    } else {
        0
    }
}

/// How many padding bytes a text ends in, two at most.
pub open spec fn padding(text: Seq<u8>) -> nat {
    if text.len() >= 1 && text[text.len() - 1] == PAD {
        if text.len() >= 2 && text[text.len() - 2] == PAD {
            2
        } else {
            1
        }
    } else {
        0
    }
}

/// Number of bytes that a padded text stands for.
pub open spec fn decoded_len(text: Seq<u8>) -> nat {
    (text.len() / 4 * 3 - padding(text)) as nat
}

/// The 24-bit number that the four letters of quartet `g` spell.
pub open spec fn quartet(text: Seq<u8>, g: int) -> int {
    digit(text[4 * g]) * 262144 + digit(text[4 * g + 1]) * 4096 + digit(text[4 * g + 2]) * 64
        + digit(text[4 * g + 3])
}

/// Byte `k` of what a text stands for: one of the three bytes of the number
/// that its quartet spells, highest first.
pub open spec fn decoded_byte(text: Seq<u8>, k: int) -> u8 {
    let v = quartet(text, k / 3);
    if k % 3 == 0 {
        (v / 65536 % 256) as u8
    } else if k % 3 == 1 {
        (v / 256 % 256) as u8
    } else {
        (v % 256) as u8
    }
}

/// The bytes that a padded text stands for.
pub open spec fn decoded(text: Seq<u8>) -> Seq<u8> {
    Seq::new(decoded_len(text), |k: int| decoded_byte(text, k))
}

/// Every 6-bit digit is read back from its letter, and no letter is the
/// padding byte.
pub proof fn lemma_digit_of_symbol(s: int)
    requires
        0 <= s < 64,
    ensures
        digit(symbol(s)) == s,
        symbol(s) != PAD,
{
}

/// The four digits of a 24-bit number are 6-bit digits and spell it.
pub proof fn lemma_sextets_spell_group(v: int)
    requires
        0 <= v < 16777216,
    ensures
        0 <= sextet(v, 0) < 64,
        0 <= sextet(v, 1) < 64,
        0 <= sextet(v, 2) < 64,
        0 <= sextet(v, 3) < 64,
        sextet(v, 0) * 262144 + sextet(v, 1) * 4096 + sextet(v, 2) * 64 + sextet(v, 3) == v,
{
}

/// A group whose last bytes are zero has zero for its last digits.
proof fn lemma_digits_of_short_group(a: int, b: int)
    requires
        0 <= a < 256,
        0 <= b < 256,
    ensures
        sextet(a * 65536 + b * 256, 3) == 0,
        sextet(a * 65536, 2) == 0,
        sextet(a * 65536, 3) == 0,
{
}

/// Each byte of a text is read back as the digit it was written for: a
/// letter as its digit, a padding byte as the zero digit of a missing byte.
proof fn lemma_digit_of_encoded_byte(raw: Seq<u8>, i: int)
    requires
        0 <= i < encoded_len(raw.len()),
    ensures
        digit(encoded_byte(raw, i)) == sextet(group(raw, i / 4), i % 4),
{
    let g = i / 4;
    let a = octet(raw, 3 * g);
    let b = octet(raw, 3 * g + 1);
    let c = octet(raw, 3 * g + 2);
    let v = group(raw, g);
    lemma_bytes_of_group(a, b, c);
    if 3 * g + i % 4 > raw.len() {
        lemma_digits_of_short_group(a, b);
        assert(c == 0);
        assert(i % 4 == 2 ==> b == 0);
    } else {
        lemma_sextets_spell_group(v);
        lemma_digit_of_symbol(sextet(v, i % 4));
    }
}

/// The letters of a quartet spell the group they were made from.
proof fn lemma_quartet_of_text(raw: Seq<u8>, g: int)
    requires
        0 <= 3 * g < raw.len(),
    ensures
        quartet(standard_base64(raw), g) == group(raw, g),
{
    let text = standard_base64(raw);
    let v = group(raw, g);
    assert(4 * g + 3 < text.len());
    lemma_digit_of_encoded_byte(raw, 4 * g);
    lemma_digit_of_encoded_byte(raw, 4 * g + 1);
    lemma_digit_of_encoded_byte(raw, 4 * g + 2);
    lemma_digit_of_encoded_byte(raw, 4 * g + 3);
    assert(digit(text[4 * g]) == sextet(v, 0));
    assert(digit(text[4 * g + 1]) == sextet(v, 1));
    assert(digit(text[4 * g + 2]) == sextet(v, 2));
    assert(digit(text[4 * g + 3]) == sextet(v, 3));
    lemma_bytes_of_group(octet(raw, 3 * g), octet(raw, 3 * g + 1), octet(raw, 3 * g + 2));
    lemma_sextets_spell_group(v);
}

/// The text of a source ends in as many padding bytes as its last group
/// lacks source bytes.
pub proof fn lemma_padding_of_text(raw: Seq<u8>)
    ensures
        padding(standard_base64(raw)) == encoded_len(raw.len()) / 4 * 3 - raw.len(),
{
    let text = standard_base64(raw);
    let n = text.len() as int;
    if n > 0 {
        let g = n / 4 - 1;
        lemma_sextets_spell_group(group(raw, g));
        lemma_digit_of_symbol(sextet(group(raw, g), 2));
        lemma_digit_of_symbol(sextet(group(raw, g), 3));
        assert(text[n - 1] == encoded_byte(raw, n - 1));
        assert(text[n - 2] == encoded_byte(raw, n - 2));
    }
}

/// A 24-bit number made of three bytes gives them back.
proof fn lemma_bytes_of_group(a: int, b: int, c: int)
    requires
        0 <= a < 256,
        0 <= b < 256,
        0 <= c < 256,
    ensures
        (a * 65536 + b * 256 + c) / 65536 % 256 == a,
        (a * 65536 + b * 256 + c) / 256 % 256 == b,
        (a * 65536 + b * 256 + c) % 256 == c,
        0 <= a * 65536 + b * 256 + c < 16777216,
{
}

/// Byte `k` of a source is byte `k` of what its text stands for.
proof fn lemma_decoded_byte(raw: Seq<u8>, k: int)
    requires
        0 <= k < raw.len(),
    ensures
        decoded_byte(standard_base64(raw), k) == raw[k],
{
    let g = k / 3;
    lemma_quartet_of_text(raw, g);
    lemma_bytes_of_group(octet(raw, 3 * g), octet(raw, 3 * g + 1), octet(raw, 3 * g + 2));
    assert(octet(raw, k) == raw[k]);
}

/// Reading back the text of a source gives the source.
pub proof fn lemma_decode_inverts_encode(raw: Seq<u8>)
    ensures
        decoded(standard_base64(raw)) == raw,
{
    let text = standard_base64(raw);
    lemma_padding_of_text(raw);
    assert(decoded_len(text) == raw.len());
    assert forall|k: int| 0 <= k < raw.len() implies decoded_byte(text, k) == raw[k] by {
        lemma_decoded_byte(raw, k);
    }
    assert(decoded(text) =~= raw);
}

/// Two sources with the same text are the same source.
pub proof fn lemma_encoding_is_injective(a: Seq<u8>, b: Seq<u8>)
    requires
        standard_base64(a) == standard_base64(b),
    ensures
        a == b,
{
    lemma_decode_inverts_encode(a);
    lemma_decode_inverts_encode(b);
}

} // verus!
