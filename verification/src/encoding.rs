//! Standard base64 with padding, as a function from bytes to bytes.

use base64::engine::general_purpose::STANDARD;
use base64::Engine;
use vstd::prelude::*;

verus! {

/// The byte that fills up a final quartet, `=`.
pub const PAD: u8 = 61;

/// Length of the encoded text of `n` bytes: four bytes for every three bytes
/// begun.
pub open spec fn encoded_len(n: nat) -> nat {
    (n + 2) / 3 * 4
}

/// The byte at index `k`, or zero past the end.
pub open spec fn octet(raw: Seq<u8>, k: int) -> int {
    if 0 <= k < raw.len() {
        raw[k] as int
    } else {
        0
    }
}

/// The 24-bit number made of the three bytes of group `g`, first byte
/// highest, with zeros for the bytes that a final group lacks.
pub open spec fn group(raw: Seq<u8>, g: int) -> int {
    octet(raw, 3 * g) * 65536 + octet(raw, 3 * g + 1) * 256 + octet(raw, 3 * g + 2)
}

/// The `j`-th of the four 6-bit digits of a 24-bit number, highest first.
pub open spec fn sextet(group: int, j: int) -> int {
    if j == 0 {
        group / 262144
    } else if j == 1 {
        group / 4096 % 64
    } else if j == 2 {
        group / 64 % 64
    } else {
        group % 64
    }
}

/// The letter for a 6-bit digit: `A`-`Z`, `a`-`z`, `0`-`9`, `+`, `/`.
pub open spec fn symbol(s: int) -> u8 {
    if s < 26 {
        (s + 65) as u8
    } else if s < 52 {
        (s + 71) as u8
    } else if s < 62 {
        (s - 4) as u8
    } else if s == 62 {
        43
    } else {
        47
    }
}

/// Byte `i` of the encoded text of `raw`. Position `j` of quartet `g` shows
/// digit `j` of group `g` where the source has at least `3 * g + j` bytes, and
/// the padding byte where it has fewer.
pub open spec fn encoded_byte(raw: Seq<u8>, i: int) -> u8 {
    if 3 * (i / 4) + i % 4 > raw.len() {
        PAD
    } else {
        symbol(sextet(group(raw, i / 4), i % 4))
    }
}

/// The standard base64 text of `raw`, padded to whole quartets.
pub open spec fn standard_base64(raw: Seq<u8>) -> Seq<u8> {
    Seq::new(encoded_len(raw.len()), |i: int| encoded_byte(raw, i))
}

/// Calls `Engine::encode` of the `base64` crate on its `STANDARD` engine and
/// hands the text back as bytes. Trusted: the engine writes the standard
/// alphabet of RFC 4648 with `=` padding, which is what `standard_base64`
/// spells out. Inputs whose text would not fit a buffer are left out, since
/// the engine panics on them.
#[verifier::external_body]
pub(crate) fn encode_standard(input: &[u8]) -> (text: Vec<u8>)
    requires
        encoded_len(input@.len()) <= isize::MAX,
    ensures
        text@ == standard_base64(input@),
{
    STANDARD.encode(input).into_bytes()
}

/// The letter for a 6-bit digit.
fn letter(s: u32) -> (c: u8)
    requires
        s < 64,
    ensures
        c == symbol(s as int),
{
    if s < 26 {
        (s + 65) as u8
    } else if s < 52 {
        (s + 71) as u8
    } else if s < 62 {
        (s - 4) as u8
    } else if s == 62 {
        43
    } else {
        47
    }
}

/// Byte `i` of the standard base64 text of `raw`, worked out from the
/// definition alone; `None` where the text has no such byte. This is the
/// definition in a form that runs, so that it can be held against what the
/// engine writes.
pub fn encoded_byte_at(raw: &[u8], i: usize) -> (byte: Option<u8>)
    ensures
        match byte {
            Some(b) => i < encoded_len(raw@.len()) && b == standard_base64(raw@)[i as int],
            None => i >= encoded_len(raw@.len()),
        },
{
    let g: usize = i / 4;
    let j: usize = i % 4;
    if g >= raw.len() / 3 + if raw.len() % 3 > 0 { 1 } else { 0 } {
        return None;
    }
    let start: usize = g * 3;
    if start + j > raw.len() {
        return Some(PAD);
    }
    let a: u32 = raw[start] as u32;
    let b: u32 = if start + 1 < raw.len() { raw[start + 1] as u32 } else { 0 };
    let c: u32 = if start + 2 < raw.len() { raw[start + 2] as u32 } else { 0 };
    let v: u32 = a * 65536 + b * 256 + c;
    let s: u32 = if j == 0 {
        v / 262144
    } else if j == 1 {
        v / 4096 % 64
    } else if j == 2 {
        v / 64 % 64
    } else {
        v % 64
    };
    Some(letter(s))
}

/// The encoded length is four times the least number of groups that hold
/// `n` bytes.
pub proof fn lemma_encoded_len_is_ceiling(n: nat)
    ensures
        encoded_len(n) % 4 == 0,
        3 * (encoded_len(n) / 4) >= n,
        3 * (encoded_len(n) / 4) < n + 3,
{
}

/// Encoding is local to groups. A stretch of the source that starts at a
/// group boundary, and ends at one or at the end of the source, encodes to
/// the matching stretch of the whole text.
pub proof fn lemma_window(raw: Seq<u8>, k: nat, n: nat)
    requires
        3 * k + n <= raw.len(),
        n % 3 == 0 || 3 * k + n == raw.len(),
    ensures
        4 * k + encoded_len(n) <= encoded_len(raw.len()),
        standard_base64(raw.subrange(3 * k as int, 3 * k + n as int)) == standard_base64(
            raw,
        ).subrange(4 * k as int, 4 * k + encoded_len(n) as int),
{
    let part = raw.subrange(3 * k as int, 3 * k + n as int);
    let whole = standard_base64(raw);
    assert forall|i: int| 0 <= i < encoded_len(n) implies encoded_byte(part, i) == whole[4 * k
        + i] by {
        let g = i / 4;
        assert((4 * k + i) / 4 == k + g);
        assert((4 * k + i) % 4 == i % 4);
        assert(octet(part, 3 * g) == octet(raw, 3 * (k + g)));
        assert(octet(part, 3 * g + 1) == octet(raw, 3 * (k + g) + 1));
        assert(octet(part, 3 * g + 2) == octet(raw, 3 * (k + g) + 2));
    }
    assert(standard_base64(part) =~= whole.subrange(4 * k as int, 4 * k + encoded_len(n) as int));
}

} // verus!
