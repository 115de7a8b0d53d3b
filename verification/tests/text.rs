use base64::engine::general_purpose::STANDARD;
use base64::Engine;
use base64_view::encoding::{encoded_byte_at, PAD};
use base64_view::Encoder;

/// Bytes of every value, in an order fixed by `seed`.
fn noise(len: usize, seed: u32) -> Vec<u8> {
    let mut state = seed;
    let mut out = Vec::with_capacity(len);
    for _ in 0..len {
        state = state.wrapping_mul(1664525).wrapping_add(1013904223);
        out.push((state >> 24) as u8);
    }
    out
}

/// The text of `raw`, byte by byte from the definition.
fn text_by_definition(raw: &[u8]) -> Vec<u8> {
    let mut out = Vec::new();
    while let Some(byte) = encoded_byte_at(raw, out.len()) {
        out.push(byte);
    }
    out
}

/// The text of `raw` as one read of the view hands it out.
fn text_by_view(raw: &[u8]) -> Vec<u8> {
    let mut encoder = Encoder::new(raw.len());
    let mut dst = vec![0u8; 2 * raw.len() + 4];
    let n = encoder.read(raw, &mut dst);
    dst.truncate(n);
    dst
}

#[test]
fn definition_gives_the_known_text() {
    assert_eq!(
        text_by_definition(b"MEOWMEOW FUZZYFACE."),
        b"TUVPV01FT1cgRlVaWllGQUNFLg=="
    );
    assert_eq!(text_by_definition(b""), b"");
    assert_eq!(text_by_definition(b"f"), b"Zg==");
    assert_eq!(text_by_definition(b"fo"), b"Zm8=");
    assert_eq!(text_by_definition(b"foo"), b"Zm9v");
    assert_eq!(text_by_definition(b"foob"), b"Zm9vYg==");
    assert_eq!(text_by_definition(b"fooba"), b"Zm9vYmE=");
    assert_eq!(text_by_definition(b"foobar"), b"Zm9vYmFy");
}

#[test]
fn definition_has_no_byte_past_the_text() {
    assert_eq!(encoded_byte_at(b"", 0), None);
    assert_eq!(encoded_byte_at(b"f", 3), Some(PAD));
    assert_eq!(encoded_byte_at(b"f", 4), None);
    assert_eq!(encoded_byte_at(b"foo", 3), Some(b'v'));
    assert_eq!(encoded_byte_at(b"foo", 4), None);
    assert_eq!(encoded_byte_at(b"foo", usize::MAX), None);
    assert_eq!(PAD, b'=');
}

#[test]
fn engine_writes_what_the_definition_says() {
    for len in 0..300 {
        for seed in [1u32, 2, 3] {
            let raw = noise(len, seed);
            assert_eq!(STANDARD.encode(&raw).into_bytes(), text_by_definition(&raw));
        }
    }
}

#[test]
fn engine_writes_what_the_definition_says_for_every_group() {
    // every value of each byte of a group, against the two others at a few values
    let others = [0u8, 1, 0x55, 0xAA, 0xFE, 0xFF];
    for x in 0..=255u8 {
        for y in others {
            for z in others {
                for raw in [[x, y, z], [y, x, z], [y, z, x]] {
                    assert_eq!(STANDARD.encode(raw).into_bytes(), text_by_definition(&raw));
                    assert_eq!(
                        STANDARD.encode(&raw[..2]).into_bytes(),
                        text_by_definition(&raw[..2])
                    );
                    assert_eq!(
                        STANDARD.encode(&raw[..1]).into_bytes(),
                        text_by_definition(&raw[..1])
                    );
                }
            }
        }
    }
}

#[test]
fn view_writes_what_the_definition_says() {
    for len in 0..200 {
        let raw = noise(len, 8);
        assert_eq!(text_by_view(&raw), text_by_definition(&raw));
    }
}

#[test]
fn every_letter_comes_out_in_its_place() {
    // the 64 digits in order, four to a group
    let mut raw = Vec::new();
    for g in 0..16u8 {
        let (s0, s1, s2, s3) = (4 * g, 4 * g + 1, 4 * g + 2, 4 * g + 3);
        raw.push(s0 << 2 | s1 >> 4);
        raw.push((s1 & 15) << 4 | s2 >> 2);
        raw.push((s2 & 3) << 6 | s3);
    }
    let letters = b"ABCDEFGHIJKLMNOPQRSTUVWXYZabcdefghijklmnopqrstuvwxyz0123456789+/";
    assert_eq!(text_by_view(&raw), letters);
    assert_eq!(text_by_definition(&raw), letters);
}

#[test]
fn view_does_not_hand_back_what_it_was_given() {
    let raw = b"MEOWMEOW FUZZYFACE.";
    let text = text_by_view(raw);
    assert_eq!(text, b"TUVPV01FT1cgRlVaWllGQUNFLg==");
    assert_ne!(&text[..raw.len()], raw);
}
