use std::borrow::Cow;
use syntext::encoding::{is_binary, normalize_encoding};

#[test]
fn no_bom_returns_borrowed() {
    let content = b"fn main() {}";
    let result = normalize_encoding(content);
    assert!(
        matches!(result, Cow::Borrowed(_)),
        "plain UTF-8 must return Cow::Borrowed (zero copy)"
    );
    assert_eq!(result.as_ref(), content);
}

#[test]
fn utf8_bom_stripped() {
    let input = b"\xEF\xBB\xBFfn main() {}";
    let result = normalize_encoding(input);
    assert_eq!(result.as_ref(), b"fn main() {}");
}

#[test]
fn utf8_bom_only_file() {
    let result = normalize_encoding(b"\xEF\xBB\xBF");
    assert_eq!(result.as_ref(), b"");
}

#[test]
fn utf16_le_ascii_transcoded() {
    let input: &[u8] = b"\xFF\xFEh\x00i\x00\n\x00";
    let result = normalize_encoding(input);
    assert_eq!(result.as_ref(), b"hi\n");
}

#[test]
fn utf16_be_ascii_transcoded() {
    let input: &[u8] = b"\xFE\xFF\x00h\x00i\x00\n";
    let result = normalize_encoding(input);
    assert_eq!(result.as_ref(), b"hi\n");
}

#[test]
fn utf16_le_non_bmp_replacement_char() {
    // A high surrogate without its low one.
    let input: &[u8] = b"\xFF\xFE\x00\xD8";
    let result = normalize_encoding(input);
    assert_eq!(result.as_ref(), "\u{FFFD}".as_bytes());
}

#[test]
fn utf16_le_odd_byte_trailing_truncated() {
    let input: &[u8] = b"\xFF\xFEh\x00i";
    let result = normalize_encoding(input);
    assert_eq!(result.as_ref(), b"h");
}

#[test]
fn empty_content_returns_borrowed() {
    let result = normalize_encoding(b"");
    assert!(matches!(result, Cow::Borrowed(_)));
    assert_eq!(result.as_ref(), b"");
}

#[test]
fn utf16_le_source_code() {
    let src = "fn main() {}";
    let utf16le: Vec<u8> = src.encode_utf16().flat_map(|u| u.to_le_bytes()).collect();
    let mut input = vec![0xFF, 0xFE];
    input.extend_from_slice(&utf16le);
    let result = normalize_encoding(&input);
    assert_eq!(result.as_ref(), src.as_bytes());
}

#[test]
fn utf16_pairs_give_astral_characters() {
    let src = "a\u{1F600}b\u{10FFFF}";
    let mut input = vec![0xFE, 0xFF];
    for u in src.encode_utf16() {
        input.extend_from_slice(&u.to_be_bytes());
    }
    assert_eq!(normalize_encoding(&input).as_ref(), src.as_bytes());
}

#[test]
fn a_lone_low_surrogate_is_replaced_and_the_text_goes_on() {
    let input: &[u8] = b"\xFF\xFE\x00\xDCa\x00";
    assert_eq!(normalize_encoding(input).as_ref(), "\u{FFFD}a".as_bytes());
}

#[test]
fn binary_files_have_an_early_zero_byte() {
    assert!(is_binary(b"ab\0cd"));
    assert!(!is_binary(b"abcd"));
    assert!(!is_binary(b""));
    let mut late = vec![b'a'; 8192];
    late.push(0);
    assert!(!is_binary(&late));
    late[8191] = 0;
    assert!(is_binary(&late));
}

#[test]
fn utf16_text_is_the_same_in_both_byte_orders() {
    let src = "x\u{7FF}\u{FFFF}\u{10000}\u{1F600}";
    for big_endian in [false, true] {
        for odd in [&b""[..], &b"\x41"[..]] {
            let mut input = if big_endian { vec![0xFE, 0xFF] } else { vec![0xFF, 0xFE] };
            for u in src.encode_utf16() {
                input.extend(if big_endian { u.to_be_bytes() } else { u.to_le_bytes() });
            }
            input.extend_from_slice(odd);
            assert_eq!(normalize_encoding(&input).as_ref(), src.as_bytes());
        }
    }
}

#[test]
fn half_a_pair_between_texts_is_replaced() {
    let input: &[u8] = b"\xFE\xFF\0a\xD8\x3D\0b";
    assert_eq!(normalize_encoding(input).as_ref(), b"a\xEF\xBF\xBDb");
}
