use inf_rs::{TextDecoder, TextEncoding};

fn utf16le(text: &str) -> Vec<u8> {
    let mut bytes = Vec::new();
    for unit in text.encode_utf16() {
        bytes.push((unit & 0xff) as u8);
        bytes.push((unit >> 8) as u8);
    }
    bytes
}

#[test]
fn stream_without_mark_is_read_as_utf8() {
    let mut decoder = TextDecoder::new();
    assert_eq!(decoder.encoding(), None);
    assert!(!decoder.is_finished());
    assert_eq!(decoder.decode("[S]\r\nk=v\u{e9}\u{20ac}".as_bytes(), false), "[S]\r\nk=v\u{e9}\u{20ac}");
    assert_eq!(decoder.encoding(), Some(TextEncoding::Utf8));
    assert!(!decoder.is_finished());
    assert_eq!(decoder.decode(b"", true), "");
    assert!(decoder.is_finished());
}

#[test]
fn malformed_utf8_is_replaced() {
    let mut decoder = TextDecoder::new();
    assert_eq!(decoder.decode(&[b'a', 0xff, b'b'], false), "a\u{fffd}b");
    assert_eq!(decoder.decode(&[0xe2, 0x82], true), "\u{fffd}");
}

#[test]
fn utf8_mark_and_big_endian_mark_are_not_utf16le() {
    let mut decoder = TextDecoder::new();
    assert_eq!(decoder.decode(&[0xef, 0xbb, 0xbf, b'a'], true), "\u{feff}a");
    assert_eq!(decoder.encoding(), Some(TextEncoding::Utf8));

    let mut decoder = TextDecoder::new();
    assert_eq!(decoder.decode(&[0xfe, 0xff, 0x00, b'a'], true), "\u{fffd}\u{fffd}\u{0}a");
    assert_eq!(decoder.encoding(), Some(TextEncoding::Utf8));
}

#[test]
fn stream_with_mark_is_read_as_utf16le() {
    let mut bytes = vec![0xff, 0xfe];
    bytes.extend(utf16le("[S]\r\nk=\u{e9}\u{20ac}\u{1f600}"));
    let mut decoder = TextDecoder::new();
    assert_eq!(decoder.decode(&bytes, true), "[S]\r\nk=\u{e9}\u{20ac}\u{1f600}");
    assert_eq!(decoder.encoding(), Some(TextEncoding::Utf16Le));
    assert!(decoder.is_finished());
}

#[test]
fn encoding_is_fixed_by_the_first_chunk() {
    let mut decoder = TextDecoder::new();
    assert_eq!(decoder.decode(b"a", false), "a");
    assert_eq!(decoder.decode(&[0xff, 0xfe, b'b', 0x00], true), "\u{fffd}\u{fffd}b\u{0}");
    assert_eq!(decoder.encoding(), Some(TextEncoding::Utf8));

    let mut decoder = TextDecoder::new();
    assert_eq!(decoder.decode(&[0xff], false), "\u{fffd}");
    assert_eq!(decoder.encoding(), Some(TextEncoding::Utf8));
}

#[test]
fn utf16_code_unit_split_across_chunks() {
    let mut decoder = TextDecoder::new();
    assert_eq!(decoder.decode(&[0xff, 0xfe, b'a'], false), "");
    assert_eq!(decoder.decode(&[0x00, 0xac], false), "a");
    assert_eq!(decoder.decode(&[0x20], false), "\u{20ac}");
    assert_eq!(decoder.decode(&[], false), "");
    assert_eq!(decoder.decode(&[b'z', 0x00], true), "z");
}

#[test]
fn utf16_surrogate_pair_split_across_chunks() {
    let pair = utf16le("\u{1f600}");
    let mut decoder = TextDecoder::new();
    assert_eq!(decoder.decode(&[0xff, 0xfe, pair[0], pair[1]], false), "");
    assert_eq!(decoder.decode(&pair[2..], true), "\u{1f600}");
}

#[test]
fn utf16_truncated_stream_ends_with_replacement() {
    let mut decoder = TextDecoder::new();
    assert_eq!(decoder.decode(&[0xff, 0xfe, b'a', 0x00, b'b'], true), "a\u{fffd}");

    let mut decoder = TextDecoder::new();
    assert_eq!(decoder.decode(&[0xff, 0xfe, 0x00, 0xdc, b'a', 0x00], true), "\u{fffd}a");
}

#[test]
fn utf8_character_split_across_chunks() {
    let mut decoder = TextDecoder::new();
    assert_eq!(decoder.decode(&[b'a', 0xc3], false), "a");
    assert_eq!(decoder.decode(&[0xa9, 0xe2], false), "\u{e9}");
    assert_eq!(decoder.decode(&[0x82], false), "");
    assert_eq!(decoder.decode(&[], false), "");
    assert_eq!(decoder.decode(&[0xac, b'b'], true), "\u{20ac}b");
}

#[test]
fn utf8_four_byte_character_split_at_every_byte() {
    let bytes = "\u{1f600}".as_bytes();
    for cut in 0..=bytes.len() {
        let mut decoder = TextDecoder::new();
        let mut text = decoder.decode(&bytes[..cut], false);
        text.push_str(&decoder.decode(&bytes[cut..], true));
        assert_eq!(text, "\u{1f600}");
    }
    let mut decoder = TextDecoder::new();
    let mut text = String::new();
    for byte in bytes {
        text.push_str(&decoder.decode(&[*byte], false));
    }
    assert_eq!(text, "\u{1f600}");
}

#[test]
fn utf8_sequence_cut_short_is_replaced_at_the_end() {
    let mut decoder = TextDecoder::new();
    assert_eq!(decoder.decode(&[b'a', 0xe2], false), "a");
    assert_eq!(decoder.decode(&[0x82], true), "\u{fffd}");

    let mut decoder = TextDecoder::new();
    assert_eq!(decoder.decode(&[b'a', 0xe2, 0x82], false), "a");
    assert_eq!(decoder.decode(&[b'b'], false), "\u{fffd}b");
}

#[test]
fn any_cut_of_valid_utf8_gives_the_same_text() {
    let text = "[S\u{e9}]\r\nk\u{20ac}y=\u{1f600} v\u{e4}lue\r\n";
    let bytes = text.as_bytes();
    for first in 0..=bytes.len() {
        for second in first..=bytes.len() {
            let mut decoder = TextDecoder::new();
            let mut decoded = decoder.decode(&bytes[..first], false);
            decoded.push_str(&decoder.decode(&bytes[first..second], false));
            decoded.push_str(&decoder.decode(&bytes[second..], true));
            assert_eq!(decoded, text);
        }
    }
}
