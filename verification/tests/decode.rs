use unicode_chunks::decode::{begins_with_char, decode_one, InvalidEncoding};
use unicode_chunks::next_utf8_char;

#[test]
fn test_next_utf8_char() {
    assert_eq!(next_utf8_char(b"a"), ('a', 1));
    assert_eq!(next_utf8_char("あ".as_bytes()), ('あ', 3));
    assert_eq!(next_utf8_char("🍣".as_bytes()), ('🍣', 4));
}

#[test]
fn next_utf8_char_reads_only_the_first_character() {
    assert_eq!(next_utf8_char("abc".as_bytes()), ('a', 1));
    assert_eq!(next_utf8_char("éa".as_bytes()), ('é', 2));
    assert_eq!(next_utf8_char("あい".as_bytes()), ('あ', 3));
    assert_eq!(next_utf8_char("😫!".as_bytes()), ('😫', 4));
}

#[test]
fn next_utf8_char_by_the_bytes() {
    assert_eq!(next_utf8_char(&[0x24]), ('\u{24}', 1));
    assert_eq!(next_utf8_char(&[0xC2, 0xA2]), ('\u{A2}', 2));
    assert_eq!(next_utf8_char(&[0xE2, 0x82, 0xAC]), ('\u{20AC}', 3));
    assert_eq!(next_utf8_char(&[0xF0, 0x90, 0x8D, 0x88]), ('\u{10348}', 4));
}

#[test]
fn next_utf8_char_at_the_ends_of_each_length() {
    let cases: [(char, usize); 10] = [
        ('\u{0}', 1),
        ('\u{7F}', 1),
        ('\u{80}', 2),
        ('\u{7FF}', 2),
        ('\u{800}', 3),
        ('\u{D7FF}', 3),
        ('\u{E000}', 3),
        ('\u{FFFF}', 3),
        ('\u{10000}', 4),
        ('\u{10FFFF}', 4),
    ];
    for (c, n) in cases {
        let mut buf = [0u8; 4];
        let s = c.encode_utf8(&mut buf);
        assert_eq!(s.len(), n);
        assert_eq!(next_utf8_char(s.as_bytes()), (c, n));
    }
}

#[test]
fn next_utf8_char_agrees_with_std_on_every_character() {
    let mut count: u32 = 0;
    for v in 0u32..=0x10FFFF {
        if let Some(c) = char::from_u32(v) {
            let mut buf = [0u8; 4];
            let s = c.encode_utf8(&mut buf);
            assert_eq!(next_utf8_char(s.as_bytes()), (c, c.len_utf8()));
            count += 1;
        }
    }
    assert_eq!(count, 0x110000 - 0x800);
}

#[test]
fn decode_one_reads_at_an_offset() {
    let text = "aé€😫";
    let bytes = text.as_bytes();
    assert_eq!(decode_one(bytes, 0), Ok(('a', 1)));
    assert_eq!(decode_one(bytes, 1), Ok(('é', 2)));
    assert_eq!(decode_one(bytes, 3), Ok(('€', 3)));
    assert_eq!(decode_one(bytes, 6), Ok(('😫', 4)));
}

#[test]
fn decode_one_walks_a_text() {
    let text = "やきにくがたべたい…しかし😫";
    let bytes = text.as_bytes();
    let mut offset = 0;
    let mut seen = String::new();
    while offset < bytes.len() {
        let (c, n) = decode_one(bytes, offset).unwrap();
        assert_eq!(n, c.len_utf8());
        seen.push(c);
        offset += n;
    }
    assert_eq!(offset, bytes.len());
    assert_eq!(seen, text);
}

#[test]
fn decode_one_rejects_an_offset_out_of_bounds() {
    assert_eq!(decode_one(b"", 0), Err(InvalidEncoding { offset: 0 }));
    assert_eq!(decode_one(b"abc", 3), Err(InvalidEncoding { offset: 3 }));
    assert_eq!(decode_one(b"abc", 7), Err(InvalidEncoding { offset: 7 }));
    assert_eq!(decode_one(b"abc", usize::MAX), Err(InvalidEncoding { offset: usize::MAX }));
}

#[test]
fn decode_one_rejects_an_offset_inside_a_character() {
    let bytes = "あ".as_bytes();
    assert_eq!(decode_one(bytes, 0), Ok(('あ', 3)));
    assert_eq!(decode_one(bytes, 1), Err(InvalidEncoding { offset: 1 }));
    assert_eq!(decode_one(bytes, 2), Err(InvalidEncoding { offset: 2 }));
}

#[test]
fn decode_one_rejects_an_encoding_cut_short() {
    assert_eq!(decode_one(&[0xC3], 0), Err(InvalidEncoding { offset: 0 }));
    assert_eq!(decode_one(&[0xE3, 0x81], 0), Err(InvalidEncoding { offset: 0 }));
    assert_eq!(decode_one(&[0xF0, 0x9F, 0x98], 0), Err(InvalidEncoding { offset: 0 }));
    assert_eq!(decode_one(&[b'a', 0xF0, 0x9F, 0x98], 1), Err(InvalidEncoding { offset: 1 }));
}

#[test]
fn decode_one_rejects_bytes_that_lead_nothing() {
    for lead in [0x80u8, 0xBF, 0xC0, 0xC1, 0xF5, 0xF7, 0xF8, 0xFF] {
        let bytes = [lead, 0x80, 0x80, 0x80];
        assert_eq!(decode_one(&bytes, 0), Err(InvalidEncoding { offset: 0 }));
    }
}

#[test]
fn decode_one_rejects_a_bad_continuation_byte() {
    assert_eq!(decode_one(&[0xC3, 0x28], 0), Err(InvalidEncoding { offset: 0 }));
    assert_eq!(decode_one(&[0xC3, 0xC0], 0), Err(InvalidEncoding { offset: 0 }));
    assert_eq!(decode_one(&[0xE2, 0x82, 0x28], 0), Err(InvalidEncoding { offset: 0 }));
    assert_eq!(decode_one(&[0xE2, 0x28, 0xAC], 0), Err(InvalidEncoding { offset: 0 }));
    assert_eq!(decode_one(&[0xF0, 0x90, 0x8D, 0x28], 0), Err(InvalidEncoding { offset: 0 }));
    assert_eq!(decode_one(&[0xF0, 0x90, 0x28, 0x88], 0), Err(InvalidEncoding { offset: 0 }));
}

#[test]
fn decode_one_rejects_overlong_surrogate_and_too_large() {
    // U+0000 on three bytes, U+007F on two.
    assert_eq!(decode_one(&[0xE0, 0x80, 0x80], 0), Err(InvalidEncoding { offset: 0 }));
    assert_eq!(decode_one(&[0xE0, 0x9F, 0xBF], 0), Err(InvalidEncoding { offset: 0 }));
    assert_eq!(decode_one(&[0xF0, 0x8F, 0xBF, 0xBF], 0), Err(InvalidEncoding { offset: 0 }));
    // U+D800 and U+DFFF.
    assert_eq!(decode_one(&[0xED, 0xA0, 0x80], 0), Err(InvalidEncoding { offset: 0 }));
    assert_eq!(decode_one(&[0xED, 0xBF, 0xBF], 0), Err(InvalidEncoding { offset: 0 }));
    // 0x110000.
    assert_eq!(decode_one(&[0xF4, 0x90, 0x80, 0x80], 0), Err(InvalidEncoding { offset: 0 }));
    // Their well-formed neighbours.
    assert_eq!(decode_one(&[0xE0, 0xA0, 0x80], 0), Ok(('\u{800}', 3)));
    assert_eq!(decode_one(&[0xED, 0x9F, 0xBF], 0), Ok(('\u{D7FF}', 3)));
    assert_eq!(decode_one(&[0xEE, 0x80, 0x80], 0), Ok(('\u{E000}', 3)));
    assert_eq!(decode_one(&[0xF0, 0x90, 0x80, 0x80], 0), Ok(('\u{10000}', 4)));
    assert_eq!(decode_one(&[0xF4, 0x8F, 0xBF, 0xBF], 0), Ok(('\u{10FFFF}', 4)));
}

#[test]
fn begins_with_char_agrees_with_std_on_all_two_byte_sequences() {
    for b0 in 0u8..=255 {
        for b1 in 0u8..=255 {
            let bytes = [b0, b1];
            let expected = std::str::from_utf8(&bytes[..1]).is_ok()
                || (b0 >= 0x80 && std::str::from_utf8(&bytes).is_ok());
            assert_eq!(begins_with_char(&bytes), expected, "{:02x} {:02x}", b0, b1);
        }
    }
}

#[test]
fn begins_with_char_agrees_with_std_on_three_and_four_byte_sequences() {
    for b0 in 0xE0u8..=0xFF {
        for b1 in 0x70u8..=0xCF {
            for b2 in [0x00u8, 0x7F, 0x80, 0xA0, 0xBF, 0xC0, 0xFF] {
                for b3 in [0x00u8, 0x7F, 0x80, 0xBF, 0xC0] {
                    let bytes = [b0, b1, b2, b3];
                    let expected = std::str::from_utf8(&bytes[..3]).is_ok()
                        || std::str::from_utf8(&bytes).is_ok();
                    assert_eq!(
                        begins_with_char(&bytes),
                        expected,
                        "{:02x} {:02x} {:02x} {:02x}",
                        b0,
                        b1,
                        b2,
                        b3
                    );
                }
            }
        }
    }
}

#[test]
fn begins_with_char_on_nothing() {
    assert!(!begins_with_char(b""));
    assert!(begins_with_char(b"a"));
    assert!(begins_with_char(&[b'a', 0xFF]));
}
