use fm_offline_pos::hex_text::HexError;
use fm_offline_pos::text::{
    chars_of, is_whitespace, parse_u64, push_decimal, push_hex_list, push_hexadecimal, same_bytes,
    squeeze, starts_with, take_head, trim,
};

#[test]
fn white_space_is_what_unicode_says() {
    for u in 0..=0x10_ffffu32 {
        if let Some(c) = char::from_u32(u) {
            assert_eq!(is_whitespace(c), c.is_whitespace(), "{:x}", u);
        }
    }
}

#[test]
fn trimming_and_squeezing() {
    assert_eq!(trim("  a b\u{3000}\n"), "a b");
    assert_eq!(trim(""), "");
    assert_eq!(trim(" \t "), "");
    assert_eq!(trim("\u{e9} x"), "\u{e9} x");
    assert_eq!(squeeze(" a\tb\n\u{a0}c "), "abc");
    assert_eq!(squeeze(""), "");
    assert_eq!(chars_of("a\u{e9}\u{1f600}"), vec!['a', '\u{e9}', '\u{1f600}']);
}

#[test]
fn numbers_are_written_as_the_standard_library_writes_them() {
    for n in [0, 1, 9, 10, 15, 16, 99, 100, 255, 256, 1 << 40, u64::MAX] {
        let mut out = "x".to_string();
        push_decimal(&mut out, n);
        assert_eq!(out, format!("x{}", n));
        let mut out = "x".to_string();
        push_hexadecimal(&mut out, n);
        assert_eq!(out, format!("x{:x}", n));
    }
}

#[test]
fn bytes_are_written_as_the_standard_library_writes_them() {
    for bytes in [&[][..], &[0][..], &[1, 0xab, 0xff][..]] {
        let mut out = String::new();
        push_hex_list(&mut out, bytes);
        assert_eq!(out, format!("{:02x?}", bytes));
    }
}

#[test]
fn numbers_are_read_as_the_standard_library_reads_them() {
    let texts = [
        "",
        "+",
        "-",
        "0",
        "00",
        "+7",
        "++7",
        "-7",
        " 7",
        "7 ",
        "7a",
        "10000",
        "18446744073709551615",
        "18446744073709551616",
        "000018446744073709551615",
        "99999999999999999999999999",
        "1_0",
        "\u{663}",
    ];
    for text in texts {
        assert_eq!(parse_u64(text), text.parse::<u64>().ok(), "{:?}", text);
    }
}

#[test]
fn heads_end_with_whole_characters() {
    assert_eq!(take_head("abc", 2), "ab");
    assert_eq!(take_head("abc", 9), "abc");
    assert_eq!(take_head("a\u{e9}b", 2), "a");
    assert_eq!(take_head("a\u{e9}b", 3), "a\u{e9}");
    assert_eq!(take_head("\u{212a}", 2), "");
    assert_eq!(take_head("\u{1f600}x", 4), "\u{1f600}");
}

#[test]
fn bytes_are_compared() {
    assert!(starts_with(b"abc", b""));
    assert!(starts_with(b"abc", b"ab"));
    assert!(!starts_with(b"abc", b"b"));
    assert!(!starts_with(b"a", b"ab"));
    assert!(same_bytes(b"ab", b"ab"));
    assert!(!same_bytes(b"ab", b"abc"));
    assert!(!same_bytes(b"abc", b"ab"));
}

#[test]
fn hex_errors_are_described() {
    let bad = HexError::InvalidHexCharacter { c: 'g', index: 12 };
    assert_eq!(bad.message(), "Invalid character 'g' at position 12");
    let newline = HexError::InvalidHexCharacter { c: '\n', index: 5 };
    assert_eq!(newline.message(), "Invalid character '\\n' at position 5");
    let quote = HexError::InvalidHexCharacter { c: '\'', index: 0 };
    assert_eq!(quote.message(), "Invalid character '\\'' at position 0");
    assert_eq!(HexError::OddLength.message(), "Odd number of digits");
    assert_eq!(HexError::InvalidStringLength.message(), "Invalid string length");
}
