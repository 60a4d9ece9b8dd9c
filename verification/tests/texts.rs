use diffie::text::{
    chars_text, decimal_text, hex_text, join_texts, number_or, number_text, padded_hex, text_bytes,
    text_chars, white_space,
};

#[test]
fn white_space_is_that_of_std() {
    for c in '\0'..=char::MAX {
        assert_eq!(white_space(c), c.is_whitespace(), "{:?}", c);
    }
}

#[test]
fn numbers_in_several_bases() {
    for n in [0, 1, 7, 8, 9, 10, 15, 16, 255, 256, 1_000_000, u64::MAX] {
        assert_eq!(number_text(n, 10), n.to_string());
        assert_eq!(number_text(n, 8), format!("{:o}", n));
        assert_eq!(number_text(n, 16), format!("{:x}", n));
        assert_eq!(padded_hex(n, 8), format!("{:08x}", n));
        assert_eq!(padded_hex(n, 16), format!("{:016x}", n));
    }
    for n in [0, -1, 1, i64::MIN, i64::MAX] {
        assert_eq!(decimal_text(n), n.to_string());
    }
    assert_eq!(hex_text(&[0, 1, 0xab, 0xff]), "0001abff");
}

#[test]
fn numbers_are_read_as_std_reads_them() {
    for text in [
        "", " ", "0", "7", "+7", "-7", "+", "-", " 12\n", "1 2", "0x10", "18446744073709551615",
        "18446744073709551616", "\u{2003}5\u{2003}", "\u{661}",
    ] {
        assert_eq!(number_or(text, 99), text.trim().parse().unwrap_or(99), "{:?}", text);
    }
}

#[test]
fn texts_are_cut_and_joined() {
    let chars = text_chars("h\u{e9}llo");
    assert_eq!(chars_text(&chars, 1, 3), "\u{e9}l");
    assert_eq!(text_bytes("h\u{e9}"), "h\u{e9}".as_bytes());
    let list = vec!["a".to_string(), "b".to_string(), "c".to_string()];
    assert_eq!(join_texts(&list, ", "), "a, b, c");
    assert_eq!(join_texts(&Vec::new(), ", "), "");
}
