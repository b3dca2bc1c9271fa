use kv_store::text::{chars_of, is_white_space, parse_u64, push_decimal, split_words, trimmed};

#[test]
fn white_space_is_that_of_unicode() {
    for c in '\0'..=char::MAX {
        assert_eq!(is_white_space(c), c.is_whitespace(), "{:?}", c);
    }
}

#[test]
fn trimming_agrees_with_the_standard_library() {
    for s in ["", " ", " a ", "\ta b\n", "\u{3000}x\u{85}", "a", "  a  b  ", "\u{200b}a"] {
        assert_eq!(trimmed(s), s.trim());
    }
}

#[test]
fn words_agree_with_the_standard_library() {
    for s in ["", " ", "a", "a b", " a  b ", "put k v 8001", "k\u{e9}y \u{4e16}\u{754c} \u{1f980}"] {
        let want: Vec<&str> = s.split(" ").collect();
        assert_eq!(split_words(s), want);
        assert_eq!(split_words(s).join(" "), s);
    }
}

#[test]
fn numbers_agree_with_the_standard_library() {
    for s in [
        "", "+", "-", "0", "+0", "-0", "7", "007", "+42", "++1", "1+", " 1", "1 ", "1_000", "x",
        "18446744073709551615", "+18446744073709551615", "18446744073709551616",
        "00000000000000000000000000018446744073709551615", "99999999999999999999999", "\u{663}",
    ] {
        assert_eq!(parse_u64(s), s.parse::<u64>().ok(), "{s}");
    }
}

#[test]
fn decimals_read_back() {
    for n in [0, 1, 9, 10, 11, 99, 100, 8001, 1234567890, u64::MAX - 1, u64::MAX] {
        let mut s = String::from("n=");
        push_decimal(&mut s, n);
        assert_eq!(s, format!("n={n}"));
        assert_eq!(parse_u64(&s[2..]), Some(n));
    }
}

#[test]
fn characters_in_order() {
    assert_eq!(chars_of("a\u{e9}\u{1f980}"), vec!['a', '\u{e9}', '\u{1f980}']);
}
