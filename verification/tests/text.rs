use afdn_animator::text::{space, split, split_whitespace, trim};

#[test]
fn space_is_the_white_space_of_unicode() {
    for n in 0..=0x10ffffu32 {
        if let Some(c) = char::from_u32(n) {
            assert_eq!(space(c), c.is_whitespace(), "U+{:04X}", n);
        }
    }
}

#[test]
fn split_cuts_at_each_separator() {
    assert_eq!(split("a;b;c", ';'), vec!["a", "b", "c"]);
    assert_eq!(split("s0 ; s2", ';'), vec!["s0 ", " s2"]);
}

#[test]
fn split_keeps_empty_pieces() {
    assert_eq!(split("", ';'), vec![""]);
    assert_eq!(split(";", ';'), vec!["", ""]);
    assert_eq!(split("a;;b;", ';'), vec!["a", "", "b", ""]);
    assert_eq!(split("abc", ';'), vec!["abc"]);
}

#[test]
fn split_agrees_with_std() {
    for text in ["", "\n", "a\nb", "a\n\nb\n", "é\nß\n", "one line", "\n\n\n"] {
        let expected: Vec<String> = text.split('\n').map(|s| s.to_string()).collect();
        assert_eq!(split(text, '\n'), expected);
    }
}

#[test]
fn split_whitespace_gives_the_words() {
    assert_eq!(split_whitespace("s0 a > s0"), vec!["s0", "a", ">", "s0"]);
    assert_eq!(split_whitespace("  s0\t\ta  "), vec!["s0", "a"]);
    assert!(split_whitespace("").is_empty());
    assert!(split_whitespace(" \t\r\n").is_empty());
    assert_eq!(split_whitespace("x"), vec!["x"]);
}

#[test]
fn split_whitespace_agrees_with_std() {
    for text in [
        "",
        " ",
        "a",
        " a",
        "a ",
        "a b",
        "a\u{a0}b\u{3000}c",
        "\u{2003}é  ß\u{85}",
        "s0 b > s1\r",
    ] {
        let expected: Vec<String> = text.split_whitespace().map(|s| s.to_string()).collect();
        assert_eq!(split_whitespace(text), expected);
    }
}

#[test]
fn trim_takes_the_white_space_off_both_ends() {
    assert_eq!(trim("  aabb \n"), "aabb");
    assert_eq!(trim("a b"), "a b");
    assert_eq!(trim("\ta b\t"), "a b");
    assert_eq!(trim(""), "");
    assert_eq!(trim(" \t "), "");
    assert_eq!(trim("x"), "x");
}

#[test]
fn trim_agrees_with_std() {
    for text in ["", " ", "a", " a", "a ", " a b ", "\u{a0}é\u{3000}", "\r\nwrd : ab\r\n"] {
        assert_eq!(trim(text), text.trim());
    }
}
