use simplehf::text::{
    contains_char, decimal_text, find_char, has_text, has_white_space_property, join, last_piece,
    parse_u64, same_text, split, text_less, trim_ends, Trim,
};

#[test]
fn splitting_is_that_of_the_standard_library() {
    for s in ["", "/", "a", "a/b", "/a/", "a//b", "\u{e9}/\u{4e2d}/"] {
        let expected: Vec<String> = s.split('/').map(str::to_string).collect();
        assert_eq!(split(s, '/'), expected);
        let parts: Vec<&str> = s.split('/').collect();
        assert_eq!(join(&parts, "/"), s);
        assert_eq!(last_piece(s, '/'), s.rsplit('/').next().unwrap());
    }
    assert_eq!(join(&[], "/"), "");
}

#[test]
fn white_space_is_that_of_the_standard_library() {
    for code in 0..=0x10ffff {
        if let Some(c) = char::from_u32(code) {
            assert_eq!(has_white_space_property(c), c.is_whitespace(), "{code:x}");
        }
    }
}

#[test]
fn trimming_takes_both_ends() {
    for s in ["", " ", " a b ", "\ta\n", "\u{2003}x\u{85}", "a"] {
        assert_eq!(trim_ends(s, Trim::WhiteSpace), s.trim());
    }
    for s in ["", "/", "//", "/a/b/", "a"] {
        assert_eq!(trim_ends(s, Trim::Slash), s.trim_matches('/'));
    }
}

#[test]
fn numbers_are_read_as_the_standard_library_reads_them() {
    for s in [
        "", "+", "0", "7", "+7", "-7", "++7", "12a", " 1", "1 ", "007", "1_0", "18446744073709551615",
        "18446744073709551616", "99999999999999999999999", "\u{661}", "+18446744073709551615",
    ] {
        assert_eq!(parse_u64(s), s.parse::<u64>().ok(), "{s:?}");
    }
}

#[test]
fn numbers_are_written_as_the_standard_library_writes_them() {
    for n in [0, 9, 10, 11, 99, 100, 1024, 4096, u64::MAX] {
        assert_eq!(decimal_text(n), n.to_string());
    }
}

#[test]
fn texts_compare_by_code_point() {
    let samples = ["", "a", "ab", "b", "B", "\u{e9}", "\u{ffff}", "\u{10000}", "aa", "z"];
    for a in samples {
        for b in samples {
            assert_eq!(text_less(a, b), a < b, "{a:?} {b:?}");
            assert_eq!(same_text(a, b), a == b);
        }
    }
}

#[test]
fn texts_are_searched() {
    assert!(has_text("abcabd", "abd"));
    assert!(!has_text("abcabc", "abd"));
    assert!(has_text("abc", ""));
    assert!(!has_text("ab", "abc"));
    assert!(contains_char("abc", 'c'));
    assert!(!contains_char("abc", 'd'));
    let chars: Vec<char> = "xaya".chars().collect();
    assert_eq!(find_char(&chars, 'a'), Some(1));
    assert_eq!(find_char(&chars, 'b'), None);
}
