use inf_rs::text::{
    count_char, find_char, from_chars, is_whitespace_char, strip_trailing_chars, to_chars,
    trim_chars,
};

fn chars(s: &str) -> Vec<char> {
    s.chars().collect()
}

#[test]
fn whitespace_is_what_the_standard_library_says() {
    for code in 0..=0x10ffffu32 {
        if let Some(c) = char::from_u32(code) {
            assert_eq!(is_whitespace_char(c), c.is_whitespace(), "U+{:04X}", code);
        }
    }
}

#[test]
fn strings_and_characters_convert_both_ways() {
    assert_eq!(to_chars("a\u{e9}\u{1f600}"), vec!['a', '\u{e9}', '\u{1f600}']);
    assert_eq!(from_chars(&['a', '\u{e9}', '\u{1f600}']), "a\u{e9}\u{1f600}");
    assert_eq!(to_chars(""), Vec::<char>::new());
    assert_eq!(from_chars(&[]), "");
}

#[test]
fn trim_agrees_with_the_standard_library() {
    for s in ["", "   ", " a ", "\t\r\n a b \u{a0}\u{3000}", "a", "\u{200b}a\u{200b}", " \u{feff} "] {
        assert_eq!(from_chars(trim_chars(&chars(s))), s.trim(), "{:?}", s);
    }
}

#[test]
fn find_gives_the_first_occurrence() {
    assert_eq!(find_char(&chars("a=b=c"), '='), Some(1));
    assert_eq!(find_char(&chars("=a"), '='), Some(0));
    assert_eq!(find_char(&chars("abc"), '='), None);
    assert_eq!(find_char(&chars(""), '='), None);
}

#[test]
fn strip_trailing_removes_the_whole_run() {
    assert_eq!(from_chars(strip_trailing_chars(&chars("a\\b\\\\\\"), '\\')), "a\\b");
    assert_eq!(from_chars(strip_trailing_chars(&chars("\\\\"), '\\')), "");
    assert_eq!(from_chars(strip_trailing_chars(&chars("ab"), '\\')), "ab");
}

#[test]
fn count_counts_every_occurrence() {
    assert_eq!(count_char(&chars("%a%%b"), '%'), 3);
    assert_eq!(count_char(&chars("ab"), '%'), 0);
    assert_eq!(count_char(&chars(""), '%'), 0);
}
