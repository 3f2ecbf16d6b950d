use signing_proxy::text::{
    chars_of, line_at, nth_piece, push_decimal, replace_all_in, split_once_at, string_of, trimmed,
    trimmed_end_char, without_char, without_first, words_of,
};

fn v(s: &str) -> Vec<char> {
    s.chars().collect()
}

#[test]
fn lines_follow_str_lines() {
    let s = v("a\r\nb\n\nc\r");
    assert_eq!(line_at(&s, 0), Some(v("a")));
    assert_eq!(line_at(&s, 1), Some(v("b")));
    assert_eq!(line_at(&s, 2), Some(v("")));
    assert_eq!(line_at(&s, 3), Some(v("c\r")));
    assert_eq!(line_at(&s, 4), None);
    assert_eq!(line_at(&v(""), 0), None);
    assert_eq!(line_at(&v("x\n"), 1), None);
}

#[test]
fn words_follow_split_whitespace() {
    let w = words_of(&v("\u{a0} a\tbb\u{2003}c  "));
    assert_eq!(w, vec![v("a"), v("bb"), v("c")]);
    assert!(words_of(&v(" \n ")).is_empty());
}

#[test]
fn trimming() {
    assert_eq!(trimmed(&v(" \t a b \n")), v("a b"));
    assert_eq!(trimmed(&v("   ")), v(""));
    assert_eq!(trimmed_end_char(&v("ab\0\0"), '\0'), v("ab"));
    assert_eq!(trimmed_end_char(&v("\0a\0"), '\0'), v("\0a"));
}

#[test]
fn splitting() {
    assert_eq!(split_once_at(&v("a=b=c"), &v("=")), Some((v("a"), v("b=c"))));
    assert_eq!(split_once_at(&v("abc"), &v("=")), None);
    assert_eq!(nth_piece(&v("a; b; c; d"), &v("; "), 2), Some(v("c")));
    assert_eq!(nth_piece(&v("a; b"), &v("; "), 2), None);
    assert_eq!(nth_piece(&v("a; b; "), &v("; "), 2), Some(v("")));
}

#[test]
fn replacing() {
    assert_eq!(replace_all_in(&v("xaxa"), &v("a"), &v("yy")), v("xyyxyy"));
    assert_eq!(without_char(&v("\"a\"b"), '"'), v("ab"));
    assert_eq!(without_first(&v("/a/b"), &v("/")), v("a/b"));
    assert_eq!(without_first(&v("ab"), &v("/")), v("ab"));
}

#[test]
fn decimals() {
    let mut out = Vec::new();
    push_decimal(&mut out, 0);
    push_decimal(&mut out, 1234567);
    assert_eq!(out, v("01234567"));
}

#[test]
fn conversions() {
    assert_eq!(string_of(&chars_of("héllo")), "héllo");
}
