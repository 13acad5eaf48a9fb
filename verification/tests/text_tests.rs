use bins::text::{blank, chars_of, decimal_chars, is_whitespace_char, join_chars, split_chars, str_eq, string_of};

#[test]
fn decimal_renders_numbers() {
    assert_eq!(decimal_chars(0), vec!['0']);
    assert_eq!(decimal_chars(907).into_iter().collect::<String>(), "907");
}

#[test]
fn split_and_join_are_inverse_on_lines() {
    let v = chars_of("a\n\nbc\n");
    let pieces = split_chars(&v, '\n');
    let got: Vec<String> = pieces.iter().map(|p| p.iter().collect()).collect();
    assert_eq!(got, vec!["a", "", "bc", ""]);
    let back = join_chars(&pieces, &vec!['\n']);
    assert_eq!(string_of(&back), "a\n\nbc\n");
}

#[test]
fn whitespace_follows_unicode() {
    assert!(is_whitespace_char('\u{3000}'));
    assert!(is_whitespace_char('\t'));
    assert!(!is_whitespace_char('x'));
    assert!(blank(&chars_of(" \t\u{00A0}")));
    assert!(!blank(&chars_of(" a ")));
}

#[test]
fn strings_compare_by_characters() {
    assert!(str_eq("abc", "abc"));
    assert!(!str_eq("abc", "abd"));
    assert!(!str_eq("ab", "abc"));
}
