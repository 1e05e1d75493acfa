use qwen_asr::text::{
    chars_of, is_ascii_punctuation, is_whitespace, string_from_chars, string_of_char, trim,
    trim_range,
};

#[test]
fn character_classes() {
    assert!(is_whitespace(' ') && is_whitespace('\u{3000}') && !is_whitespace('a'));
    assert!(is_ascii_punctuation('!') && !is_ascii_punctuation('，'));
}

#[test]
fn string_helpers() {
    assert_eq!(chars_of("héllo"), vec!['h', 'é', 'l', 'l', 'o']);
    assert_eq!(string_from_chars(&['o', 'k']), "ok");
    assert_eq!(string_from_chars(&[]), "");
    assert_eq!(string_of_char('字'), "字");
}

#[test]
fn trimming() {
    assert_eq!(trim("  a b \n"), "a b");
    assert_eq!(trim("\u{3000}x\u{3000}"), "x");
    assert_eq!(trim("   "), "");
    let v = vec![' ', 'a', ' ', 'b', ' ', 'c'];
    assert_eq!(trim_range(&v, 0, 5), "a b");
    assert_eq!(trim_range(&v, 2, 2), "");
}
