use qwen_asr::translation::TranslationDecoder;

#[test]
fn stops_at_end_of_sequence() {
    let mut d = TranslationDecoder::new(vec![1, 2, 3], 10, 99);
    assert!(d.wants_more());
    assert!(d.on_token(4));
    assert!(d.on_token(5));
    assert!(!d.on_token(99));
    assert!(!d.wants_more());
    assert_eq!(d.tokens, vec![1, 2, 3, 4, 5]);
    assert_eq!(d.generated(), vec![4, 5]);
    assert!(!d.on_token(6));
    assert_eq!(d.generated(), vec![4, 5]);
}

#[test]
fn stops_after_max_new_tokens() {
    let mut d = TranslationDecoder::new(vec![7], 2, 99);
    assert!(d.on_token(1));
    assert!(!d.on_token(2));
    assert_eq!(d.generated(), vec![1, 2]);
}

#[test]
fn no_new_tokens_allowed() {
    let d = TranslationDecoder::new(vec![7], 0, 99);
    assert!(!d.wants_more());
    assert!(d.generated().is_empty());
}
