use qwen_asr::transcript::{
    accept_token, fix_repetitions, stop_on_repeated_half, strip_language_tag, DecodeAction,
    GreedyDecoder, MAX_NEW_TOKENS,
};

#[test]
fn fix_repetitions_leaves_short_text() {
    assert_eq!(fix_repetitions("hello"), "hello");
    let short_run = "a".repeat(39);
    assert_eq!(fix_repetitions(&short_run), short_run);
}

#[test]
fn fix_repetitions_collapses_long_character_run() {
    let text = format!("x{}{}", "a".repeat(30), "y".repeat(10));
    assert_eq!(fix_repetitions(&text), "xayyyyyyyyyy");
}

#[test]
fn fix_repetitions_run_of_twenty_is_a_pattern() {
    // No run is longer than twenty, but the twenty `a`s are a repeated
    // one-character pattern; the `b`s are in the unscanned tail.
    let text = format!("{}{}", "a".repeat(20), "b".repeat(20));
    assert_eq!(fix_repetitions(&text), format!("a{}", "b".repeat(20)));
}

#[test]
fn fix_repetitions_collapses_repeated_pattern() {
    assert_eq!(fix_repetitions(&"ab".repeat(20)), "ab");
    assert_eq!(fix_repetitions(&"ab".repeat(100)), "ab");
    let text = format!("{}tail", "abc".repeat(16));
    assert_eq!(fix_repetitions(&text), "abctail");
}

#[test]
fn fix_repetitions_mixed() {
    let text = format!("q{}{}{}end", "ab".repeat(15), "cd".repeat(3), "z".repeat(25));
    assert_eq!(fix_repetitions(&text), "qabcdcdcdzend");
}

#[test]
fn fix_repetitions_never_lengthens() {
    for text in ["ab".repeat(40), "x".repeat(100), "hello world ".repeat(10)] {
        assert!(fix_repetitions(&text).chars().count() <= text.chars().count());
    }
}

#[test]
fn strip_language_tag_after_marker() {
    assert_eq!(strip_language_tag("language English<asr_text>Hello world "), "Hello world");
}

#[test]
fn strip_language_tag_at_word_boundary() {
    assert_eq!(strip_language_tag("language English, hello"), ", hello");
    assert_eq!(strip_language_tag(" language French bonjour"), "bonjour");
}

#[test]
fn strip_language_tag_without_tag() {
    assert_eq!(strip_language_tag("  plain text "), "plain text");
    assert_eq!(strip_language_tag("language "), "language");
    assert_eq!(strip_language_tag("language Chinese你好"), "language Chinese你好");
}

#[test]
fn accept_token_stops_on_end_tokens() {
    let mut g = vec![1, 2, 3];
    assert!(!accept_token(&mut g, 151643, &[151643, 151645], 151645));
    assert!(!accept_token(&mut g, 9, &[151643], 9));
    assert_eq!(g, vec![1, 2, 3]);
    assert!(accept_token(&mut g, 4, &[151643], 9));
    assert_eq!(g, vec![1, 2, 3, 4]);
}

#[test]
fn accept_token_stops_on_alternating_pair() {
    // The last five are 7 8 7 8 7 and the next is 7 again.
    let mut g = vec![0, 0, 0, 0, 0, 7, 8, 7, 8, 7];
    assert!(!accept_token(&mut g, 7, &[], 99));
    assert_eq!(g.len(), 10);
    // Fewer than ten tokens: no check.
    let mut short = vec![7, 8, 7, 8, 7];
    assert!(accept_token(&mut short, 7, &[], 99));
    assert_eq!(short, vec![7, 8, 7, 8, 7, 7]);
}

#[test]
fn accept_token_alternation_needs_next_equal_to_first() {
    let mut g = vec![1, 2, 3, 4, 5, 7, 8, 7, 8, 7];
    assert!(!accept_token(&mut g, 7, &[], 99));
    assert_eq!(g.len(), 10);
    let mut g = vec![1, 2, 3, 4, 5, 7, 8, 7, 8, 7];
    assert!(accept_token(&mut g, 6, &[], 99));
    assert_eq!(g.len(), 11);
}

#[test]
fn stop_on_repeated_half_truncates() {
    let mut g: Vec<u32> = (0..10).chain(0..10).collect();
    assert!(!stop_on_repeated_half(&mut g, 15));
    assert!(!stop_on_repeated_half(&mut g, 0));
    assert_eq!(g.len(), 20);
    assert!(stop_on_repeated_half(&mut g, 32));
    assert_eq!(g, (0..10).collect::<Vec<u32>>());
}

#[test]
fn stop_on_repeated_half_needs_repeat() {
    let mut g: Vec<u32> = (0..20).collect();
    assert!(!stop_on_repeated_half(&mut g, 16));
    assert_eq!(g.len(), 20);
    let mut g: Vec<u32> = (0..19).collect();
    assert!(!stop_on_repeated_half(&mut g, 16));
}

#[test]
fn greedy_decoder_feeds_then_stops_at_eos() {
    let mut d = GreedyDecoder::new(5, MAX_NEW_TOKENS, vec![151643], 151645);
    assert_eq!(d.on_token(10), DecodeAction::Feed { token: 10, position: 5 });
    assert_eq!(d.on_token(11), DecodeAction::Feed { token: 11, position: 6 });
    assert_eq!(d.on_token(151645), DecodeAction::Stop);
    assert_eq!(d.generated, vec![10, 11]);
    assert_eq!(d.on_token(12), DecodeAction::Stop);
    assert_eq!(d.generated, vec![10, 11]);
}

#[test]
fn greedy_decoder_stops_after_max_new() {
    let mut d = GreedyDecoder::new(0, 2, vec![], 99);
    assert_eq!(d.on_token(1), DecodeAction::Feed { token: 1, position: 0 });
    assert_eq!(d.on_token(2), DecodeAction::Feed { token: 2, position: 1 });
    assert_eq!(d.on_token(3), DecodeAction::Stop);
    assert_eq!(d.generated, vec![1, 2]);
}

#[test]
fn greedy_decoder_cuts_repeated_half() {
    let mut d = GreedyDecoder::new(100, MAX_NEW_TOKENS, vec![], 9999);
    let pattern: Vec<u32> = (1..=8).collect();
    let mut fed = 0;
    let mut stopped = false;
    for _round in 0..10 {
        for &t in &pattern {
            match d.on_token(t) {
                DecodeAction::Feed { .. } => fed += 1,
                DecodeAction::Stop => {
                    stopped = true;
                    break;
                }
            }
        }
        if stopped {
            break;
        }
    }
    assert!(stopped);
    // At step 16 the 17 kept tokens do not split evenly; at step 32 the 33
    // kept tokens are 8 patterns and one token: halves of 16 repeat.
    assert_eq!(fed, 32);
    assert_eq!(d.generated, pattern.iter().cycle().take(16).copied().collect::<Vec<u32>>());
}
