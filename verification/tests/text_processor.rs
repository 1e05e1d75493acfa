use qwen_asr::text_processor::{encode_timestamp, parse_timestamp, split_words};
use qwen_asr::timestamps::FixedTimestamp::Exact;

fn words(v: &[&str]) -> Vec<String> {
    v.iter().map(|w| w.to_string()).collect()
}

#[test]
fn split_words_on_white_space() {
    assert_eq!(split_words("Hello  world\tfoo\n", "English"), words(&["Hello", "world", "foo"]));
}

#[test]
fn split_words_keeps_punctuation_in_space_split() {
    assert_eq!(split_words(" it's, fine. ", "French"), words(&["it's,", "fine."]));
}

#[test]
fn split_words_empty_text() {
    assert_eq!(split_words("", "English"), Vec::<String>::new());
    assert_eq!(split_words("   ", "Chinese"), Vec::<String>::new());
}

#[test]
fn split_words_chinese_characters_and_latin_runs() {
    assert_eq!(
        split_words("你好，world! 测试", "Chinese"),
        words(&["你", "好", "，", "world", "测", "试"])
    );
}

#[test]
fn split_words_other_symbols_stand_alone() {
    assert_eq!(split_words("a—b", "Japanese"), words(&["a", "—", "b"]));
}

#[test]
fn split_words_apostrophes_and_hyphens_join_words() {
    assert_eq!(split_words("don't-stop 안녕", "Korean"), words(&["don't-stop", "안", "녕"]));
}

#[test]
fn split_words_never_yields_empty_words() {
    for (text, lang) in [("  a  b ", "English"), ("，，a,,b", "Chinese"), ("\n\t", "Korean")] {
        for w in split_words(text, lang) {
            assert!(!w.is_empty());
        }
    }
}

#[test]
fn encode_timestamp_marks_every_word() {
    let (w, formatted) = encode_timestamp("hi there", "English");
    assert_eq!(w, words(&["hi", "there"]));
    assert_eq!(
        formatted,
        "<timestamp><timestamp>hi<timestamp><timestamp>there<timestamp><timestamp>"
    );
}

#[test]
fn encode_timestamp_of_empty_text() {
    let (w, formatted) = encode_timestamp("", "English");
    assert!(w.is_empty());
    assert_eq!(formatted, "<timestamp><timestamp>");
}

#[test]
fn parse_timestamp_pairs_words_with_times() {
    let items = parse_timestamp(&words(&["a", "b"]), &[Exact(10), Exact(20), Exact(30)]);
    assert_eq!(items.len(), 2);
    assert_eq!(items[0].text, "a");
    assert_eq!(items[0].start_time, Exact(10));
    assert_eq!(items[0].end_time, Exact(20));
    assert_eq!(items[1].text, "b");
    assert_eq!(items[1].start_time, Exact(30));
    assert_eq!(items[1].end_time, Exact(0));
}
