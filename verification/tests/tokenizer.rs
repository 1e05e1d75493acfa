use std::str::FromStr;

use qwen_asr::tokenizer::{
    assemble_prompt, build_prefix_ids, build_segment_prompt, build_suffix_ids, extract_text,
    forced_language_text, ids_after_separator, prefix_ids_from_pieces, segment_text,
    suffix_ids_from_pieces, template_piece_text, Qwen2Tokenizer, TemplatePiece, ASR_TEXT_SEP_ID,
};
use qwen_asr::translation::{translation_prompt_ids, TranslationDecoder};
use tokenizers::Tokenizer;

const AUDIO_PAD: u32 = 10;
const IM_START: u32 = 11;
const IM_END: u32 = 12;
const TIMESTAMP: u32 = 13;

fn added(id: u32, content: &str) -> String {
    format!(
        r#"{{"id": {id}, "content": "{content}", "single_word": false, "lstrip": false, "rstrip": false, "normalized": false, "special": true}}"#
    )
}

fn test_tokenizer(with_timestamp: bool, with_im_end: bool) -> Tokenizer {
    let mut tokens = vec![added(AUDIO_PAD, "<|audio_pad|>"), added(IM_START, "<|im_start|>")];
    let mut vocab = String::from(
        r#""<unk>": 0, "hello": 1, "world": 2, "system": 3, "user": 4, "assistant": 5, "language": 6, "English,": 7, "<|audio_pad|>": 10, "<|im_start|>": 11"#,
    );
    if with_im_end {
        tokens.push(added(IM_END, "<|im_end|>"));
        vocab.push_str(r#", "<|im_end|>": 12"#);
    }
    if with_timestamp {
        tokens.push(added(TIMESTAMP, "<timestamp>"));
        vocab.push_str(r#", "<timestamp>": 13"#);
    }
    let json = format!(
        r#"{{"version": "1.0", "truncation": null, "padding": null, "added_tokens": [{}], "normalizer": null, "pre_tokenizer": {{"type": "WhitespaceSplit"}}, "post_processor": null, "decoder": null, "model": {{"type": "WordLevel", "vocab": {{{}}}, "unk_token": "<unk>"}}}}"#,
        tokens.join(", "),
        vocab
    );
    Tokenizer::from_str(&json).unwrap()
}

fn qwen() -> Qwen2Tokenizer {
    Qwen2Tokenizer::from_tokenizer(test_tokenizer(true, true)).unwrap()
}

#[test]
fn special_tokens_are_looked_up() {
    let t = qwen();
    assert_eq!((t.audio_pad, t.im_start, t.im_end, t.timestamp_id), (AUDIO_PAD, IM_START, IM_END, Some(TIMESTAMP)));
    let t = Qwen2Tokenizer::from_tokenizer(test_tokenizer(false, true)).unwrap();
    assert_eq!(t.timestamp_id, None);
}

#[test]
fn missing_required_token_is_an_error() {
    match Qwen2Tokenizer::from_tokenizer(test_tokenizer(true, false)) {
        Err(e) => assert_eq!(e.token, "<|im_end|>"),
        Ok(_) => panic!("expected an error"),
    }
}

#[test]
fn from_token_ids_checks_in_order() {
    let e = Qwen2Tokenizer::from_token_ids(test_tokenizer(true, true), None, None, Some(1), None).err().unwrap();
    assert_eq!(e.token, "<|audio_pad|>");
    let e = Qwen2Tokenizer::from_token_ids(test_tokenizer(true, true), Some(1), None, None, None).err().unwrap();
    assert_eq!(e.token, "<|im_start|>");
    let t = Qwen2Tokenizer::from_token_ids(test_tokenizer(true, true), Some(1), Some(2), Some(3), Some(4)).unwrap();
    assert_eq!((t.audio_pad, t.im_start, t.im_end, t.timestamp_id), (1, 2, 3, Some(4)));
}

#[test]
fn encode_and_decode() {
    let t = qwen();
    assert_eq!(t.encode("hello world"), vec![1, 2]);
    assert_eq!(t.encode("hello <|im_end|>"), vec![1, IM_END]);
    assert_eq!(t.decode(&[1, 2]), "hello world");
    assert_eq!(t.decode(&[1, IM_END, 2]), "hello world");
}

#[test]
fn prefix_and_suffix_ids() {
    let t = qwen();
    assert_eq!(build_prefix_ids(&t, "", 100), vec![IM_START, 3, IM_END, IM_START, 4, 100]);
    assert_eq!(build_prefix_ids(&t, "hello world", 100), vec![IM_START, 3, 1, 2, IM_END, IM_START, 4, 100]);
    assert_eq!(build_suffix_ids(&t, 101), vec![101, IM_END, IM_START, 5]);
}

#[test]
fn forced_language() {
    assert_eq!(forced_language_text("English"), "language English<asr_text>");
}

#[test]
fn assemble_prompt_places_audio_tokens() {
    let (ids, before, after) = assemble_prompt(vec![1, 2], vec![3], 9, 3);
    assert_eq!(ids, vec![1, 2, 9, 9, 9, 3]);
    assert_eq!((before, after), (2, 5));
}

#[test]
fn segment_prompt() {
    let t = qwen();
    let (ids, before, after) = build_segment_prompt(&t, "", None, 100, 101, AUDIO_PAD, 2);
    assert_eq!(ids, vec![IM_START, 3, IM_END, IM_START, 4, 100, AUDIO_PAD, AUDIO_PAD, 101, IM_END, IM_START, 5]);
    assert_eq!((before, after), (6, 8));
    let (ids, _, _) = build_segment_prompt(&t, "", Some("English"), 100, 101, AUDIO_PAD, 1);
    // `language` is known; `English<asr_text>` is not.
    assert_eq!(ids, vec![IM_START, 3, IM_END, IM_START, 4, 100, AUDIO_PAD, 101, IM_END, IM_START, 5, 6, 0]);
}

#[test]
fn extract_text_after_separator() {
    let t = qwen();
    assert_eq!(extract_text(&t, &[6, 7, ASR_TEXT_SEP_ID, 1, 2]), "hello world");
}

#[test]
fn extract_text_strips_language_tag() {
    let t = qwen();
    assert_eq!(extract_text(&t, &[6, 7, 1, 2]), ", hello world");
    assert_eq!(extract_text(&t, &[1, 2]), "hello world");
}

#[test]
fn segment_text_trims_and_collapses() {
    let t = qwen();
    let mut ids = vec![ASR_TEXT_SEP_ID];
    ids.extend(std::iter::repeat(1).take(20));
    // Twenty words: the nineteen copies of the six-character pattern
    // `hello ` collapse to one, and the last word stays.
    assert_eq!(segment_text(&t, &ids), "hello hello");
}

#[test]
fn prompt_pieces_assembly() {
    let t = qwen();
    assert_eq!(
        prefix_ids_from_pieces(&t, 100, vec![3], vec![1, 2], vec![], vec![4]),
        vec![IM_START, 3, 1, 2, IM_END, IM_START, 4, 100]
    );
    assert_eq!(suffix_ids_from_pieces(&t, 101, vec![9], vec![5]), vec![101, IM_END, 9, IM_START, 5]);
}

#[test]
fn tokens_after_first_separator() {
    assert_eq!(ids_after_separator(&[1, ASR_TEXT_SEP_ID, 2, ASR_TEXT_SEP_ID, 3]), Some(vec![2, ASR_TEXT_SEP_ID, 3]));
    assert_eq!(ids_after_separator(&[1, 2, ASR_TEXT_SEP_ID]), Some(vec![]));
    assert_eq!(ids_after_separator(&[1, 2]), None);
}

#[test]
fn template_pieces() {
    assert_eq!(template_piece_text(TemplatePiece::System), "system\n");
    assert_eq!(template_piece_text(TemplatePiece::Newline), "\n");
    assert_eq!(template_piece_text(TemplatePiece::User), "user\n");
    assert_eq!(template_piece_text(TemplatePiece::Assistant), "assistant\n");
}

#[test]
fn translation_prompt_and_output() {
    let tokenizer = test_tokenizer(true, true);
    let ids = translation_prompt_ids(&tokenizer, "English", "hello world ").unwrap();
    // The prompt ends with the source text, whose words are known.
    assert!(ids.windows(2).any(|w| w == [1, 2]));
    let mut d = TranslationDecoder::new(vec![7, 7], 10, 99);
    assert!(d.on_token(1));
    assert!(d.on_token(2));
    assert!(!d.on_token(99));
    assert_eq!(d.translation(&tokenizer), Some("hello world".to_string()));
}
