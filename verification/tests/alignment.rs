use qwen_asr::alignment::{audio_pad_span, build_align_prompt, class_timestamps, timestamp_positions, AlignError};
use qwen_asr::text_processor::parse_timestamp;
use qwen_asr::timestamps::FixedTimestamp;
use qwen_asr::timestamps::FixedTimestamp::Exact;

fn ms(t: FixedTimestamp) -> f64 {
    match t {
        FixedTimestamp::Exact(v) => v as f64,
        FixedTimestamp::Interpolated { left, right, step, steps } => {
            left as f64 + (right as f64 - left as f64) / steps as f64 * step as f64
        }
    }
}

#[test]
fn align_prompt_has_one_pad_per_frame() {
    assert_eq!(
        build_align_prompt(2, "<timestamp><timestamp>hi<timestamp><timestamp>"),
        "<|audio_start|><|audio_pad|><|audio_pad|><|audio_end|><timestamp><timestamp>hi<timestamp><timestamp>"
    );
    assert_eq!(build_align_prompt(0, "x"), "<|audio_start|><|audio_end|>x");
}

#[test]
fn audio_pad_span_covers_pads() {
    assert_eq!(audio_pad_span(&[5, 7, 7, 7, 9], 7, 3), Ok((1, 4)));
}

#[test]
fn audio_pad_span_count_mismatch() {
    assert_eq!(
        audio_pad_span(&[5, 7, 7, 7, 9], 7, 2),
        Err(AlignError::PadCountMismatch { found: 3, expected: 2 })
    );
    assert_eq!(
        audio_pad_span(&[5, 9], 7, 1),
        Err(AlignError::PadCountMismatch { found: 0, expected: 1 })
    );
}

#[test]
fn timestamp_positions_within_logits() {
    assert_eq!(timestamp_positions(&[1, 13, 2, 13, 13], Some(13), 4), Ok(vec![1, 3]));
    assert_eq!(timestamp_positions(&[13, 13], Some(13), 0), Ok(vec![]));
}

#[test]
fn timestamp_positions_errors() {
    assert_eq!(timestamp_positions(&[1, 2], None, 2), Err(AlignError::MissingTimestampToken));
    assert_eq!(timestamp_positions(&[1, 2], Some(13), 2), Err(AlignError::NoTimestampTokens));
}

#[test]
fn class_timestamps_scale_and_repair() {
    assert_eq!(
        class_timestamps(&[1, 3, 2, 4], 80),
        vec![Exact(80), Exact(240), Exact(240), Exact(320)]
    );
    assert_eq!(class_timestamps(&[], 80), vec![]);
    assert_eq!(class_timestamps(&[u32::MAX], u32::MAX), vec![Exact(u32::MAX as u64 * u32::MAX as u64)]);
}

#[test]
fn aligned_word_times_never_go_back() {
    let words: Vec<String> = ["a", "b", "c", "d"].iter().map(|w| w.to_string()).collect();
    let fixed = class_timestamps(&[0, 3, 2, 9, 8, 7, 1, 12, 13, 15], 80);
    let items = parse_timestamp(&words, &fixed);
    let mut last = 0.0;
    for item in &items {
        let (s, e) = (ms(item.start_time), ms(item.end_time));
        assert!(last <= s && s <= e, "{:?}", items);
        last = e;
    }
}

#[test]
fn audio_pad_span_no_frames_with_pads_is_a_mismatch() {
    assert_eq!(
        audio_pad_span(&[7, 7], 7, 0),
        Err(AlignError::PadCountMismatch { found: 2, expected: 0 })
    );
}
