use qwen_asr::srt::{format_srt_time, srt_document, srt_time_from_millis, SrtTime};

fn t(hours: u32, minutes: u32, seconds: u32, millis: u32) -> SrtTime {
    SrtTime { hours, minutes, seconds, millis }
}

#[test]
fn format_srt_time_pads_fields() {
    assert_eq!(format_srt_time(t(1, 2, 3, 4)), "01:02:03,004");
    assert_eq!(format_srt_time(t(0, 0, 0, 0)), "00:00:00,000");
    assert_eq!(format_srt_time(t(12, 59, 59, 999)), "12:59:59,999");
}

#[test]
fn millis_split_into_fields() {
    assert_eq!(srt_time_from_millis(3_723_004), t(1, 2, 3, 4));
    assert_eq!(srt_time_from_millis(0), t(0, 0, 0, 0));
    assert_eq!(srt_time_from_millis(59_999), t(0, 0, 59, 999));
    assert_eq!(srt_time_from_millis(60_000), t(0, 1, 0, 0));
    assert_eq!(format_srt_time(srt_time_from_millis(1_999_999)), "00:33:19,999");
    assert_eq!(format_srt_time(srt_time_from_millis(442_805_000)), "123:00:05,000");
}

#[test]
fn srt_document_numbers_entries() {
    let times = [(t(0, 0, 1, 0), t(0, 0, 2, 500)), (t(0, 0, 3, 0), t(0, 0, 4, 250))];
    let texts = vec![" Hello ".to_string(), "World".to_string()];
    assert_eq!(
        srt_document(&times, &texts).unwrap(),
        "1\n00:00:01,000 --> 00:00:02,500\nHello\n\n2\n00:00:03,000 --> 00:00:04,250\nWorld\n\n"
    );
}

#[test]
fn srt_document_skips_empty_text_and_numbers_cues_in_order() {
    let times = [
        (t(0, 0, 1, 0), t(0, 0, 2, 0)),
        (t(0, 0, 3, 0), t(0, 0, 4, 0)),
        (t(0, 0, 5, 0), t(0, 0, 6, 0)),
    ];
    let texts = vec!["a".to_string(), "  ".to_string(), "c".to_string()];
    assert_eq!(
        srt_document(&times, &texts).unwrap(),
        "1\n00:00:01,000 --> 00:00:02,000\na\n\n2\n00:00:05,000 --> 00:00:06,000\nc\n\n"
    );
}

#[test]
fn srt_document_pairs_up_to_shorter_list() {
    let times = [(t(0, 0, 1, 0), t(0, 0, 2, 0)), (t(0, 0, 3, 0), t(0, 0, 4, 0))];
    let texts = vec!["only".to_string()];
    assert_eq!(srt_document(&times, &texts).unwrap(), "1\n00:00:01,000 --> 00:00:02,000\nonly\n\n");
}

#[test]
fn srt_document_of_nothing_is_none() {
    assert_eq!(srt_document(&[], &["x".to_string()]), None);
    assert_eq!(srt_document(&[(t(0, 0, 0, 0), t(0, 0, 1, 0))], &[]), None);
}

#[test]
fn srt_document_all_empty_texts_is_empty_document() {
    let times = [(t(0, 0, 1, 0), t(0, 0, 2, 0))];
    assert_eq!(srt_document(&times, &[" ".to_string()]), Some(String::new()));
}

#[test]
fn cues_numbered_without_gaps_after_blank_texts() {
    let times = [
        (t(0, 0, 0, 0), t(0, 0, 1, 0)),
        (t(0, 0, 1, 0), t(0, 0, 2, 0)),
        (t(0, 0, 2, 0), t(0, 0, 3, 0)),
    ];
    let texts = vec!["a".to_string(), "  ".to_string(), "b".to_string()];
    assert_eq!(
        srt_document(&times, &texts).unwrap(),
        "1\n00:00:00,000 --> 00:00:01,000\na\n\n2\n00:00:02,000 --> 00:00:03,000\nb\n\n"
    );
}
