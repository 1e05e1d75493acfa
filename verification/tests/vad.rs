use qwen_asr::vad::{detect_segments, FrameSegment, VOICE_THRESHOLD_KEY};

/// Order key of a speech probability: keys compare as the probabilities do.
fn key(p: f32) -> u32 {
    let bits = p.to_bits();
    if bits & 0x8000_0000 != 0 {
        !bits
    } else {
        bits | 0x8000_0000
    }
}

fn scores(n: usize, speech: &[(usize, usize)], level: f32) -> Vec<u32> {
    let mut s = vec![key(0.1); n];
    for &(a, b) in speech {
        for x in &mut s[a..b] {
            *x = key(level);
        }
    }
    s
}

fn seg(a: usize, b: usize) -> FrameSegment {
    FrameSegment { start_frame: a, end_frame: b }
}

#[test]
fn threshold_key_is_one_half() {
    assert_eq!(key(0.5), VOICE_THRESHOLD_KEY);
    assert!(key(0.49) < VOICE_THRESHOLD_KEY);
    assert!(key(0.51) > VOICE_THRESHOLD_KEY);
}

#[test]
fn no_scores_no_segments() {
    assert_eq!(detect_segments(&[]), vec![]);
}

#[test]
fn silence_has_no_segments() {
    assert_eq!(detect_segments(&scores(200, &[], 0.9)), vec![]);
}

#[test]
fn one_speech_run() {
    assert_eq!(detect_segments(&scores(100, &[(10, 50)], 0.9)), vec![seg(10, 50)]);
}

#[test]
fn speech_at_exactly_the_threshold_counts() {
    assert_eq!(detect_segments(&scores(100, &[(0, 40)], 0.5)), vec![seg(0, 40)]);
}

#[test]
fn speech_run_to_the_end() {
    assert_eq!(detect_segments(&scores(100, &[(60, 100)], 0.9)), vec![seg(60, 100)]);
}

#[test]
fn short_runs_are_dropped() {
    // 31 frames are 0.496 s: too short; 32 frames are 0.512 s.
    assert_eq!(detect_segments(&scores(100, &[(10, 40)], 0.9)), vec![]);
    assert_eq!(detect_segments(&scores(100, &[(10, 41)], 0.9)), vec![]);
    assert_eq!(detect_segments(&scores(100, &[(10, 42)], 0.9)), vec![seg(10, 42)]);
}

#[test]
fn close_runs_are_merged() {
    assert_eq!(detect_segments(&scores(100, &[(10, 30), (40, 60)], 0.9)), vec![seg(10, 60)]);
    // Two runs too short alone survive once merged.
    assert_eq!(detect_segments(&scores(100, &[(0, 10), (30, 40)], 0.9)), vec![seg(0, 40)]);
}

#[test]
fn distant_runs_stay_apart() {
    // A gap of 32 frames (0.512 s) keeps the runs apart; 31 frames
    // (0.496 s) merge them.
    assert_eq!(
        detect_segments(&scores(200, &[(0, 40), (72, 120)], 0.9)),
        vec![seg(0, 40), seg(72, 120)]
    );
    assert_eq!(detect_segments(&scores(200, &[(0, 40), (71, 120)], 0.9)), vec![seg(0, 120)]);
}

#[test]
fn long_run_is_cut_at_first_quietest_frame() {
    let s = scores(4000, &[(0, 4000)], 0.9);
    assert_eq!(detect_segments(&s), vec![seg(0, 1813), seg(1813, 3626), seg(3626, 4000)]);
}

#[test]
fn long_run_is_cut_at_the_dip() {
    let mut s = scores(4000, &[(0, 4000)], 0.9);
    s[1850] = key(0.6);
    assert_eq!(detect_segments(&s), vec![seg(0, 1850), seg(1850, 3663), seg(3663, 4000)]);
}

#[test]
fn run_of_max_length_is_kept_whole() {
    let s = scores(2000, &[(0, 1875)], 0.9);
    assert_eq!(detect_segments(&s), vec![seg(0, 1875)]);
}

#[test]
fn long_run_cut_near_its_end() {
    let s = scores(1900, &[(0, 1900)], 0.9);
    // Cut at 1813; the remaining 87 frames are long enough.
    assert_eq!(detect_segments(&s), vec![seg(0, 1813), seg(1813, 1900)]);
}

#[test]
fn short_last_piece_is_dropped() {
    let mut s = scores(1900, &[(0, 1900)], 0.9);
    s[1870] = key(0.6);
    // Cut at the dip; the last 20 frames are too short.
    assert_eq!(detect_segments(&s), vec![seg(0, 1870)]);
}

#[test]
fn segments_are_ordered_and_long_enough() {
    let mut s = scores(6000, &[(5, 2500), (2520, 2530), (2600, 6000)], 0.8);
    s[3000] = key(0.55);
    let segs = detect_segments(&s);
    assert!(!segs.is_empty());
    for w in segs.windows(2) {
        assert!(w[0].end_frame <= w[1].start_frame);
    }
    for g in &segs {
        assert!(g.end_frame - g.start_frame >= 32);
        assert!(g.end_frame <= 6000);
    }
}

#[test]
fn no_cut_past_the_length_limit() {
    // A quieter frame just after 30 s is not chosen: pieces never exceed
    // 1875 frames.
    let mut s = scores(4000, &[(0, 4000)], 0.9);
    s[1900] = key(0.6);
    let segs = detect_segments(&s);
    assert_eq!(segs, vec![seg(0, 1813), seg(1813, 3626), seg(3626, 4000)]);
    for g in &segs {
        assert!(g.end_frame - g.start_frame <= 1875);
    }
    let mut s = scores(2000, &[(0, 2000)], 0.9);
    s[1875] = key(0.6);
    assert_eq!(detect_segments(&s), vec![seg(0, 1875), seg(1875, 2000)]);
}
