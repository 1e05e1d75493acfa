use qwen_asr::audio::{pad_to_30s, pad_to_30s_multiple, pad_to_hop_multiple, reflection_pad, stft_frame_count};

#[test]
fn test_reflection_pad_basic() {
    let signal = vec![1.0f32, 2.0, 3.0];
    let padded = reflection_pad(&signal, 1);
    assert_eq!(padded, vec![2.0f32, 1.0, 2.0, 3.0, 2.0]);
}

#[test]
fn reflection_pad_wider_than_signal() {
    let signal = vec![1, 2, 3];
    assert_eq!(reflection_pad(&signal, 5), vec![3, 2, 1, 2, 3, 2, 1]);
}

#[test]
fn reflection_pad_single_sample() {
    assert_eq!(reflection_pad(&[7u8], 3), vec![7u8]);
}

#[test]
fn reflection_pad_zero() {
    assert_eq!(reflection_pad(&[1, 2, 3, 4], 0), vec![1, 2, 3, 4]);
}

#[test]
fn pad_to_30s_extends_and_truncates() {
    let short = vec![0.5f32; 10];
    let p = pad_to_30s(&short, 0.0);
    assert_eq!(p.len(), 480_000);
    assert_eq!(p[9], 0.5);
    assert_eq!(p[10], 0.0);
    let long: Vec<f32> = (0..500_000).map(|i| i as f32).collect();
    let t = pad_to_30s(&long, 0.0);
    assert_eq!(t.len(), 480_000);
    assert_eq!(t[479_999], 479_999.0);
}

#[test]
fn pad_to_30s_multiple_never_truncates() {
    assert_eq!(pad_to_30s_multiple::<f32>(&[], 0.0).len(), 480_000);
    assert_eq!(pad_to_30s_multiple(&vec![1.0f32; 480_000], 0.0).len(), 480_000);
    let p = pad_to_30s_multiple(&vec![1.0f32; 480_001], 0.0);
    assert_eq!(p.len(), 960_000);
    assert_eq!(p[480_000], 1.0);
    assert_eq!(p[480_001], 0.0);
}

#[test]
fn pad_to_hop_multiple_rounds_up() {
    assert_eq!(pad_to_hop_multiple(&vec![1.0f32; 16000], 160, 0.0).len(), 16000);
    let p = pad_to_hop_multiple(&vec![1.0f32; 16001], 160, 0.0);
    assert_eq!(p.len(), 16160);
    assert_eq!(p[16000], 1.0);
    assert_eq!(p[16001], 0.0);
    assert!(pad_to_hop_multiple::<f32>(&[], 160, 0.0).is_empty());
}

#[test]
fn stft_frames_of_padded_second() {
    // One second at 16 kHz, centre-padded by 200 on each side.
    assert_eq!(stft_frame_count(16_400, 400, 160), 101);
    assert_eq!(stft_frame_count(400, 400, 160), 1);
    assert_eq!(stft_frame_count(399, 400, 160), 0);
}
