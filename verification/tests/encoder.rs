use qwen_asr::encoder::{conv_freq_bins, conv_out_dim, mel_chunks};

#[test]
fn freq_bins_after_three_convolutions() {
    assert_eq!(conv_freq_bins(128), 16);
    assert_eq!(conv_freq_bins(80), 10);
    assert_eq!(conv_freq_bins(81), 11);
    assert_eq!(conv_freq_bins(1), 1);
    assert_eq!(conv_freq_bins(0), 0);
}

#[test]
fn conv_output_width() {
    assert_eq!(conv_out_dim(128, 480), 7680);
}

#[test]
fn mel_chunking() {
    assert_eq!(mel_chunks(3000).len(), 30);
    assert_eq!(mel_chunks(3000)[29], (2900, 100));
    assert_eq!(mel_chunks(250), vec![(0, 100), (100, 100), (200, 50)]);
    assert_eq!(mel_chunks(40), vec![(0, 40)]);
    assert!(mel_chunks(0).is_empty());
}
