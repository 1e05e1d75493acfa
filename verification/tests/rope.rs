use qwen_asr::rope::{build_contiguous_dim_map, build_interleaved_dim_map};

#[test]
fn contiguous_map_fills_with_last_axis() {
    assert_eq!(build_contiguous_dim_map(&[2, 1], 5), vec![0, 0, 1, 1, 1]);
    assert_eq!(build_contiguous_dim_map(&[3, 3], 4), vec![0, 0, 0, 1]);
    assert_eq!(build_contiguous_dim_map(&[], 3), vec![0, 0, 0]);
    assert_eq!(build_contiguous_dim_map(&[1, 0, 2], 3), vec![0, 2, 2]);
}

#[test]
fn contiguous_map_default_sections() {
    let m = build_contiguous_dim_map(&[24, 20, 20], 64);
    assert_eq!(m.len(), 64);
    assert!(m[..24].iter().all(|&d| d == 0));
    assert!(m[24..44].iter().all(|&d| d == 1));
    assert!(m[44..].iter().all(|&d| d == 2));
}

#[test]
fn interleaved_map_round_robin() {
    assert_eq!(build_interleaved_dim_map(&[2, 1, 1], 6), vec![0, 1, 2, 0, 2, 2]);
    assert_eq!(build_interleaved_dim_map(&[], 2), vec![0, 0]);
    assert_eq!(build_interleaved_dim_map(&[1, 3], 5), vec![0, 1, 1, 1, 1]);
    assert_eq!(build_interleaved_dim_map(&[2, 2], 3), vec![0, 1, 0]);
}

#[test]
fn interleaved_map_default_sections() {
    let m = build_interleaved_dim_map(&[24, 20, 20], 64);
    assert_eq!(&m[..6], &[0, 1, 2, 0, 1, 2]);
    assert_eq!(m.iter().filter(|&&d| d == 0).count(), 24);
    assert_eq!(m.iter().filter(|&&d| d == 1).count(), 20);
    assert_eq!(m.iter().filter(|&&d| d == 2).count(), 20);
    assert_eq!(&m[60..], &[0, 0, 0, 0]);
}

#[test]
fn interleaved_map_sorts_to_contiguous_map() {
    for (sections, total) in [(vec![2usize, 1, 1], 4usize), (vec![24, 20, 20], 64), (vec![1, 0, 3], 7), (vec![], 3)] {
        let mut m = build_interleaved_dim_map(&sections, total);
        m.sort();
        assert_eq!(m, build_contiguous_dim_map(&sections, total));
    }
}
