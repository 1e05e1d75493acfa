use qwen_asr::timestamps::{fix_timestamp, longest_increasing_subsequence, FixedTimestamp};
use qwen_asr::timestamps::FixedTimestamp::{Exact, Interpolated};

fn value(t: FixedTimestamp) -> f64 {
    match t {
        Exact(v) => v as f64,
        Interpolated { left, right, step, steps } => {
            left as f64 + (right as f64 - left as f64) / steps as f64 * step as f64
        }
    }
}

#[test]
fn lis_takes_first_longest_chain() {
    assert_eq!(longest_increasing_subsequence(&[1, 3, 2, 4]), vec![0, 1, 3]);
}

#[test]
fn lis_of_empty_is_empty() {
    assert_eq!(longest_increasing_subsequence(&[]), Vec::<usize>::new());
}

#[test]
fn lis_keeps_equal_values() {
    assert_eq!(longest_increasing_subsequence(&[5, 5, 5]), vec![0, 1, 2]);
}

#[test]
fn lis_of_decreasing_is_first_element() {
    assert_eq!(longest_increasing_subsequence(&[3, 2, 1]), vec![0]);
}

#[test]
fn lis_is_nondecreasing_and_longest() {
    let data = [10, 20, 5, 6, 30, 7, 8, 9];
    let lis = longest_increasing_subsequence(&data);
    // 5 6 7 8 9 is the longest non-decreasing subsequence.
    assert_eq!(lis, vec![2, 3, 5, 6, 7]);
    for w in lis.windows(2) {
        assert!(w[0] < w[1]);
        assert!(data[w[0]] <= data[w[1]]);
    }
}

#[test]
fn fix_timestamp_short_inputs_unchanged() {
    assert_eq!(fix_timestamp(&[]), vec![]);
    assert_eq!(fix_timestamp(&[7]), vec![Exact(7)]);
    assert_eq!(fix_timestamp(&[9, 3]), vec![Exact(9), Exact(9)]);
}

#[test]
fn fix_timestamp_single_anomaly_takes_left_on_tie() {
    assert_eq!(fix_timestamp(&[100, 50, 200]), vec![Exact(100), Exact(100), Exact(200)]);
}

#[test]
fn fix_timestamp_two_anomalies_take_nearer_neighbour() {
    assert_eq!(
        fix_timestamp(&[10, 20, 5, 6, 30]),
        vec![Exact(10), Exact(20), Exact(20), Exact(30), Exact(30)]
    );
}

#[test]
fn fix_timestamp_long_anomaly_is_interpolated() {
    let fixed = fix_timestamp(&[0, 900, 800, 700, 100, 200]);
    assert_eq!(
        fixed,
        vec![
            Exact(0),
            Interpolated { left: 0, right: 100, step: 1, steps: 4 },
            Interpolated { left: 0, right: 100, step: 2, steps: 4 },
            Interpolated { left: 0, right: 100, step: 3, steps: 4 },
            Exact(100),
            Exact(200),
        ]
    );
    let values: Vec<f64> = fixed.into_iter().map(value).collect();
    assert_eq!(values, vec![0.0, 25.0, 50.0, 75.0, 100.0, 200.0]);
}

#[test]
fn fix_timestamp_leading_anomaly_takes_right_neighbour() {
    assert_eq!(
        fix_timestamp(&[500, 100, 200, 300]),
        vec![Exact(100), Exact(100), Exact(200), Exact(300)]
    );
}

#[test]
fn fix_timestamp_trailing_long_anomaly_takes_left_neighbour() {
    assert_eq!(
        fix_timestamp(&[10, 20, 30, 1, 2, 0]),
        vec![Exact(10), Exact(20), Exact(30), Exact(30), Exact(30), Exact(30)]
    );
}

#[test]
fn fixed_timestamps_never_decrease() {
    let data = [320, 80, 400, 560, 240, 160, 80, 720, 640, 960, 0, 1040];
    let fixed = fix_timestamp(&data);
    assert_eq!(fixed.len(), data.len());
    let values: Vec<f64> = fixed.into_iter().map(value).collect();
    for w in values.windows(2) {
        assert!(w[0] <= w[1], "{:?}", values);
    }
}

#[test]
fn sorted_timestamps_are_kept() {
    let data = [0, 80, 80, 160, 400, 400, 960];
    let fixed = fix_timestamp(&data);
    assert_eq!(fixed, data.iter().map(|&v| Exact(v)).collect::<Vec<_>>());
}

#[test]
fn repairing_twice_changes_nothing() {
    let data = [10, 20, 5, 6, 30, 500, 100, 200, 300];
    let once = fix_timestamp(&data);
    let values: Vec<u64> = once
        .iter()
        .map(|t| match t {
            Exact(v) => *v,
            _ => panic!("expected exact values"),
        })
        .collect();
    assert_eq!(fix_timestamp(&values), once);
}
