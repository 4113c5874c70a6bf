use load_lpp::{find_anomalies, quartile_rank, SeriesError};

// The interquartile range of the finite values of a window, when there are
// at least `min_len` of them.
fn window_iqr(s: &[f64], min_len: usize) -> Option<f64> {
    let mut v: Vec<f64> = s.iter().filter(|n| n.is_finite()).copied().collect();
    if v.len() < min_len || v.len() < 2 {
        return None;
    }
    v.sort_by(|a, b| a.partial_cmp(b).unwrap());
    let (li, lq) = quartile_rank(v.len(), 1);
    let (ui, uq) = quartile_rank(v.len(), 3);
    let ql = v[li] + (v[li + 1] - v[li]) * (lq as f64 / 4.0);
    let qu = v[ui] + (v[ui + 1] - v[ui]) * (uq as f64 / 4.0);
    Some(qu - ql)
}

fn flags(v: &[f64], width: usize, min_len: usize, max_iqr: f64) -> Vec<bool> {
    v.windows(width)
        .map(|w| matches!(window_iqr(w, min_len), Some(iqr) if iqr > max_iqr))
        .collect()
}

fn detect(v: &[f64], width: usize, min_len: usize, max_iqr: f64) -> (Vec<usize>, Vec<f64>) {
    let f = flags(v, width, min_len, max_iqr);
    find_anomalies(v, width, min_len, &f).unwrap()
}

#[test]
fn test_find_anomaly_homogeneous() {
    let a = [5.0f64; 15];
    let expected: Vec<f64> = Vec::new();
    let (_, anomalies_load) = detect(&a, 7usize, 6usize, 5.0f64);
    assert!(anomalies_load == expected);
}

#[test]
fn test_find_anomaly_linear() {
    let v: Vec<f64> = (1..15).map(|n| n as f64).collect();
    let expected: Vec<f64> = Vec::new();
    let (_, anomalies_load) = detect(&v, 7usize, 6usize, 5.0f64);
    assert!(anomalies_load == expected);
}

#[test]
fn test_find_anomaly_nans() {
    let mut v: Vec<f64> = (1..15).map(|n| n as f64).collect();
    v.iter_mut().enumerate().for_each(|(i, e)| {
        if i < 6usize {
            *e = f64::NAN
        }
    });
    let expected: Vec<f64> = Vec::new();
    let (_, anomalies_load) = detect(&v, 7usize, 6usize, 5.0f64);
    assert!(anomalies_load == expected);
}

#[test]
fn test_find_anomaly_discontinuity() {
    let mut v: Vec<f64> = (1..15).map(|n| n as f64).collect();
    v.iter_mut().enumerate().for_each(|(i, e)| {
        if i < 8usize {
            *e = 20.
        }
    });
    let (_, anomalies_load) = detect(&v, 7usize, 6usize, 5.0f64);
    let expected: Vec<f64> = vec![20.0, 20.0, 20.0, 20.0, 9.0, 10.0, 11.0, 12.0, 13.0];
    assert!(anomalies_load == expected);
}

#[test]
fn discontinuity_flags_a_contiguous_band() {
    let mut v: Vec<f64> = (1..16).map(|n| n as f64).collect();
    for e in v.iter_mut().take(8) {
        *e = 20.0;
    }
    let f = flags(&v, 7, 6, 5.0);
    let (idx, vals) = find_anomalies(&v, 7, 6, &f).unwrap();
    assert_eq!(idx, (4..13).collect::<Vec<usize>>());
    assert_eq!(vals, vec![20.0, 20.0, 20.0, 20.0, 9.0, 10.0, 11.0, 12.0, 13.0]);
}

#[test]
fn linear_fifteen_has_small_iqr_and_no_anomaly() {
    let v: Vec<f64> = (1..16).map(|n| n as f64).collect();
    assert_eq!(window_iqr(&v, 6), Some(7.0));
    for k in 0..9 {
        assert_eq!(window_iqr(&v[k..k + 7], 6), Some(3.0));
    }
    let (idx, vals) = detect(&v, 7, 6, 5.0);
    assert!(idx.is_empty());
    assert!(vals.is_empty());
}

#[test]
fn overlapping_windows_give_unique_ascending_indices() {
    let v: Vec<u8> = vec![0, 1, 2, 3, 4, 5, 6, 7, 8, 9];
    // width 6 over 10 values: 5 windows
    let f = vec![true, false, true, false, false];
    let (idx, vals) = find_anomalies(&v, 6, 6, &f).unwrap();
    assert_eq!(idx, vec![0, 1, 2, 3, 4, 5, 6, 7]);
    assert_eq!(vals, vec![0, 1, 2, 3, 4, 5, 6, 7]);
}

#[test]
fn too_small_minimum_is_insufficient_data() {
    let v: Vec<f64> = vec![1.0; 10];
    assert_eq!(
        find_anomalies(&v, 7, 5, &[false; 4]),
        Err(SeriesError::InsufficientData { required: 6, got: 5 })
    );
}

#[test]
fn minimum_above_width_is_invalid_configuration() {
    let v: Vec<f64> = vec![1.0; 10];
    assert_eq!(find_anomalies(&v, 6, 7, &[false; 5]), Err(SeriesError::InvalidConfiguration));
}

#[test]
fn one_flag_per_window_is_required() {
    let v: Vec<f64> = vec![1.0; 10];
    assert_eq!(
        find_anomalies(&v, 7, 6, &[false; 3]),
        Err(SeriesError::LengthMismatch { expected: 4, got: 3 })
    );
}

#[test]
fn series_shorter_than_window_has_no_windows() {
    let v: Vec<f64> = vec![1.0; 4];
    let (idx, vals) = find_anomalies(&v, 7, 6, &[]).unwrap();
    assert!(idx.is_empty());
    assert!(vals.is_empty());
}

#[test]
fn quartile_ranks_follow_the_linear_rule() {
    assert_eq!(quartile_rank(15, 1), (3, 2));
    assert_eq!(quartile_rank(15, 3), (10, 2));
    assert_eq!(quartile_rank(7, 1), (1, 2));
    assert_eq!(quartile_rank(7, 3), (4, 2));
    assert_eq!(quartile_rank(2, 3), (0, 3));
    assert_eq!(quartile_rank(5, 1), (1, 0));
}
