use load_lpp::{discharge_by_index, setnan_by_index, SeriesError};

fn same_or_both_nan(a: f64, b: f64) -> bool {
    (a.is_nan() && b.is_nan()) || (a - b).abs() < 0.1
}

fn compare_vecf64_approx(va: &[f64], vb: &[f64]) -> bool {
    va.len() == vb.len() && va.iter().zip(vb).all(|(a, b)| same_or_both_nan(*a, *b))
}

#[test]
fn test_discharge_by_index() {
    let vall: Vec<f64> = (1..20).map(|n| n as f64).collect();
    let indices: Vec<usize> = vec![2, 3, 7, 12, 13, 18];
    let mut expected: Vec<f64> = (1..20).map(|n| n as f64).collect();
    for i in indices.iter().rev() {
        expected.remove(*i);
    }
    let vout = discharge_by_index(&vall, &indices).unwrap();
    assert!(compare_vecf64_approx(&vout, &expected));
}

#[test]
fn test_setnan_by_index() {
    let mut vall: Vec<f64> = (1..20).map(|n| n as f64).collect();
    let indices: Vec<usize> = vec![2, 3, 7, 12, 13, 18];
    let mut expected: Vec<f64> = (1..20).map(|n| n as f64).collect();
    indices.iter().for_each(|i| expected[*i] = f64::NAN);
    setnan_by_index(&mut vall, &indices, f64::NAN).unwrap();
    assert!(compare_vecf64_approx(&vall, &expected));
}

#[test]
fn discharge_keeps_thirteen_in_order() {
    let vall: Vec<f64> = (1..20).map(|n| n as f64).collect();
    let vout = discharge_by_index(&vall, &[2, 3, 7, 12, 13, 18]).unwrap();
    let expected: Vec<f64> =
        vec![1., 2., 5., 6., 7., 9., 10., 11., 12., 15., 16., 17., 18.];
    assert_eq!(vout, expected);
}

#[test]
fn setnan_marks_exactly_the_indices() {
    let mut vall: Vec<f64> = (1..20).map(|n| n as f64).collect();
    setnan_by_index(&mut vall, &[18, 2, 13, 3, 12, 7], f64::NAN).unwrap();
    assert_eq!(vall.len(), 19);
    for (i, v) in vall.iter().enumerate() {
        if [2, 3, 7, 12, 13, 18].contains(&i) {
            assert!(v.is_nan());
        } else {
            assert_eq!(*v, (i + 1) as f64);
        }
    }
}

#[test]
fn discharge_unsorted_and_repeated_indices() {
    let v: Vec<u32> = vec![10, 11, 12, 13, 14];
    let out = discharge_by_index(&v, &[3, 0, 3]).unwrap();
    assert_eq!(out, vec![11, 12, 14]);
}

#[test]
fn discharge_empty_indices_copies() {
    let v: Vec<u32> = vec![1, 2, 3];
    assert_eq!(discharge_by_index(&v, &[]).unwrap(), vec![1, 2, 3]);
}

#[test]
fn setnan_empty_indices_is_noop() {
    let mut v: Vec<f64> = vec![1.0, 2.0];
    setnan_by_index(&mut v, &[], f64::NAN).unwrap();
    assert_eq!(v, vec![1.0, 2.0]);
}

#[test]
fn discharge_out_of_range_fails() {
    let v: Vec<u32> = vec![1, 2, 3];
    assert_eq!(
        discharge_by_index(&v, &[1, 3]),
        Err(SeriesError::IndexOutOfRange { index: 3, len: 3 })
    );
}

#[test]
fn setnan_out_of_range_fails_and_keeps_values() {
    let mut v: Vec<f64> = vec![1.0, 2.0, 3.0];
    let r = setnan_by_index(&mut v, &[0, 7], f64::NAN);
    assert_eq!(r, Err(SeriesError::IndexOutOfRange { index: 7, len: 3 }));
    assert_eq!(v, vec![1.0, 2.0, 3.0]);
}

#[test]
fn setnan_twice_equals_once() {
    let indices: Vec<usize> = vec![2, 3, 7, 12, 13, 18];
    let mut once: Vec<f64> = (1..20).map(|n| n as f64).collect();
    setnan_by_index(&mut once, &indices, f64::NAN).unwrap();
    let mut twice = once.clone();
    setnan_by_index(&mut twice, &indices, f64::NAN).unwrap();
    assert!(compare_vecf64_approx(&once, &twice));
}
