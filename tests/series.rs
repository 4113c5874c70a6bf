use load_lpp::{
    centered_basis, first_rounded, min_and_max, mirror_window, missed_slots, suitable_xfmt,
    window_side, EmptyTimeLoad, SeriesError, Stamp, TimeLoad,
};

const PST: i32 = -8 * 3600;

fn stamp(utc_secs: i64) -> Stamp {
    Stamp { utc_secs, offset_secs: PST }
}

fn series(times: &[i64], loads: &[f64]) -> TimeLoad<f64> {
    let mut tl: TimeLoad<f64> = TimeLoad::new(times.len());
    for (t, l) in times.iter().zip(loads) {
        tl.time.push(stamp(*t));
        tl.load.push(*l);
    }
    tl
}

#[test]
fn fill_regular_series_is_unchanged() {
    let tl = series(&[0, 60, 120, 180], &[1.0, 2.0, 3.0, 4.0]);
    let out = tl.fill_missing_with_nan(f64::NAN).unwrap();
    assert_eq!(out.time, tl.time);
    assert_eq!(out.load, tl.load);
}

#[test]
fn fill_double_gap_inserts_one_missing_point() {
    let tl = series(&[0, 60, 180, 240], &[1.0, 2.0, 3.0, 4.0]);
    let out = tl.fill_missing_with_nan(f64::NAN).unwrap();
    let times: Vec<i64> = out.time.iter().map(|s| s.utc_secs).collect();
    assert_eq!(times, vec![0, 60, 120, 180, 240]);
    assert_eq!(out.load[0], 1.0);
    assert_eq!(out.load[1], 2.0);
    assert!(out.load[2].is_nan());
    assert_eq!(out.load[3], 3.0);
    assert_eq!(out.load[4], 4.0);
    assert!(out.is_ordered_and_continuous());
}

#[test]
fn fill_uneven_gap_stops_before_next_point() {
    let tl = series(&[0, 60, 200], &[1.0, 2.0, 3.0]);
    let out = tl.fill_missing_with_nan(-1.0).unwrap();
    let times: Vec<i64> = out.time.iter().map(|s| s.utc_secs).collect();
    assert_eq!(times, vec![0, 60, 120, 180, 200]);
    assert_eq!(out.load, vec![1.0, 2.0, -1.0, -1.0, 3.0]);
}

#[test]
fn fill_needs_two_points() {
    let tl = series(&[0], &[1.0]);
    assert_eq!(
        tl.fill_missing_with_nan(f64::NAN).err(),
        Some(SeriesError::InsufficientData { required: 2, got: 1 })
    );
}

#[test]
fn ordering_checks() {
    assert!(series(&[0, 60, 120], &[0.0; 3]).is_ordered());
    assert!(!series(&[0, 120, 60], &[0.0; 3]).is_ordered());
    assert!(!series(&[0, 60, 60], &[0.0; 3]).is_ordered());
    assert!(series(&[0, 60, 120], &[0.0; 3]).is_ordered_and_continuous());
    assert!(!series(&[0, 60, 180], &[0.0; 3]).is_ordered_and_continuous());
    assert!(series(&[5], &[0.0]).is_ordered_and_continuous());
}

#[test]
fn bad_datetimes_are_marked() {
    let mut tl = series(&[0, 60, 120, 180], &[1.0, 2.0, 3.0, 4.0]);
    let same_instant_other_offset = Stamp { utc_secs: 120, offset_secs: 0 };
    tl.replace_bad_datetimes_with_nan(vec![stamp(60), same_instant_other_offset, stamp(999)], -1.0);
    assert_eq!(tl.load, vec![1.0, -1.0, -1.0, 4.0]);
}

#[test]
fn bad_daily_interval_is_open() {
    // local midnight in PST is 08:00 UTC
    let midnight: i64 = 8 * 3600;
    let times: Vec<i64> = (0..8).map(|m| midnight + 3600 + m * 60).collect();
    let mut tl = series(&times, &[1.0; 8]);
    // 01:02 to 01:05 local
    tl.replace_bad_time_interval_with_nan(3720, 3900, 0.0);
    assert_eq!(tl.load, vec![1.0, 1.0, 1.0, 0.0, 0.0, 1.0, 1.0, 1.0]);
}

#[test]
fn time_of_day_is_local() {
    assert_eq!(stamp(8 * 3600 + 90).time_of_day(), 90);
    assert_eq!(stamp(0).time_of_day(), 16 * 3600);
    assert_eq!(Stamp { utc_secs: -1, offset_secs: 0 }.time_of_day(), 86399);
}

#[test]
fn hour_key_rounds_at_half_hour() {
    let base: i64 = 1_634_194_800; // 2021-10-14T07:00:00Z, 23:00 PST
    assert_eq!(stamp(base + 29 * 60).hour_key().utc_secs, base);
    assert_eq!(stamp(base + 30 * 60).hour_key().utc_secs, base + 3600);
    assert_eq!(stamp(base + 45 * 60 + 10).hour_key().utc_secs, base + 3600 + 10);
}

#[test]
fn hourly_runs_group_consecutive_hours() {
    let base: i64 = 1_634_194_800;
    let times: Vec<i64> = vec![base, base + 600, base + 1800, base + 2400, base + 6000];
    let tl = series(&times, &[1.0; 5]);
    let (hours, ends) = tl.hourly_runs().unwrap();
    let secs: Vec<i64> = hours.iter().map(|s| s.utc_secs).collect();
    assert_eq!(secs, vec![base, base + 3600, base + 7200]);
    assert_eq!(ends, vec![2, 4, 5]);
}

#[test]
fn hourly_runs_of_empty_series() {
    let tl: TimeLoad<f64> = TimeLoad::new(0);
    assert_eq!(tl.hourly_runs().err(), Some(EmptyTimeLoad()));
}

#[test]
fn mirror_window_is_a_palindrome() {
    let w = mirror_window(&[1.0, 2.0, 3.0]);
    assert_eq!(w, vec![1.0, 2.0, 3.0, 2.0, 1.0]);
    let flat = mirror_window(&[2.0, 2.0]);
    assert_eq!(flat, vec![2.0, 2.0, 2.0]);
    assert_eq!(mirror_window(&[7u8]), vec![7]);
}

#[test]
fn window_shape_errors() {
    assert_eq!(window_side(10, 5), Ok(2));
    assert_eq!(window_side(5, 5), Err(SeriesError::WindowTooLarge { window: 5, series: 5 }));
    assert_eq!(window_side(10, 4), Err(SeriesError::EvenWindowLength { window: 4 }));
}

#[test]
fn centered_basis_is_symmetric() {
    assert_eq!(centered_basis(5), vec![-2, -1, 0, 1, 2]);
    assert_eq!(centered_basis(1), vec![0]);
}

#[test]
fn first_rounded_moves_to_next_local_slot() {
    // 10:07:30 local at UTC-8, five-minute slots: next slot 10:10:00 local
    let local: i64 = 10 * 3600 + 7 * 60 + 30;
    let utc = local + 8 * 3600;
    assert_eq!(first_rounded(utc, PST, 300), 10 * 3600 + 600 + 8 * 3600);
    // exactly on a slot moves one slot on
    assert_eq!(first_rounded(600, 0, 300), 900);
}

#[test]
fn missed_slots_catch_up() {
    assert_eq!(missed_slots(100, 250, 60), (vec![100, 160, 220], 280));
    assert_eq!(missed_slots(300, 250, 60), (vec![], 300));
}

#[test]
fn axis_format_by_span() {
    assert_eq!(suitable_xfmt(8 * 86400, 0), "%y-%m-%d");
    assert_eq!(suitable_xfmt(7 * 86400, 0), "%m-%d %H");
    assert_eq!(suitable_xfmt(7 * 86400, 1), "%y-%m-%d");
    assert_eq!(suitable_xfmt(86400, 0), "%d %H:%M");
    assert_eq!(suitable_xfmt(3600, 0), "%d %H:%M");
}

#[test]
fn min_and_max_of_values() {
    assert_eq!(min_and_max(&[3, -2, 9, 4]), (-2, 9));
    assert_eq!(min_and_max(&[5]), (5, 5));
}

#[test]
fn fill_multiple_gaps_lands_on_grid() {
    let tl = series(&[0, 60, 180, 360], &[1.0, 2.0, 3.0, 4.0]);
    let out = tl.fill_missing_with_nan(f64::NAN).unwrap();
    let times: Vec<i64> = out.time.iter().map(|s| s.utc_secs).collect();
    assert_eq!(times, vec![0, 60, 120, 180, 240, 300, 360]);
    assert!(out.is_ordered_and_continuous());
    let missing: Vec<usize> = (0..out.load.len()).filter(|i| out.load[*i].is_nan()).collect();
    assert_eq!(missing, vec![2, 4, 5]);
    assert!(out.time.iter().all(|s| s.offset_secs == PST));
}
