use load_lpp::{parse_bad_datetimes, parse_record, RecordError, Stamp};

#[test]
fn record_with_two_fields() {
    let (s, load) = parse_record("2021-10-13T23:00:00-08:00,1.5").unwrap();
    assert_eq!(s, Stamp { utc_secs: 1_634_194_800, offset_secs: -8 * 3600 });
    assert_eq!(load, "1.5");
}

#[test]
fn record_load_ends_at_next_separator() {
    let (s, load) = parse_record("2021-11-07T01:30:00-08:00,13003,E+999999.").unwrap();
    assert_eq!(s.utc_secs, 1_636_277_400);
    assert_eq!(load, "13003");
}

#[test]
fn record_with_empty_load() {
    let (_, load) = parse_record("2021-10-13T23:00:00Z,").unwrap();
    assert_eq!(load, "");
}

#[test]
fn record_without_separator() {
    assert_eq!(parse_record("2021-10-13T23:00:00Z").err(), Some(RecordError::MissingLoad));
}

#[test]
fn record_with_bad_datetime() {
    assert_eq!(parse_record("yesterday,12").err(), Some(RecordError::BadDatetime));
}

#[test]
fn datetime_parsing_with_timezone() {
    let dst = parse_bad_datetimes(&["2021-11-07T01:30:00-07:00".to_string()]).unwrap();
    let pst = parse_bad_datetimes(&["2021-11-07T01:30:00-08:00".to_string()]).unwrap();
    assert_eq!(pst[0].utc_secs - 3600, dst[0].utc_secs);
}

#[test]
fn bad_datetime_lines_report_position() {
    let lines = vec!["2021-10-13T23:00:00-08:00".to_string(), "not a date".to_string()];
    assert_eq!(parse_bad_datetimes(&lines), Err(1));
    let ok = parse_bad_datetimes(&lines[..1]).unwrap();
    assert_eq!(ok, vec![Stamp { utc_secs: 1_634_194_800, offset_secs: -28800 }]);
}

#[test]
fn record_with_multibyte_load_text() {
    let (_, load) = parse_record("2021-10-13T23:00:00Z,é12,x").unwrap();
    assert_eq!(load, "é12");
}
