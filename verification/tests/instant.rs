use hamster_export::instant::{in_calendar, minutes_between, timestamp, MAX_INSTANT, MIN_INSTANT};

#[test]
fn ninety_seconds_are_one_minute() {
    let start = 1_420_106_400;
    assert_eq!(minutes_between(start, start + 90), 1);
}

#[test]
fn minutes_are_whole() {
    assert_eq!(minutes_between(0, 0), 0);
    assert_eq!(minutes_between(0, 59), 0);
    assert_eq!(minutes_between(0, 60), 1);
    assert_eq!(minutes_between(0, 119), 1);
    assert_eq!(minutes_between(0, 120), 2);
    assert_eq!(minutes_between(100, 3700), 60);
}

#[test]
fn minutes_of_a_backward_span_round_toward_zero() {
    assert_eq!(minutes_between(59, 0), 0);
    assert_eq!(minutes_between(60, 0), -1);
    assert_eq!(minutes_between(90, 0), -1);
    assert_eq!(minutes_between(120, 0), -2);
}

#[test]
fn minutes_between_the_farthest_instants() {
    assert_eq!(minutes_between(i64::MIN, i64::MAX), 307_445_734_561_825_860);
    assert_eq!(minutes_between(i64::MAX, i64::MIN), -307_445_734_561_825_860);
    assert_eq!(minutes_between(i64::MAX, i64::MAX), 0);
}

#[test]
fn the_calendar_has_bounds() {
    assert_eq!(MIN_INSTANT, -2_177_452_800);
    assert_eq!(MAX_INSTANT, 253_370_764_799);
    assert!(in_calendar(0));
    assert!(in_calendar(MIN_INSTANT));
    assert!(in_calendar(MAX_INSTANT));
    assert!(!in_calendar(MIN_INSTANT - 1));
    assert!(!in_calendar(MAX_INSTANT + 1));
    assert!(!in_calendar(i64::MIN));
    assert!(!in_calendar(i64::MAX));
}

#[test]
fn an_instant_outside_the_calendar_has_no_timestamp() {
    assert_eq!(timestamp(MIN_INSTANT - 1), None);
    assert_eq!(timestamp(-62_135_596_800), None);
    assert_eq!(timestamp(i64::MIN), None);
    assert_eq!(timestamp(MAX_INSTANT + 1), None);
    assert_eq!(timestamp(i64::MAX), None);
}

#[test]
fn a_timestamp_is_the_local_rfc3339_notation() {
    for seconds in [0i64, 1_420_106_400, -86_400, 4_102_444_800, MIN_INSTANT, MAX_INSTANT] {
        let expected = time::at(time::Timespec::new(seconds, 0)).rfc3339().to_string();
        assert_eq!(timestamp(seconds), Some(expected));
    }
}

#[test]
fn a_timestamp_is_made_of_timestamp_characters() {
    for seconds in [0i64, 1_420_106_400, -86_400, MIN_INSTANT, MAX_INSTANT] {
        let text = timestamp(seconds).unwrap();
        assert!(!text.is_empty());
        assert!(text.chars().all(|c| c.is_ascii_digit() || "-:TZ+".contains(c)));
        assert!(text.contains('T'));
        assert_ne!(text, format!("{}", seconds));
    }
}
