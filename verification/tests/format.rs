use bartib::format_util::{format_duration, u64_to_string};

#[test]
fn hours_and_minutes() {
    assert_eq!(format_duration(3661), "1h 01m");
}

#[test]
fn seconds_only() {
    assert_eq!(format_duration(45), "45s");
    assert_eq!(format_duration(0), "0s");
    assert_eq!(format_duration(59), "59s");
}

#[test]
fn whole_hours_fall_through_to_seconds() {
    // the documented quirk: with no minute component the branch emits seconds
    assert_eq!(format_duration(7200), "2h 0s");
    assert_eq!(format_duration(3600), "1h 0s");
}

#[test]
fn minutes_are_zero_padded() {
    assert_eq!(format_duration(125), "02m");
    assert_eq!(format_duration(60), "01m");
    assert_eq!(format_duration(600), "10m");
}

#[test]
fn long_spans_keep_whole_hours() {
    assert_eq!(format_duration(86461), "24h 01m");
    assert_eq!(format_duration(90000), "25h 0s");
}

#[test]
fn numbers_render_in_decimal() {
    assert_eq!(u64_to_string(0), "0");
    assert_eq!(u64_to_string(7), "7");
    assert_eq!(u64_to_string(10), "10");
    assert_eq!(u64_to_string(12345), "12345");
}
