use bartib::line::{parse_line, parse_log, ActivityEvent};
use bartib::timestamp::{Date, Timestamp};

fn today() -> Date {
    Date { year: 2021, month: 3, day: 1 }
}

#[test]
fn parse_start_with_datetime() {
    let l = parse_line("2021-03-01 08:00 bartib: write tests", 1, today());
    assert_eq!(l.line_number, 1);
    assert_eq!(l.raw_text, "2021-03-01 08:00 bartib: write tests");
    match l.parsed {
        Ok(ActivityEvent::Start { timestamp, project, description }) => {
            assert_eq!(
                timestamp,
                Timestamp { date: Date { year: 2021, month: 3, day: 1 }, hour: 8, minute: 0 }
            );
            assert_eq!(project, "bartib");
            assert_eq!(description, "write tests");
        }
        _ => panic!("expected a start event"),
    }
}

#[test]
fn parse_start_time_only_uses_today() {
    let l = parse_line("08:15 chores: dishes", 4, today());
    match l.parsed {
        Ok(ActivityEvent::Start { timestamp, project, description }) => {
            assert_eq!(timestamp.date, today());
            assert_eq!(timestamp.hour, 8);
            assert_eq!(timestamp.minute, 15);
            assert_eq!(project, "chores");
            assert_eq!(description, "dishes");
        }
        _ => panic!("expected a start event"),
    }
}

#[test]
fn parse_stop_with_datetime() {
    let l = parse_line("2021-03-01 17:00", 2, today());
    match l.parsed {
        Ok(ActivityEvent::Stop { timestamp }) => {
            assert_eq!(
                timestamp,
                Timestamp { date: Date { year: 2021, month: 3, day: 1 }, hour: 17, minute: 0 }
            );
        }
        _ => panic!("expected a stop event"),
    }
}

#[test]
fn parse_stop_time_only() {
    let l = parse_line("17:30", 2, today());
    match l.parsed {
        Ok(ActivityEvent::Stop { timestamp }) => {
            assert_eq!(timestamp.date, today());
            assert_eq!(timestamp.hour, 17);
            assert_eq!(timestamp.minute, 30);
        }
        _ => panic!("expected a stop event"),
    }
}

#[test]
fn parse_blank_lines_are_noops() {
    assert!(matches!(parse_line("", 1, today()).parsed, Ok(ActivityEvent::Noop)));
    assert!(matches!(parse_line("   \t  ", 2, today()).parsed, Ok(ActivityEvent::Noop)));
}

#[test]
fn parse_comment_is_noop() {
    assert!(matches!(parse_line("# a note to myself", 3, today()).parsed, Ok(ActivityEvent::Noop)));
}

#[test]
fn parse_garbage_reports_error_with_line_number() {
    let l = parse_line("this is not a log line", 7, today());
    match l.parsed {
        Err(e) => {
            assert_eq!(e.line_number, 7);
            assert_eq!(e.message, "malformed log line");
        }
        _ => panic!("expected a parse error"),
    }
}

#[test]
fn parse_rejects_invalid_calendar_date() {
    let l = parse_line("2021-02-30 08:00 p: d", 1, today());
    assert!(l.parsed.is_err());
}

#[test]
fn parse_accepts_leap_day() {
    let l = parse_line("2020-02-29 10:00", 1, today());
    assert!(l.parsed.is_ok());
}

#[test]
fn parse_rejects_leap_day_outside_leap_year() {
    let l = parse_line("2021-02-29 10:00", 1, today());
    assert!(l.parsed.is_err());
}

#[test]
fn parse_rejects_invalid_time() {
    assert!(parse_line("24:00", 1, today()).parsed.is_err());
    assert!(parse_line("12:60", 1, today()).parsed.is_err());
}

#[test]
fn parse_is_whitespace_insensitive() {
    let l = parse_line("   08:00    proj   :   fix the bug   ", 1, today());
    match l.parsed {
        Ok(ActivityEvent::Start { project, description, .. }) => {
            assert_eq!(project, "proj");
            assert_eq!(description, "fix the bug");
        }
        _ => panic!("expected a start event"),
    }
}

#[test]
fn parse_requires_colon_in_payload() {
    let l = parse_line("08:00 no separator here", 1, today());
    assert!(l.parsed.is_err());
}

#[test]
fn parse_log_returns_one_log_line_per_physical_line() {
    let raw: Vec<String> = vec![
        "2021-03-01 08:00 a: one".to_string(),
        "".to_string(),
        "# comment".to_string(),
        "2021-03-01 09:00".to_string(),
        "garbage".to_string(),
    ];
    let lines = parse_log(&raw, today());
    assert_eq!(lines.len(), raw.len());
    for (i, l) in lines.iter().enumerate() {
        assert_eq!(l.line_number, i + 1);
        assert_eq!(l.raw_text, raw[i]);
    }
}

#[test]
fn malformed_line_leaves_other_lines_undisturbed() {
    let raw: Vec<String> = vec![
        "2021-03-01 08:00 a: one".to_string(),
        "2021-03-01 09:00".to_string(),
        "%%% garbage line %%%".to_string(),
        "2021-03-01 10:00 b: two".to_string(),
        "2021-03-01 11:00".to_string(),
    ];
    let lines = parse_log(&raw, today());
    assert_eq!(lines.len(), 5);
    let errors: Vec<usize> = lines
        .iter()
        .filter(|l| l.parsed.is_err())
        .map(|l| l.line_number)
        .collect();
    assert_eq!(errors, vec![3]);
    let parsed_ok = lines.iter().filter(|l| l.parsed.is_ok()).count();
    assert_eq!(parsed_ok, 4);
    let acts = bartib::activity::materialize(&lines);
    assert_eq!(acts.len(), 2);
    assert_eq!(acts[0].project, "a");
    assert_eq!(acts[0].end.unwrap().hour, 9);
    assert_eq!(acts[1].project, "b");
    assert_eq!(acts[1].end.unwrap().hour, 11);
}
