use bartib::activity::{materialize, Activity};
use bartib::getter::{
    filter_activities, grouped_by_date, running_activities, sort_activities_by_start,
    ActivityFilter,
};
use bartib::line::{parse_log, LogLine};
use bartib::list::{check, list, list_last_activities, list_projects, list_running};
use bartib::timestamp::{Date, Timestamp};

fn today() -> Date {
    Date { year: 2021, month: 3, day: 1 }
}

fn log(lines: &[&str]) -> Vec<LogLine> {
    let raw: Vec<String> = lines.iter().map(|s| s.to_string()).collect();
    parse_log(&raw, today())
}

fn no_filter() -> ActivityFilter {
    ActivityFilter {
        date: None,
        number_of_activities: None,
        project_substring: None,
        description_substring: None,
    }
}

fn ts(hour: u32, minute: u32) -> Timestamp {
    Timestamp { date: today(), hour, minute }
}

#[test]
fn start_then_stop_gives_one_closed_activity() {
    let acts = materialize(&log(&["08:00 a: one", "09:30"]));
    assert_eq!(acts.len(), 1);
    assert_eq!(acts[0].project, "a");
    assert_eq!(acts[0].description, "one");
    assert_eq!(acts[0].start, ts(8, 0));
    assert_eq!(acts[0].end, Some(ts(9, 30)));
}

#[test]
fn blanks_between_start_and_stop_are_ignored() {
    let acts = materialize(&log(&["08:00 a: one", "", "# lunch soon", "   ", "09:30"]));
    assert_eq!(acts.len(), 1);
    assert_eq!(acts[0].start, ts(8, 0));
    assert_eq!(acts[0].end, Some(ts(9, 30)));
}

#[test]
fn second_start_closes_the_first_and_keeps_running() {
    let acts = materialize(&log(&["08:00 a: one", "09:00 b: two"]));
    assert_eq!(acts.len(), 2);
    assert_eq!(acts[0].project, "a");
    assert_eq!(acts[0].end, Some(ts(9, 0)));
    assert_eq!(acts[1].project, "b");
    assert_eq!(acts[1].start, ts(9, 0));
    assert_eq!(acts[1].end, None);
}

#[test]
fn unmatched_start_is_the_single_running_activity() {
    let lines = log(&["08:00 a: one", "09:00", "10:00 b: two"]);
    let running = list_running(&lines);
    assert_eq!(running.len(), 1);
    assert_eq!(running[0].project, "b");
    assert_eq!(running[0].start, ts(10, 0));
    assert_eq!(running[0].end, None);
    let acts = materialize(&lines);
    let running2 = running_activities(&acts);
    assert_eq!(running2.len(), 1);
    assert_eq!(running2[0].project, "b");
}

#[test]
fn stop_with_nothing_open_produces_no_record() {
    let acts = materialize(&log(&["08:00", "09:00 a: one", "10:00"]));
    assert_eq!(acts.len(), 1);
    assert_eq!(acts[0].project, "a");
}

#[test]
fn list_sorts_chronologically_and_keeps_the_last_n() {
    let lines = log(&[
        "08:00 a: one",
        "08:30",
        "10:00 b: two",
        "10:30",
        "09:00 c: three",
        "09:15",
    ]);
    let all = list(&lines, &no_filter());
    assert_eq!(all.len(), 3);
    assert_eq!(all[0].project, "a");
    assert_eq!(all[1].project, "c");
    assert_eq!(all[2].project, "b");
    let filter = ActivityFilter { number_of_activities: Some(2), ..no_filter() };
    let last_two = list(&lines, &filter);
    assert_eq!(last_two.len(), 2);
    assert_eq!(last_two[0].project, "c");
    assert_eq!(last_two[1].project, "b");
    let filter_big = ActivityFilter { number_of_activities: Some(10), ..no_filter() };
    assert_eq!(list(&lines, &filter_big).len(), 3);
}

#[test]
fn sort_is_stable_on_equal_starts() {
    let a1 = Activity {
        project: "p".to_string(),
        description: "first".to_string(),
        start: ts(8, 0),
        end: Some(ts(9, 0)),
    };
    let a2 = Activity {
        project: "q".to_string(),
        description: "second".to_string(),
        start: ts(8, 0),
        end: Some(ts(10, 0)),
    };
    let sorted = sort_activities_by_start(&vec![a1, a2]);
    assert_eq!(sorted[0].description, "first");
    assert_eq!(sorted[1].description, "second");
}

#[test]
fn filter_keeps_only_the_given_date() {
    let lines = log(&[
        "2021-03-01 08:00 a: one",
        "2021-03-01 08:30",
        "2021-03-02 09:00 b: two",
        "2021-03-02 09:30",
    ]);
    let filter = ActivityFilter { date: Some(Date { year: 2021, month: 3, day: 2 }), ..no_filter() };
    let r = list(&lines, &filter);
    assert_eq!(r.len(), 1);
    assert_eq!(r[0].project, "b");
}

#[test]
fn substring_match_is_case_sensitive() {
    let acts = materialize(&log(&["08:00 bartib: hack", "08:30", "09:00 Barricade: paint", "09:30"]));
    let filter = ActivityFilter { project_substring: Some("bar".to_string()), ..no_filter() };
    let r = filter_activities(&acts, &filter);
    assert_eq!(r.len(), 1);
    assert_eq!(r[0].project, "bartib");
    let filter2 = ActivityFilter { description_substring: Some("pain".to_string()), ..no_filter() };
    let r2 = filter_activities(&acts, &filter2);
    assert_eq!(r2.len(), 1);
    assert_eq!(r2[0].project, "Barricade");
}

#[test]
fn current_only_excludes_fully_stopped_projects() {
    let lines = log(&["08:00 old: done work", "08:30", "09:00 cur: ongoing"]);
    let current = list_projects(&lines, true);
    assert_eq!(current, vec!["cur".to_string()]);
    let all = list_projects(&lines, false);
    assert_eq!(all, vec!["cur".to_string(), "old".to_string()]);
}

#[test]
fn projects_are_deduplicated_and_sorted() {
    let lines = log(&[
        "08:00 beta: x",
        "08:30",
        "09:00 alpha: y",
        "09:30",
        "10:00 beta: z",
        "10:30",
    ]);
    let projects = list_projects(&lines, false);
    assert_eq!(projects, vec!["alpha".to_string(), "beta".to_string()]);
}

#[test]
fn groups_follow_first_seen_date_and_hold_their_activities() {
    let lines = log(&[
        "2021-03-02 08:00 a: one",
        "2021-03-02 08:30",
        "2021-03-01 09:00 b: two",
        "2021-03-01 09:30",
        "2021-03-02 10:00 c: three",
        "2021-03-02 10:30",
    ]);
    let acts = materialize(&lines);
    let groups = grouped_by_date(&acts);
    assert_eq!(groups.len(), 2);
    assert_eq!(groups[0].0, Date { year: 2021, month: 3, day: 2 });
    assert_eq!(groups[0].1.len(), 2);
    assert_eq!(groups[0].1[0].project, "a");
    assert_eq!(groups[0].1[1].project, "c");
    assert_eq!(groups[1].0, Date { year: 2021, month: 3, day: 1 });
    assert_eq!(groups[1].1.len(), 1);
    assert_eq!(groups[1].1[0].project, "b");
}

#[test]
fn last_activities_come_in_file_order() {
    let lines = log(&[
        "08:00 a: one",
        "08:30",
        "09:00 b: two",
        "09:30",
        "10:00 c: three",
        "10:30",
    ]);
    let last_two = list_last_activities(&lines, 2);
    assert_eq!(last_two.len(), 2);
    assert_eq!(last_two[0], ("two".to_string(), "b".to_string()));
    assert_eq!(last_two[1], ("three".to_string(), "c".to_string()));
    let all = list_last_activities(&lines, 99);
    assert_eq!(all.len(), 3);
}

#[test]
fn check_counts_malformed_lines() {
    let lines = log(&["08:00 a: one", "oops", "08:30", "also bad"]);
    assert_eq!(check(&lines), 2);
    let clean = log(&["08:00 a: one", "08:30"]);
    assert_eq!(check(&clean), 0);
}

#[test]
fn rewriting_the_boundaries_reproduces_the_activities() {
    let lines = log(&["08:00 a: one", "09:30", "10:00 b: two"]);
    let acts = materialize(&lines);
    // write the activities back as start/stop lines and parse again
    let mut rewritten: Vec<String> = Vec::new();
    for a in &acts {
        rewritten.push(format!(
            "{:04}-{:02}-{:02} {:02}:{:02} {}: {}",
            a.start.date.year, a.start.date.month, a.start.date.day, a.start.hour,
            a.start.minute, a.project, a.description
        ));
        if let Some(e) = &a.end {
            rewritten.push(format!(
                "{:04}-{:02}-{:02} {:02}:{:02}",
                e.date.year, e.date.month, e.date.day, e.hour, e.minute
            ));
        }
    }
    let again = materialize(&parse_log(&rewritten, today()));
    assert_eq!(again.len(), acts.len());
    for (x, y) in acts.iter().zip(again.iter()) {
        assert_eq!(x.project, y.project);
        assert_eq!(x.description, y.description);
        assert_eq!(x.start, y.start);
        assert_eq!(x.end, y.end);
    }
}

#[test]
fn empty_log_yields_empty_results_everywhere() {
    let lines = log(&[]);
    assert_eq!(materialize(&lines).len(), 0);
    assert_eq!(list(&lines, &no_filter()).len(), 0);
    assert_eq!(list_running(&lines).len(), 0);
    assert_eq!(list_projects(&lines, false).len(), 0);
    assert_eq!(list_last_activities(&lines, 5).len(), 0);
    assert_eq!(check(&lines), 0);
}
