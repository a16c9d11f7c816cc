use vstd::prelude::*;

use crate::textutil::{
    char_digit_val, char_is_digit, char_is_space, digit_val, is_digit_char, is_space_char,
    lemma_trim_bounds, spec_trim,
};
use crate::timestamp::{days_in_month, valid_timestamp, Date, Timestamp};

verus! {

/// A line that could not be read as part of the log grammar, kept as data so
/// that one malformed line never stops the rest of the file.
pub struct ParseError {
    pub message: String,
    pub line_number: usize,
}

/// What a single log line says: start an activity, stop the running one, or
/// nothing (blank and comment lines).
pub enum ActivityEvent {
    Start { timestamp: Timestamp, project: String, description: String },
    Stop { timestamp: Timestamp },
    Noop,
}

/// One physical line of the log file together with its parse outcome.
pub struct LogLine {
    pub line_number: usize,
    pub raw_text: String,
    pub parsed: Result<ActivityEvent, ParseError>,
}

/// Ghost description of a parsed line, over plain character sequences.
pub enum LineEvent {
    Start { ts: Timestamp, project: Seq<char>, description: Seq<char> },
    Stop { ts: Timestamp },
    Noop,
    Bad,
}

/// Two-digit decimal number starting at index `i`.
pub open spec fn num2(t: Seq<char>, i: int) -> int {
    10 * digit_val(t[i]) + digit_val(t[i + 1])
}

/// Four-digit decimal number starting at index `i`.
pub open spec fn num4(t: Seq<char>, i: int) -> int {
    1000 * digit_val(t[i]) + 100 * digit_val(t[i + 1]) + 10 * digit_val(t[i + 2]) + digit_val(
        t[i + 3],
    )
}

/// The first 16 characters look like `YYYY-MM-DD HH:MM`.
pub open spec fn datetime_shape(t: Seq<char>) -> bool {
    &&& t.len() >= 16
    &&& is_digit_char(t[0])
    &&& is_digit_char(t[1])
    &&& is_digit_char(t[2])
    &&& is_digit_char(t[3])
    &&& t[4] == '-'
    &&& is_digit_char(t[5])
    &&& is_digit_char(t[6])
    &&& t[7] == '-'
    &&& is_digit_char(t[8])
    &&& is_digit_char(t[9])
    &&& t[10] == ' '
    &&& is_digit_char(t[11])
    &&& is_digit_char(t[12])
    &&& t[13] == ':'
    &&& is_digit_char(t[14])
    &&& is_digit_char(t[15])
}

/// The timestamp written by a `YYYY-MM-DD HH:MM` prefix.
pub open spec fn datetime_value(t: Seq<char>) -> Timestamp {
    Timestamp {
        date: Date {
            year: num4(t, 0) as u32,
            month: num2(t, 5) as u32,
            day: num2(t, 8) as u32,
        },
        hour: num2(t, 11) as u32,
        minute: num2(t, 14) as u32,
    }
}

/// The first 5 characters look like `HH:MM`.
pub open spec fn time_shape(t: Seq<char>) -> bool {
    &&& t.len() >= 5
    &&& is_digit_char(t[0])
    &&& is_digit_char(t[1])
    &&& t[2] == ':'
    &&& is_digit_char(t[3])
    &&& is_digit_char(t[4])
}

/// The timestamp written by a time-only `HH:MM` prefix, on today's date.
pub open spec fn time_value(t: Seq<char>, today: Date) -> Timestamp {
    Timestamp { date: today, hour: num2(t, 0) as u32, minute: num2(t, 3) as u32 }
}

/// First index at or after `i` holding a colon; the length if there is none.
pub open spec fn first_colon_from(s: Seq<char>, i: int) -> int
    decreases s.len() - i,
{
    if i < 0 || i >= s.len() {
        s.len() as int
    } else if s[i] == ':' {
        i
    } else {
        first_colon_from(s, i + 1)
    }
}

pub proof fn lemma_first_colon_from(s: Seq<char>, i: int, c: int)
    requires
        0 <= i <= c <= s.len(),
        forall|k: int| i <= k < c ==> s[k] != ':',
        c < s.len() ==> s[c] == ':',
    ensures
        first_colon_from(s, i) == c,
    decreases c - i,
{
    if i < c {
        lemma_first_colon_from(s, i + 1, c);
    }
}

/// A `project: description` payload after a start timestamp.
pub open spec fn payload_event(ts: Timestamp, p: Seq<char>) -> LineEvent {
    let c = first_colon_from(p, 0);
    if c == p.len() {
        LineEvent::Bad
    } else {
        LineEvent::Start {
            ts,
            project: spec_trim(p.subrange(0, c)),
            description: spec_trim(p.subrange(c + 1, p.len() as int)),
        }
    }
}

/// The log grammar, one line at a time. A line is, after trimming: blank or a
/// `#` comment (no-op); `<timestamp>` alone (stop); `<timestamp> <project>:
/// <description>` (start); anything else is malformed. A timestamp is either
/// `YYYY-MM-DD HH:MM` or `HH:MM`, the latter read as a time on `today`.
pub open spec fn spec_line_event(raw: Seq<char>, today: Date) -> LineEvent {
    let t = spec_trim(raw);
    if t.len() == 0 || t[0] == '#' {
        LineEvent::Noop
    } else if datetime_shape(t) && valid_timestamp(datetime_value(t)) {
        if t.len() == 16 {
            LineEvent::Stop { ts: datetime_value(t) }
        } else if is_space_char(t[16]) {
            payload_event(datetime_value(t), t.subrange(17, t.len() as int))
        } else {
            LineEvent::Bad
        }
    } else if time_shape(t) && valid_timestamp(time_value(t, today)) {
        if t.len() == 5 {
            LineEvent::Stop { ts: time_value(t, today) }
        } else if is_space_char(t[5]) {
            payload_event(time_value(t, today), t.subrange(6, t.len() as int))
        } else {
            LineEvent::Bad
        }
    } else {
        LineEvent::Bad
    }
}

/// The parse outcome a `LogLine` must carry for the event its text describes.
pub open spec fn parsed_matches(
    parsed: Result<ActivityEvent, ParseError>,
    ev: LineEvent,
    ln: usize,
) -> bool {
    match ev {
        LineEvent::Noop => parsed == Ok::<ActivityEvent, ParseError>(ActivityEvent::Noop),
        LineEvent::Stop { ts } => parsed matches Ok(ActivityEvent::Stop { timestamp })
            && timestamp == ts,
        LineEvent::Start { ts, project, description } => parsed matches Ok(
            ActivityEvent::Start { timestamp, project: p, description: d },
        ) && timestamp == ts && p@ == project && d@ == description,
        LineEvent::Bad => parsed matches Err(e) && e.line_number == ln && e.message@
            == "malformed log line"@,
    }
}

/// Remove leading and trailing whitespace.
pub fn str_trim(s: &str) -> (r: &str)
    ensures
        r@ == spec_trim(s@),
{
    let n = s.unicode_len();
    let mut a: usize = 0;
    while a < n && char_is_space(s.get_char(a))
        invariant
            a <= n,
            n == s@.len(),
            forall|i: int| 0 <= i < a ==> is_space_char(s@[i]),
        decreases n - a,
    {
        a = a + 1;
    }
    if a == n {
        proof {
            lemma_trim_bounds(s@, n as int, 0);
        }
        return s.substring_char(0, 0);
    }
    let mut b: usize = n;
    while b > a + 1 && char_is_space(s.get_char(b - 1))
        invariant
            a < b <= n,
            n == s@.len(),
            forall|i: int| b <= i < n ==> is_space_char(s@[i]),
        decreases b,
    {
        b = b - 1;
    }
    if char_is_space(s.get_char(b - 1)) {
        // only possible when b == a + 1, i.e. everything after a is whitespace;
        // but s[a] is not whitespace, so this cannot happen
        proof {
            assert(b == a + 1);
            assert(is_space_char(s@[a as int]));
            assert(false);
        }
    }
    proof {
        lemma_trim_bounds(s@, a as int, b as int);
    }
    s.substring_char(a, b)
}

/// Read a `YYYY-MM-DD HH:MM` prefix, checking calendar validity.
fn try_datetime(t: &str) -> (r: Option<Timestamp>)
    ensures
        r matches Some(ts) ==> datetime_shape(t@) && ts == datetime_value(t@)
            && valid_timestamp(ts),
        r is None ==> !(datetime_shape(t@) && valid_timestamp(datetime_value(t@))),
{
    let n = t.unicode_len();
    if n < 16 {
        return None;
    }
    if !(char_is_digit(t.get_char(0)) && char_is_digit(t.get_char(1)) && char_is_digit(
        t.get_char(2),
    ) && char_is_digit(t.get_char(3)) && t.get_char(4) == '-' && char_is_digit(t.get_char(5))
        && char_is_digit(t.get_char(6)) && t.get_char(7) == '-' && char_is_digit(t.get_char(8))
        && char_is_digit(t.get_char(9)) && t.get_char(10) == ' ' && char_is_digit(t.get_char(11))
        && char_is_digit(t.get_char(12)) && t.get_char(13) == ':' && char_is_digit(t.get_char(14))
        && char_is_digit(t.get_char(15))) {
        return None;
    }
    let year = 1000 * char_digit_val(t.get_char(0)) + 100 * char_digit_val(t.get_char(1)) + 10
        * char_digit_val(t.get_char(2)) + char_digit_val(t.get_char(3));
    let month = 10 * char_digit_val(t.get_char(5)) + char_digit_val(t.get_char(6));
    let day = 10 * char_digit_val(t.get_char(8)) + char_digit_val(t.get_char(9));
    let hour = 10 * char_digit_val(t.get_char(11)) + char_digit_val(t.get_char(12));
    let minute = 10 * char_digit_val(t.get_char(14)) + char_digit_val(t.get_char(15));
    if month < 1 || month > 12 {
        return None;
    }
    if day < 1 || day > days_in_month(year, month) {
        return None;
    }
    if hour > 23 || minute > 59 {
        return None;
    }
    Some(Timestamp { date: Date { year, month, day }, hour, minute })
}

/// Read a time-only `HH:MM` prefix on today's date.
fn try_time(t: &str, today: Date) -> (r: Option<Timestamp>)
    requires
        crate::timestamp::valid_date(today),
    ensures
        r matches Some(ts) ==> time_shape(t@) && ts == time_value(t@, today) && valid_timestamp(
            ts,
        ),
        r is None ==> !(time_shape(t@) && valid_timestamp(time_value(t@, today))),
{
    let n = t.unicode_len();
    if n < 5 {
        return None;
    }
    if !(char_is_digit(t.get_char(0)) && char_is_digit(t.get_char(1)) && t.get_char(2) == ':'
        && char_is_digit(t.get_char(3)) && char_is_digit(t.get_char(4))) {
        return None;
    }
    let hour = 10 * char_digit_val(t.get_char(0)) + char_digit_val(t.get_char(1));
    let minute = 10 * char_digit_val(t.get_char(3)) + char_digit_val(t.get_char(4));
    if hour > 23 || minute > 59 {
        return None;
    }
    Some(Timestamp { date: today, hour, minute })
}

/// Split a `project: description` payload at its first colon.
fn parse_payload(p: &str, ts: Timestamp, line_number: usize) -> (r: Result<
    ActivityEvent,
    ParseError,
>)
    ensures
        parsed_matches(r, payload_event(ts, p@), line_number),
{
    let pn = p.unicode_len();
    let mut c: usize = 0;
    while c < pn && p.get_char(c) != ':'
        invariant
            c <= pn,
            pn == p@.len(),
            forall|k: int| 0 <= k < c ==> p@[k] != ':',
        decreases pn - c,
    {
        c = c + 1;
    }
    proof {
        lemma_first_colon_from(p@, 0, c as int);
    }
    if c == pn {
        return Err(
            ParseError { message: String::from_str("malformed log line"), line_number },
        );
    }
    let project = String::from_str(str_trim(p.substring_char(0, c)));
    let description = String::from_str(str_trim(p.substring_char(c + 1, pn)));
    Ok(ActivityEvent::Start { timestamp: ts, project, description })
}

/// Parse one raw line of the log. Never fails at the call boundary: a
/// malformed line is reported inside the returned `LogLine`. A time-only
/// timestamp is read as a time on `today`.
pub fn parse_line(raw: &str, line_number: usize, today: Date) -> (r: LogLine)
    requires
        crate::timestamp::valid_date(today),
    ensures
        r.line_number == line_number,
        r.raw_text@ == raw@,
        parsed_matches(r.parsed, spec_line_event(raw@, today), line_number),
{
    let raw_text = String::from_str(raw);
    let t = str_trim(raw);
    let tn = t.unicode_len();
    if tn == 0 {
        return LogLine { line_number, raw_text, parsed: Ok(ActivityEvent::Noop) };
    }
    if t.get_char(0) == '#' {
        return LogLine { line_number, raw_text, parsed: Ok(ActivityEvent::Noop) };
    }
    if let Some(ts) = try_datetime(t) {
        if tn == 16 {
            return LogLine { line_number, raw_text, parsed: Ok(ActivityEvent::Stop { timestamp: ts }) };
        }
        if char_is_space(t.get_char(16)) {
            let parsed = parse_payload(t.substring_char(17, tn), ts, line_number);
            return LogLine { line_number, raw_text, parsed };
        }
        return LogLine {
            line_number,
            raw_text,
            parsed: Err(
                ParseError { message: String::from_str("malformed log line"), line_number },
            ),
        };
    }
    if let Some(ts) = try_time(t, today) {
        if tn == 5 {
            return LogLine { line_number, raw_text, parsed: Ok(ActivityEvent::Stop { timestamp: ts }) };
        }
        if char_is_space(t.get_char(5)) {
            let parsed = parse_payload(t.substring_char(6, tn), ts, line_number);
            return LogLine { line_number, raw_text, parsed };
        }
        return LogLine {
            line_number,
            raw_text,
            parsed: Err(
                ParseError { message: String::from_str("malformed log line"), line_number },
            ),
        };
    }
    LogLine {
        line_number,
        raw_text,
        parsed: Err(ParseError { message: String::from_str("malformed log line"), line_number }),
    }
}

/// Parse a whole file, one `LogLine` per physical line, numbered from 1.
/// The number of returned `LogLine`s always equals the number of lines given.
pub fn parse_log(lines: &Vec<String>, today: Date) -> (r: Vec<LogLine>)
    requires
        crate::timestamp::valid_date(today),
        lines@.len() < usize::MAX,
    ensures
        r@.len() == lines@.len(),
        forall|i: int|
            0 <= i < lines@.len() ==> {
                &&& (#[trigger] r@[i]).line_number == i + 1
                &&& r@[i].raw_text@ == lines@[i]@
                &&& parsed_matches(
                    r@[i].parsed,
                    spec_line_event(lines@[i]@, today),
                    (i + 1) as usize,
                )
            },
{
    let mut r: Vec<LogLine> = Vec::new();
    let mut i: usize = 0;
    while i < lines.len()
        invariant
            crate::timestamp::valid_date(today),
            lines@.len() < usize::MAX,
            i <= lines@.len(),
            r@.len() == i,
            forall|j: int|
                0 <= j < i ==> {
                    &&& (#[trigger] r@[j]).line_number == j + 1
                    &&& r@[j].raw_text@ == lines@[j]@
                    &&& parsed_matches(
                        r@[j].parsed,
                        spec_line_event(lines@[j]@, today),
                        (j + 1) as usize,
                    )
                },
        decreases lines@.len() - i,
    {
        let line = parse_line(lines[i].as_str(), i + 1, today);
        r.push(line);
        i = i + 1;
    }
    r
}

} // verus!
