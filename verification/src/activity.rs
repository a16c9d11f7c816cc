use vstd::prelude::*;

use crate::line::{ActivityEvent, LogLine};
use crate::timestamp::Timestamp;

verus! {

/// A materialized unit of tracked work. `end` is `None` exactly while the
/// activity is still running.
pub struct Activity {
    pub project: String,
    pub description: String,
    pub start: Timestamp,
    pub end: Option<Timestamp>,
}

impl Clone for Activity {
    fn clone(&self) -> (r: Self)
        ensures
            r == *self,
    {
        Activity {
            project: self.project.clone(),
            description: self.description.clone(),
            start: self.start,
            end: self.end,
        }
    }
}

impl Activity {
    /// Whether the activity has ended.
    pub open spec fn spec_is_stopped(self) -> bool {
        self.end is Some
    }

    pub fn is_stopped(&self) -> (r: bool)
        ensures
            r == self.spec_is_stopped(),
    {
        self.end.is_some()
    }
}

/// The given open activity, closed at `ts`.
pub open spec fn close_at(a: Activity, ts: Timestamp) -> Activity {
    Activity { project: a.project, description: a.description, start: a.start, end: Some(ts) }
}

/// One step of the materializing fold: the finished activities so far and the
/// activity currently open, updated by one event.
pub open spec fn step_event(
    st: (Seq<Activity>, Option<Activity>),
    ev: ActivityEvent,
) -> (Seq<Activity>, Option<Activity>) {
    match ev {
        ActivityEvent::Start { timestamp, project, description } => {
            let done = match st.1 {
                Some(open) => st.0.push(close_at(open, timestamp)),
                None => st.0,
            };
            (done, Some(Activity { project, description, start: timestamp, end: None }))
        },
        ActivityEvent::Stop { timestamp } => match st.1 {
            Some(open) => (st.0.push(close_at(open, timestamp)), None),
            None => st,
        },
        ActivityEvent::Noop => st,
    }
}

/// A line with a parse error, or a no-op line, leaves the fold state alone.
pub open spec fn step_line(
    st: (Seq<Activity>, Option<Activity>),
    line: LogLine,
) -> (Seq<Activity>, Option<Activity>) {
    match line.parsed {
        Ok(ev) => step_event(st, ev),
        Err(_) => st,
    }
}

/// Fold a sequence of events, left to right, from a given state.
pub open spec fn run_events_from(
    st: (Seq<Activity>, Option<Activity>),
    evs: Seq<ActivityEvent>,
) -> (Seq<Activity>, Option<Activity>)
    decreases evs.len(),
{
    if evs.len() == 0 {
        st
    } else {
        step_event(run_events_from(st, evs.drop_last()), evs.last())
    }
}

/// Fold the parsed lines of a log, in file order.
pub open spec fn run_lines(lines: Seq<LogLine>) -> (Seq<Activity>, Option<Activity>)
    decreases lines.len(),
{
    if lines.len() == 0 {
        (Seq::empty(), None)
    } else {
        step_line(run_lines(lines.drop_last()), lines.last())
    }
}

/// At end of input a still-open activity stays in the output, running.
pub open spec fn finalize(st: (Seq<Activity>, Option<Activity>)) -> Seq<Activity> {
    match st.1 {
        Some(open) => st.0.push(open),
        None => st.0,
    }
}

/// The activities a log materializes to, in file order.
pub open spec fn activities_of(lines: Seq<LogLine>) -> Seq<Activity> {
    finalize(run_lines(lines))
}

pub open spec fn run_events(evs: Seq<ActivityEvent>) -> Seq<Activity> {
    finalize(run_events_from((Seq::empty(), None), evs))
}

/// Unfolding `run_lines` one line at a time.
pub proof fn lemma_run_lines_snoc(lines: Seq<LogLine>, i: int)
    requires
        0 <= i < lines.len(),
    ensures
        run_lines(lines.take(i + 1)) == step_line(run_lines(lines.take(i)), lines[i]),
{
    assert(lines.take(i + 1).drop_last() =~= lines.take(i));
    assert(lines.take(i + 1).last() == lines[i]);
}

/// Fold the lines of a log into activities: each start opens a new activity,
/// closing any open one at the new start's timestamp; each stop closes the
/// open one; a stop with nothing open, a no-op line and a malformed line
/// change nothing; an activity still open at end of input is kept, running.
pub fn materialize(lines: &Vec<LogLine>) -> (r: Vec<Activity>)
    ensures
        r@ == activities_of(lines@),
{
    let mut acts: Vec<Activity> = Vec::new();
    let mut open: Option<Activity> = None;
    let mut i: usize = 0;
    while i < lines.len()
        invariant
            i <= lines@.len(),
            acts@ == run_lines(lines@.take(i as int)).0,
            open == run_lines(lines@.take(i as int)).1,
        decreases lines@.len() - i,
    {
        proof {
            lemma_run_lines_snoc(lines@, i as int);
        }
        match &lines[i].parsed {
            Ok(ActivityEvent::Start { timestamp, project, description }) => {
                let prev = open;
                match prev {
                    Some(o) => {
                        acts.push(
                            Activity {
                                project: o.project,
                                description: o.description,
                                start: o.start,
                                end: Some(*timestamp),
                            },
                        );
                    },
                    None => {},
                }
                open = Some(
                    Activity {
                        project: project.clone(),
                        description: description.clone(),
                        start: *timestamp,
                        end: None,
                    },
                );
            },
            Ok(ActivityEvent::Stop { timestamp }) => {
                let prev = open;
                match prev {
                    Some(o) => {
                        acts.push(
                            Activity {
                                project: o.project,
                                description: o.description,
                                start: o.start,
                                end: Some(*timestamp),
                            },
                        );
                        open = None;
                    },
                    None => {
                        open = prev;
                    },
                }
            },
            Ok(ActivityEvent::Noop) => {},
            Err(_) => {},
        }
        i = i + 1;
    }
    proof {
        assert(lines@.take(lines@.len() as int) =~= lines@);
    }
    match open {
        Some(o) => {
            acts.push(o);
        },
        None => {},
    }
    acts
}

/// Every activity the fold has finished is closed, and the open one is not.
pub proof fn lemma_all_closed(lines: Seq<LogLine>)
    ensures
        forall|k: int|
            0 <= k < run_lines(lines).0.len() ==> (#[trigger] run_lines(lines).0[k]).end is Some,
        run_lines(lines).1 matches Some(o) ==> o.end is None,
    decreases lines.len(),
{
    if lines.len() > 0 {
        lemma_all_closed(lines.drop_last());
        let st = run_lines(lines.drop_last());
        assert forall|k: int|
            0 <= k < run_lines(lines).0.len() implies (#[trigger] run_lines(lines).0[k]).end
            is Some by {
            if k < st.0.len() {
                assert(st.0[k].end is Some);
            }
        }
    }
}

/// At most one activity in a materialized log is running, and it comes last.
pub proof fn lemma_running_is_last(lines: Seq<LogLine>)
    ensures
        forall|k: int|
            0 <= k < activities_of(lines).len() && (#[trigger] activities_of(lines)[k]).end
                is None ==> k == activities_of(lines).len() - 1,
{
    lemma_all_closed(lines);
}

/// No start or stop: the line cannot change the fold state.
pub open spec fn is_inert_line(l: LogLine) -> bool {
    match l.parsed {
        Ok(ActivityEvent::Noop) => true,
        Ok(_) => false,
        Err(_) => true,
    }
}

pub open spec fn is_start_line(l: LogLine) -> bool {
    l.parsed matches Ok(ActivityEvent::Start { .. })
}

pub open spec fn is_stop_line(l: LogLine) -> bool {
    l.parsed matches Ok(ActivityEvent::Stop { .. })
}

/// The timestamp, project and description of a start line.
pub open spec fn start_data(l: LogLine) -> (Timestamp, String, String) {
    match l.parsed {
        Ok(ActivityEvent::Start { timestamp, project, description }) => (
            timestamp,
            project,
            description,
        ),
        _ => arbitrary(),
    }
}

/// The timestamp of a stop line.
pub open spec fn stop_ts(l: LogLine) -> Timestamp {
    match l.parsed {
        Ok(ActivityEvent::Stop { timestamp }) => timestamp,
        _ => arbitrary(),
    }
}

/// A span of inert lines leaves the fold state untouched.
pub proof fn lemma_inert_range(lines: Seq<LogLine>, a: int, b: int)
    requires
        0 <= a <= b <= lines.len(),
        forall|k: int| a <= k < b ==> is_inert_line(#[trigger] lines[k]),
    ensures
        run_lines(lines.take(b)) == run_lines(lines.take(a)),
    decreases b - a,
{
    if a < b {
        lemma_inert_range(lines, a, b - 1);
        lemma_run_lines_snoc(lines, b - 1);
    }
}

/// A start line followed, over blanks and malformed lines only, by a stop
/// line yields exactly one closed activity, spanning those two timestamps,
/// and leaves nothing open.
pub proof fn lemma_start_then_stop(lines: Seq<LogLine>, i: int, j: int)
    requires
        0 <= i < j < lines.len(),
        is_start_line(lines[i]),
        is_stop_line(lines[j]),
        forall|k: int| i < k < j ==> is_inert_line(#[trigger] lines[k]),
    ensures
        ({
            let (t1, p, d) = start_data(lines[i]);
            let t2 = stop_ts(lines[j]);
            let before = step_line(run_lines(lines.take(i)), lines[i]).0;
            run_lines(lines.take(j + 1)).0 == before.push(
                Activity { project: p, description: d, start: t1, end: Some(t2) },
            ) && run_lines(lines.take(j + 1)).1 is None
        }),
{
    lemma_run_lines_snoc(lines, i);
    lemma_inert_range(lines, i + 1, j);
    lemma_run_lines_snoc(lines, j);
}

/// Two start lines with only inert lines between them yield one activity
/// closed at the second start's timestamp, and leave the second one open,
/// running. When the second start ends the log, the materialized activities
/// end with that closed activity followed by the one running activity.
pub proof fn lemma_start_then_start(lines: Seq<LogLine>, i: int, j: int)
    requires
        0 <= i < j < lines.len(),
        is_start_line(lines[i]),
        is_start_line(lines[j]),
        forall|k: int| i < k < j ==> is_inert_line(#[trigger] lines[k]),
    ensures
        ({
            let (t1, p1, d1) = start_data(lines[i]);
            let (t2, p2, d2) = start_data(lines[j]);
            let before = step_line(run_lines(lines.take(i)), lines[i]).0;
            run_lines(lines.take(j + 1)).0 == before.push(
                Activity { project: p1, description: d1, start: t1, end: Some(t2) },
            ) && run_lines(lines.take(j + 1)).1 == Some(
                Activity { project: p2, description: d2, start: t2, end: None },
            ) && (j == lines.len() - 1 ==> activities_of(lines) == before.push(
                Activity { project: p1, description: d1, start: t1, end: Some(t2) },
            ).push(Activity { project: p2, description: d2, start: t2, end: None }))
        }),
{
    lemma_run_lines_snoc(lines, i);
    lemma_inert_range(lines, i + 1, j);
    lemma_run_lines_snoc(lines, j);
    if j == lines.len() - 1 {
        assert(lines.take(j + 1) =~= lines);
    }
}

/// A log ending in an unmatched start materializes to some closed activities
/// followed by exactly one running activity, carrying that start's data.
pub proof fn lemma_unmatched_start_runs(lines: Seq<LogLine>, i: int)
    requires
        0 <= i < lines.len(),
        is_start_line(lines[i]),
        forall|k: int| i < k < lines.len() ==> is_inert_line(#[trigger] lines[k]),
    ensures
        ({
            let (t1, p, d) = start_data(lines[i]);
            activities_of(lines) == step_line(run_lines(lines.take(i)), lines[i]).0.push(
                Activity { project: p, description: d, start: t1, end: None },
            )
        }),
{
    lemma_run_lines_snoc(lines, i);
    lemma_inert_range(lines, i + 1, lines.len() as int);
    assert(lines.take(lines.len() as int) =~= lines);
}

/// The start and stop lines an activity sequence writes back: a start for
/// each activity, and an explicit stop for each closed one.
pub open spec fn event_block(a: Activity) -> Seq<ActivityEvent> {
    match a.end {
        Some(e) => seq![
            ActivityEvent::Start {
                timestamp: a.start,
                project: a.project,
                description: a.description,
            },
            ActivityEvent::Stop { timestamp: e },
        ],
        None => seq![
            ActivityEvent::Start {
                timestamp: a.start,
                project: a.project,
                description: a.description,
            },
        ],
    }
}

pub open spec fn boundary_events(acts: Seq<Activity>) -> Seq<ActivityEvent>
    decreases acts.len(),
{
    if acts.len() == 0 {
        Seq::empty()
    } else {
        event_block(acts[0]) + boundary_events(acts.drop_first())
    }
}

pub proof fn lemma_run_events_concat(
    st: (Seq<Activity>, Option<Activity>),
    a: Seq<ActivityEvent>,
    b: Seq<ActivityEvent>,
)
    ensures
        run_events_from(st, a + b) == run_events_from(run_events_from(st, a), b),
    decreases b.len(),
{
    if b.len() == 0 {
        assert(a + b =~= a);
    } else {
        lemma_run_events_concat(st, a, b.drop_last());
        assert((a + b).drop_last() =~= a + b.drop_last());
        assert((a + b).last() == b.last());
    }
}

proof fn lemma_replay(done: Seq<Activity>, acts: Seq<Activity>)
    requires
        forall|k: int| 0 <= k < acts.len() && (#[trigger] acts[k]).end is None ==> k == acts.len() - 1,
    ensures
        finalize(run_events_from((done, None), boundary_events(acts))) == done + acts,
    decreases acts.len(),
{
    if acts.len() == 0 {
        assert(done + acts =~= done);
    } else {
        let a0 = acts[0];
        let rest = acts.drop_first();
        lemma_run_events_concat((done, None), event_block(a0), boundary_events(rest));
        let ev_start = ActivityEvent::Start {
            timestamp: a0.start,
            project: a0.project,
            description: a0.description,
        };
        let open0 = Activity {
            project: a0.project,
            description: a0.description,
            start: a0.start,
            end: None,
        };
        match a0.end {
            Some(e) => {
                let blk = event_block(a0);
                assert(blk == seq![ev_start, ActivityEvent::Stop { timestamp: e }]);
                assert(blk.drop_last() =~= seq![ev_start]);
                assert(blk.last() == ActivityEvent::Stop { timestamp: e });
                assert(seq![ev_start].drop_last() =~= Seq::<ActivityEvent>::empty());
                assert(seq![ev_start].last() == ev_start);
                assert(run_events_from((done, None), Seq::empty()) == (done, None::<Activity>));
                assert(run_events_from((done, None), seq![ev_start]) == step_event(
                    (done, None),
                    ev_start,
                ));
                assert(step_event((done, None), ev_start) == (done, Some(open0)));
                assert(run_events_from((done, None), blk) == step_event(
                    (done, Some(open0)),
                    ActivityEvent::Stop { timestamp: e },
                ));
                assert(close_at(open0, e) == a0);
                assert(run_events_from((done, None), blk) == (done.push(a0), None::<Activity>));
                assert forall|k: int|
                    0 <= k < rest.len() && (#[trigger] rest[k]).end is None implies k == rest.len()
                    - 1 by {
                    assert(rest[k] == acts[k + 1]);
                }
                lemma_replay(done.push(a0), rest);
                assert(done.push(a0) + rest =~= done + acts);
            },
            None => {
                // a running activity is last, so nothing follows it
                assert(acts[0].end is None);
                assert(acts.len() == 1);
                let blk = event_block(a0);
                assert(blk == seq![ev_start]);
                assert(blk.drop_last() =~= Seq::<ActivityEvent>::empty());
                assert(blk.last() == ev_start);
                assert(run_events_from((done, None), Seq::empty()) == (done, None::<Activity>));
                assert(run_events_from((done, None), blk) == step_event((done, None), ev_start));
                assert(open0 == a0);
                assert(run_events_from((done, None), blk) == (done, Some(a0)));
                assert(boundary_events(rest) =~= Seq::<ActivityEvent>::empty());
                assert(done.push(a0) =~= done + acts);
            },
        }
    }
}

/// Round trip: writing an activity sequence back as start/stop lines and
/// materializing again reproduces exactly the same activities. This holds of
/// every sequence in which only the last activity may be running — in
/// particular of everything `materialize` produces.
pub proof fn lemma_materialize_round_trip(acts: Seq<Activity>)
    requires
        forall|k: int| 0 <= k < acts.len() && (#[trigger] acts[k]).end is None ==> k == acts.len() - 1,
    ensures
        run_events(boundary_events(acts)) == acts,
{
    lemma_replay(Seq::empty(), acts);
    assert(Seq::<Activity>::empty() + acts =~= acts);
}

} // verus!
