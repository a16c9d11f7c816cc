use vstd::prelude::*;

use crate::activity::Activity;
use crate::textutil::{
    contains_seq, lemma_lex_transitive, lemma_lex_trichotomy, lex_lt, str_contains, str_lex_lt,
};
use crate::timestamp::{timestamp_lt, ts_le, ts_lt, Date};

verus! {

/// Declarative query constraints, evaluated independently per activity.
/// `number_of_activities` is not part of the per-activity predicate: it caps
/// the result count after chronological sorting.
pub struct ActivityFilter {
    pub date: Option<Date>,
    pub number_of_activities: Option<usize>,
    pub project_substring: Option<String>,
    pub description_substring: Option<String>,
}

/// The per-activity filter predicate: the start date must equal `date` when
/// present, and `project_substring` / `description_substring`, when present,
/// must occur in the respective field (case-sensitive substring match).
pub open spec fn matches_filter(a: Activity, f: ActivityFilter) -> bool {
    &&& (f.date matches Some(d) ==> a.start.date == d)
    &&& (f.project_substring matches Some(p) ==> contains_seq(a.project@, p@))
    &&& (f.description_substring matches Some(s) ==> contains_seq(a.description@, s@))
}

pub fn activity_matches_filter(a: &Activity, f: &ActivityFilter) -> (r: bool)
    ensures
        r == matches_filter(*a, *f),
{
    match &f.date {
        Some(d) => {
            if !(a.start.date == *d) {
                return false;
            }
        },
        None => {},
    }
    match &f.project_substring {
        Some(p) => {
            if !str_contains(a.project.as_str(), p.as_str()) {
                return false;
            }
        },
        None => {},
    }
    match &f.description_substring {
        Some(s) => {
            if !str_contains(a.description.as_str(), s.as_str()) {
                return false;
            }
        },
        None => {},
    }
    true
}

/// The activities that satisfy the filter predicate, in their given order.
pub fn filter_activities(acts: &Vec<Activity>, filter: &ActivityFilter) -> (r: Vec<Activity>)
    ensures
        r@ == acts@.filter(|a: Activity| matches_filter(a, *filter)),
{
    let ghost pred = |a: Activity| matches_filter(a, *filter);
    let mut r: Vec<Activity> = Vec::new();
    let mut i: usize = 0;
    proof {
        reveal(Seq::filter);
        assert(acts@.take(0) =~= Seq::<Activity>::empty());
    }
    while i < acts.len()
        invariant
            i <= acts@.len(),
            r@ == acts@.take(i as int).filter(pred),
            pred == (|a: Activity| matches_filter(a, *filter)),
        decreases acts@.len() - i,
    {
        proof {
            reveal(Seq::filter);
            assert(acts@.take(i + 1).drop_last() =~= acts@.take(i as int));
            assert(acts@.take(i + 1).last() == acts@[i as int]);
        }
        if activity_matches_filter(&acts[i], filter) {
            r.push(acts[i].clone());
        }
        i = i + 1;
    }
    proof {
        assert(acts@.take(acts@.len() as int) =~= acts@);
    }
    r
}

/// The running activities: those with no end yet.
pub open spec fn spec_running(acts: Seq<Activity>) -> Seq<Activity> {
    acts.filter(|a: Activity| a.end is None)
}

/// The subset of activities still running, in their given order. The engine
/// does not assume there is at most one: it returns whatever is open.
pub fn running_activities(acts: &Vec<Activity>) -> (r: Vec<Activity>)
    ensures
        r@ == spec_running(acts@),
{
    let ghost pred = |a: Activity| a.end is None;
    let mut r: Vec<Activity> = Vec::new();
    let mut i: usize = 0;
    proof {
        reveal(Seq::filter);
        assert(acts@.take(0) =~= Seq::<Activity>::empty());
    }
    while i < acts.len()
        invariant
            i <= acts@.len(),
            r@ == acts@.take(i as int).filter(pred),
            pred == (|a: Activity| a.end is None),
        decreases acts@.len() - i,
    {
        proof {
            reveal(Seq::filter);
            assert(acts@.take(i + 1).drop_last() =~= acts@.take(i as int));
            assert(acts@.take(i + 1).last() == acts@[i as int]);
        }
        if acts[i].end.is_none() {
            r.push(acts[i].clone());
        }
        i = i + 1;
    }
    proof {
        assert(acts@.take(acts@.len() as int) =~= acts@);
    }
    r
}

proof fn lemma_running_closed_empty(s: Seq<Activity>)
    requires
        forall|k: int| 0 <= k < s.len() ==> (#[trigger] s[k]).end is Some,
    ensures
        spec_running(s) == Seq::<Activity>::empty(),
    decreases s.len(),
{
    reveal(Seq::filter);
    if s.len() > 0 {
        lemma_running_closed_empty(s.drop_last());
    }
}

/// A log ending in an unmatched start has exactly one running activity: the
/// one that start opened, with no end.
pub proof fn lemma_unmatched_start_running(lines: Seq<crate::line::LogLine>, i: int)
    requires
        0 <= i < lines.len(),
        crate::activity::is_start_line(lines[i]),
        forall|k: int|
            i < k < lines.len() ==> crate::activity::is_inert_line(#[trigger] lines[k]),
    ensures
        ({
            let (t1, p, d) = crate::activity::start_data(lines[i]);
            spec_running(crate::activity::activities_of(lines)) == seq![
                Activity { project: p, description: d, start: t1, end: None },
            ]
        }),
{
    crate::activity::lemma_unmatched_start_runs(lines, i);
    crate::activity::lemma_run_lines_snoc(lines, i);
    crate::activity::lemma_all_closed(lines.take(i + 1));
    let (t1, p, d) = crate::activity::start_data(lines[i]);
    let running = Activity { project: p, description: d, start: t1, end: None };
    let prefix = crate::activity::run_lines(lines.take(i + 1)).0;
    lemma_running_closed_empty(prefix);
    reveal(Seq::filter);
    assert(prefix.push(running).drop_last() =~= prefix);
    assert(spec_running(prefix.push(running)) == spec_running(prefix).push(running));
    assert(Seq::<Activity>::empty().push(running) =~= seq![running]);
}

/// Insert an activity into a start-sorted sequence, after every element whose
/// start is not later — the insertion a stable sort performs.
pub open spec fn insert_by_start(x: Activity, s: Seq<Activity>) -> Seq<Activity>
    decreases s.len(),
{
    if s.len() == 0 {
        seq![x]
    } else if ts_lt(x.start, s[0].start) {
        seq![x] + s
    } else {
        seq![s[0]] + insert_by_start(x, s.drop_first())
    }
}

/// Stable sort by start timestamp: elements are inserted in input order, each
/// after all elements with an equal start, so ties keep their original order.
pub open spec fn sort_by_start(s: Seq<Activity>) -> Seq<Activity>
    decreases s.len(),
{
    if s.len() == 0 {
        Seq::empty()
    } else {
        insert_by_start(s.last(), sort_by_start(s.drop_last()))
    }
}

/// Sorted by start timestamp, ascending.
pub open spec fn sorted_by_start(s: Seq<Activity>) -> bool {
    forall|i: int, j: int| 0 <= i < j < s.len() ==> ts_le(#[trigger] s[i].start, #[trigger] s[j].start)
}

/// Where the scan found the insertion point, `insert_by_start` splits the
/// sequence there.
proof fn lemma_insert_at(x: Activity, s: Seq<Activity>, p: int)
    requires
        0 <= p <= s.len(),
        forall|i: int| 0 <= i < p ==> !ts_lt(x.start, (#[trigger] s[i]).start),
        forall|i: int| p <= i < s.len() ==> ts_lt(x.start, (#[trigger] s[i]).start),
    ensures
        insert_by_start(x, s) == s.take(p) + seq![x] + s.skip(p),
    decreases s.len(),
{
    if s.len() == 0 {
        assert(s.take(p) + seq![x] + s.skip(p) =~= seq![x]);
    } else if p == 0 {
        assert(ts_lt(x.start, s[0].start));
        assert(s.take(0) + seq![x] + s.skip(0) =~= seq![x] + s);
    } else {
        assert(!ts_lt(x.start, s[0].start));
        let rest = s.drop_first();
        assert forall|i: int| 0 <= i < p - 1 implies !ts_lt(x.start, (#[trigger] rest[i]).start) by {
            assert(rest[i] == s[i + 1]);
        }
        assert forall|i: int| p - 1 <= i < rest.len() implies ts_lt(
            x.start,
            (#[trigger] rest[i]).start,
        ) by {
            assert(rest[i] == s[i + 1]);
        }
        lemma_insert_at(x, rest, p - 1);
        assert(seq![s[0]] + (rest.take(p - 1) + seq![x] + rest.skip(p - 1)) =~= s.take(p) + seq![x]
            + s.skip(p));
    }
}

/// Sort activities by start timestamp, ascending; the sort is stable, so
/// activities with equal starts keep their original relative order.
pub fn sort_activities_by_start(input: &Vec<Activity>) -> (r: Vec<Activity>)
    ensures
        r@ == sort_by_start(input@),
        sorted_by_start(r@),
        r@.len() == input@.len(),
{
    let mut out: Vec<Activity> = Vec::new();
    let mut i: usize = 0;
    proof {
        assert(input@.take(0) =~= Seq::<Activity>::empty());
    }
    while i < input.len()
        invariant
            i <= input@.len(),
            out@ == sort_by_start(input@.take(i as int)),
            out@.len() == i,
            sorted_by_start(out@),
        decreases input@.len() - i,
    {
        let x = input[i].clone();
        let mut p: usize = out.len();
        while p > 0 && timestamp_lt(&x.start, &out[p - 1].start)
            invariant
                p <= out@.len(),
                forall|k: int| p <= k < out@.len() ==> ts_lt(x.start, (#[trigger] out@[k]).start),
            decreases p,
        {
            p = p - 1;
        }
        proof {
            assert forall|k: int| 0 <= k < p implies !ts_lt(x.start, (#[trigger] out@[k]).start) by {
                assert(ts_le(out@[k].start, out@[p - 1].start));
            }
            lemma_insert_at(x, out@, p as int);
            assert(input@.take(i + 1).drop_last() =~= input@.take(i as int));
            assert(input@.take(i + 1).last() == input@[i as int]);
        }
        let ghost old_out = out@;
        out.insert(p, x);
        proof {
            assert(out@ =~= old_out.take(p as int) + seq![x] + old_out.skip(p as int));
            assert(out@ == insert_by_start(x, old_out));
            assert forall|a: int, b: int| 0 <= a < b < out@.len() implies ts_le(
                #[trigger] out@[a].start,
                #[trigger] out@[b].start,
            ) by {
                let pi = p as int;
                if a < pi && b < pi {
                    assert(out@[a] == old_out[a] && out@[b] == old_out[b]);
                } else if a < pi && b == pi {
                    assert(out@[a] == old_out[a]);
                    assert(!ts_lt(x.start, old_out[a].start));
                } else if a < pi && b > pi {
                    assert(out@[a] == old_out[a] && out@[b] == old_out[b - 1]);
                } else if a == pi && b > pi {
                    assert(out@[b] == old_out[b - 1]);
                    assert(ts_lt(x.start, old_out[b - 1].start));
                } else if a > pi && b > pi {
                    assert(out@[a] == old_out[a - 1] && out@[b] == old_out[b - 1]);
                }
            }
        }
        i = i + 1;
    }
    proof {
        assert(input@.take(input@.len() as int) =~= input@);
    }
    out
}

/// Whether an activity counts for the project listing: when `current_only`
/// is set, already-stopped activities are excluded.
pub open spec fn counts_for_projects(a: Activity, current_only: bool) -> bool {
    !(current_only && a.end is Some)
}

/// `s` occurs as the view of some element of `v`.
pub open spec fn seq_has_str(v: Seq<String>, s: Seq<char>) -> bool {
    exists|i: int| 0 <= i < v.len() && (#[trigger] v[i])@ == s
}

/// `s` is the project of some activity that counts for the listing.
pub open spec fn projects_has(acts: Seq<Activity>, current_only: bool, s: Seq<char>) -> bool {
    exists|k: int|
        0 <= k < acts.len() && counts_for_projects(#[trigger] acts[k], current_only)
            && acts[k].project@ == s
}

/// The distinct projects of the given activities, lexicographically ordered.
/// With `current_only`, projects whose only occurrences are already stopped
/// are excluded.
pub fn distinct_projects(acts: &Vec<Activity>, current_only: bool) -> (r: Vec<String>)
    ensures
        forall|i: int, j: int| 0 <= i < j < r@.len() ==> lex_lt((#[trigger] r@[i])@, (#[trigger] r@[j])@),
        forall|s: Seq<char>|
            #[trigger] seq_has_str(r@, s) <==> projects_has(acts@, current_only, s),
{
    let mut r: Vec<String> = Vec::new();
    let mut k: usize = 0;
    while k < acts.len()
        invariant
            k <= acts@.len(),
            forall|i: int, j: int|
                0 <= i < j < r@.len() ==> lex_lt((#[trigger] r@[i])@, (#[trigger] r@[j])@),
            forall|s: Seq<char>|
                #[trigger] seq_has_str(r@, s) <==> projects_has(
                    acts@.take(k as int),
                    current_only,
                    s,
                ),
        decreases acts@.len() - k,
    {
        let a = &acts[k];
        let keep = !(current_only && a.is_stopped());
        proof {
            assert(acts@.take(k + 1).drop_last() =~= acts@.take(k as int));
            assert forall|s: Seq<char>|
                projects_has(acts@.take(k as int), current_only, s) implies projects_has(
                acts@.take(k + 1),
                current_only,
                s,
            ) by {
                let w = choose|w: int|
                    0 <= w < acts@.take(k as int).len() && counts_for_projects(
                        #[trigger] acts@.take(k as int)[w],
                        current_only,
                    ) && acts@.take(k as int)[w].project@ == s;
                assert(acts@.take(k + 1)[w] == acts@.take(k as int)[w]);
                assert(counts_for_projects(acts@.take(k + 1)[w], current_only));
            }
        }
        if keep {
            let mut p: usize = 0;
            while p < r.len() && str_lex_lt(r[p].as_str(), a.project.as_str())
                invariant
                    p <= r@.len(),
                    forall|i: int| 0 <= i < p ==> lex_lt((#[trigger] r@[i])@, a.project@),
                decreases r@.len() - p,
            {
                p = p + 1;
            }
            let mut present = false;
            if p < r.len() {
                if r[p] == a.project {
                    present = true;
                }
            }
            if present {
                proof {
                    assert(r@[p as int]@ == acts@[k as int].project@);
                    assert(seq_has_str(r@, acts@[k as int].project@));
                    assert forall|s: Seq<char>|
                        #[trigger] seq_has_str(r@, s) <==> projects_has(
                        acts@.take(k + 1),
                        current_only,
                        s,
                    ) by {
                        if projects_has(acts@.take(k + 1), current_only, s) {
                            let w = choose|w: int|
                                0 <= w < acts@.take(k + 1).len() && counts_for_projects(
                                    #[trigger] acts@.take(k + 1)[w],
                                    current_only,
                                ) && acts@.take(k + 1)[w].project@ == s;
                            if w < k {
                                assert(acts@.take(k as int)[w] == acts@.take(k + 1)[w]);
                                assert(projects_has(acts@.take(k as int), current_only, s));
                            } else {
                                assert(acts@.take(k + 1)[w] == acts@[k as int]);
                                assert(s == acts@[k as int].project@);
                            }
                        }
                    }
                }
            } else {
                let ghost old_r = r@;
                let x = a.project.clone();
                if p < r.len() {
                    proof {
                        lemma_lex_trichotomy(r@[p as int]@, acts@[k as int].project@);
                        assert(!lex_lt(old_r[p as int]@, acts@[k as int].project@));
                        assert(old_r[p as int]@ != acts@[k as int].project@);
                        assert(lex_lt(acts@[k as int].project@, old_r[p as int]@));
                    }
                } else {
                    proof {
                        assert(p == old_r.len());
                    }
                }
                r.insert(p, x);
                proof {
                    let pi = p as int;
                    let xs = acts@[k as int].project@;
                    assert(r@ =~= old_r.take(pi) + seq![x] + old_r.skip(pi));
                    // strict order is kept
                    assert forall|i: int, j: int| 0 <= i < j < r@.len() implies lex_lt(
                        (#[trigger] r@[i])@,
                        (#[trigger] r@[j])@,
                    ) by {
                        if i < pi && j < pi {
                            assert(r@[i] == old_r[i] && r@[j] == old_r[j]);
                        } else if i < pi && j == pi {
                            assert(r@[i] == old_r[i]);
                        } else if i < pi && j > pi {
                            assert(r@[i] == old_r[i] && r@[j] == old_r[j - 1]);
                            if pi < j - 1 {
                                lemma_lex_transitive(xs, old_r[pi]@, old_r[j - 1]@);
                                lemma_lex_transitive(old_r[i]@, xs, old_r[j - 1]@);
                                assert(lex_lt(old_r[i]@, old_r[j - 1]@));
                            } else {
                                assert(j - 1 == pi);
                                if pi < old_r.len() {
                                    lemma_lex_transitive(old_r[i]@, xs, old_r[pi]@);
                                }
                            }
                            assert(lex_lt(r@[i]@, r@[j]@));
                        } else if i == pi && j > pi {
                            assert(r@[j] == old_r[j - 1]);
                            if pi < j - 1 {
                                lemma_lex_transitive(xs, old_r[pi]@, old_r[j - 1]@);
                            }
                        } else {
                            assert(r@[i] == old_r[i - 1] && r@[j] == old_r[j - 1]);
                        }
                    }
                    // membership: the new set is the old set plus this project
                    assert(r@[pi]@ == xs);
                    assert forall|s: Seq<char>|
                        #[trigger] seq_has_str(r@, s) <==> projects_has(
                        acts@.take(k + 1),
                        current_only,
                        s,
                    ) by {
                        if seq_has_str(r@, s) {
                            let w = choose|w: int| 0 <= w < r@.len() && (#[trigger] r@[w])@ == s;
                            if w < pi {
                                assert(r@[w] == old_r[w]);
                                assert(seq_has_str(old_r, s));
                                assert(projects_has(acts@.take(k as int), current_only, s));
                            } else if w == pi {
                                assert(s == xs);
                                assert(acts@.take(k + 1)[k as int] == acts@[k as int]);
                                assert(projects_has(acts@.take(k + 1), current_only, s));
                            } else {
                                assert(r@[w] == old_r[w - 1]);
                                assert(seq_has_str(old_r, s));
                                assert(projects_has(acts@.take(k as int), current_only, s));
                            }
                        }
                        if projects_has(acts@.take(k + 1), current_only, s) {
                            let w = choose|w: int|
                                0 <= w < acts@.take(k + 1).len() && counts_for_projects(
                                    #[trigger] acts@.take(k + 1)[w],
                                    current_only,
                                ) && acts@.take(k + 1)[w].project@ == s;
                            if w < k {
                                assert(acts@.take(k as int)[w] == acts@.take(k + 1)[w]);
                                assert(projects_has(acts@.take(k as int), current_only, s));
                                assert(seq_has_str(old_r, s));
                                let v = choose|v: int|
                                    0 <= v < old_r.len() && (#[trigger] old_r[v])@ == s;
                                if v < pi {
                                    assert(r@[v] == old_r[v]);
                                    assert(seq_has_str(r@, s));
                                } else {
                                    assert(r@[v + 1] == old_r[v]);
                                    assert(seq_has_str(r@, s));
                                }
                            } else {
                                assert(acts@.take(k + 1)[w] == acts@[k as int]);
                                assert(s == xs);
                                assert(seq_has_str(r@, s));
                            }
                        }
                    }
                }
            }
        } else {
            proof {
                assert forall|s: Seq<char>|
                    #[trigger] seq_has_str(r@, s) <==> projects_has(
                    acts@.take(k + 1),
                    current_only,
                    s,
                ) by {
                    if projects_has(acts@.take(k + 1), current_only, s) {
                        let w = choose|w: int|
                            0 <= w < acts@.take(k + 1).len() && counts_for_projects(
                                #[trigger] acts@.take(k + 1)[w],
                                current_only,
                            ) && acts@.take(k + 1)[w].project@ == s;
                        if w < k {
                            assert(acts@.take(k as int)[w] == acts@.take(k + 1)[w]);
                            assert(projects_has(acts@.take(k as int), current_only, s));
                        } else {
                            assert(acts@.take(k + 1)[w] == acts@[k as int]);
                            assert(!counts_for_projects(acts@[k as int], current_only));
                            assert(false);
                        }
                    }
                }
            }
        }
        k = k + 1;
    }
    proof {
        assert(acts@.take(acts@.len() as int) =~= acts@);
    }
    r
}

/// The `(description, project)` pairs of the activities, in their order.
pub open spec fn pairs_of(acts: Seq<Activity>) -> Seq<(String, String)> {
    acts.map_values(|a: Activity| (a.description, a.project))
}

pub fn descriptions_and_projects(acts: &Vec<Activity>) -> (r: Vec<(String, String)>)
    ensures
        r@ == pairs_of(acts@),
{
    let mut r: Vec<(String, String)> = Vec::new();
    let mut i: usize = 0;
    while i < acts.len()
        invariant
            i <= acts@.len(),
            r@ == pairs_of(acts@.take(i as int)),
        decreases acts@.len() - i,
    {
        r.push((acts[i].description.clone(), acts[i].project.clone()));
        proof {
            assert(pairs_of(acts@.take(i + 1)) =~= pairs_of(acts@.take(i as int)).push(
                (acts@[i as int].description, acts@[i as int].project),
            ));
        }
        i = i + 1;
    }
    proof {
        assert(acts@.take(acts@.len() as int) =~= acts@);
    }
    r
}

/// The activities whose start falls on the given date, in their given order.
pub open spec fn on_date(acts: Seq<Activity>, d: Date) -> Seq<Activity> {
    acts.filter(|a: Activity| a.start.date == d)
}

pub fn activities_on_date(acts: &Vec<Activity>, d: Date) -> (r: Vec<Activity>)
    ensures
        r@ == on_date(acts@, d),
{
    let ghost pred = |a: Activity| a.start.date == d;
    let mut r: Vec<Activity> = Vec::new();
    let mut i: usize = 0;
    proof {
        reveal(Seq::filter);
        assert(acts@.take(0) =~= Seq::<Activity>::empty());
    }
    while i < acts.len()
        invariant
            i <= acts@.len(),
            r@ == acts@.take(i as int).filter(pred),
            pred == (|a: Activity| a.start.date == d),
        decreases acts@.len() - i,
    {
        proof {
            reveal(Seq::filter);
            assert(acts@.take(i + 1).drop_last() =~= acts@.take(i as int));
            assert(acts@.take(i + 1).last() == acts@[i as int]);
        }
        if acts[i].start.date == d {
            r.push(acts[i].clone());
        }
        i = i + 1;
    }
    proof {
        assert(acts@.take(acts@.len() as int) =~= acts@);
    }
    r
}

/// The start dates of the activities, first occurrence of each, in order.
pub open spec fn first_seen_dates(acts: Seq<Activity>) -> Seq<Date>
    decreases acts.len(),
{
    if acts.len() == 0 {
        Seq::empty()
    } else {
        let f = first_seen_dates(acts.drop_last());
        if f.contains(acts.last().start.date) {
            f
        } else {
            f.push(acts.last().start.date)
        }
    }
}

/// Group the activities by the calendar date of their start. Group order is
/// the first-seen order of the dates; each group holds every activity of its
/// date, in the given order.
pub fn grouped_by_date(acts: &Vec<Activity>) -> (r: Vec<(Date, Vec<Activity>)>)
    ensures
        r@.map_values(|g: (Date, Vec<Activity>)| g.0) == first_seen_dates(acts@),
        forall|k: int| 0 <= k < r@.len() ==> (#[trigger] r@[k]).1@ == on_date(acts@, r@[k].0),
{
    let mut dates: Vec<Date> = Vec::new();
    let mut i: usize = 0;
    while i < acts.len()
        invariant
            i <= acts@.len(),
            dates@ == first_seen_dates(acts@.take(i as int)),
        decreases acts@.len() - i,
    {
        let d = acts[i].start.date;
        let mut found = false;
        let mut p: usize = 0;
        while p < dates.len()
            invariant
                p <= dates@.len(),
                found == exists|q: int| 0 <= q < p && #[trigger] dates@[q] == d,
            decreases dates@.len() - p,
        {
            if dates[p] == d {
                found = true;
            }
            p = p + 1;
        }
        proof {
            assert(acts@.take(i + 1).drop_last() =~= acts@.take(i as int));
            assert(acts@.take(i + 1).last() == acts@[i as int]);
            if found {
                assert(dates@.contains(d));
            } else {
                if dates@.contains(d) {
                    let q = choose|q: int| 0 <= q < dates@.len() && dates@[q] == d;
                    assert(false);
                }
            }
        }
        if !found {
            dates.push(d);
        }
        i = i + 1;
    }
    proof {
        assert(acts@.take(acts@.len() as int) =~= acts@);
    }
    let mut r: Vec<(Date, Vec<Activity>)> = Vec::new();
    let mut k: usize = 0;
    while k < dates.len()
        invariant
            k <= dates@.len(),
            r@.len() == k,
            forall|j: int| 0 <= j < k ==> (#[trigger] r@[j]).0 == dates@[j],
            forall|j: int| 0 <= j < k ==> (#[trigger] r@[j]).1@ == on_date(acts@, dates@[j]),
        decreases dates@.len() - k,
    {
        let d = dates[k];
        let group = activities_on_date(acts, d);
        r.push((d, group));
        k = k + 1;
    }
    proof {
        assert(r@.map_values(|g: (Date, Vec<Activity>)| g.0) =~= dates@);
    }
    r
}

} // verus!
