use vstd::prelude::*;

use crate::activity::{activities_of, materialize, Activity};
use crate::getter::{
    descriptions_and_projects, distinct_projects, filter_activities, matches_filter, pairs_of,
    projects_has, running_activities, seq_has_str, sort_activities_by_start, sort_by_start,
    sorted_by_start, spec_running, ActivityFilter,
};
use crate::line::LogLine;
use crate::textutil::lex_lt;
use crate::timestamp::ts_le;

verus! {

/// How many lines of the log could not be parsed.
pub open spec fn error_count(lines: Seq<LogLine>) -> int
    decreases lines.len(),
{
    if lines.len() == 0 {
        0
    } else {
        error_count(lines.drop_last()) + if lines.last().parsed is Err {
            1int
        } else {
            0int
        }
    }
}

/// Count the lines with parsing errors; reporting them is left to the caller.
pub fn check(lines: &Vec<LogLine>) -> (r: usize)
    ensures
        r as int == error_count(lines@),
{
    let mut count: usize = 0;
    let mut i: usize = 0;
    proof {
        assert(lines@.take(0) =~= Seq::<LogLine>::empty());
    }
    while i < lines.len()
        invariant
            i <= lines@.len(),
            count <= i,
            count as int == error_count(lines@.take(i as int)),
        decreases lines@.len() - i,
    {
        proof {
            assert(lines@.take(i + 1).drop_last() =~= lines@.take(i as int));
            assert(lines@.take(i + 1).last() == lines@[i as int]);
        }
        if lines[i].parsed.is_err() {
            count = count + 1;
        }
        i = i + 1;
    }
    proof {
        assert(lines@.take(lines@.len() as int) =~= lines@);
    }
    count
}

/// All currently running activities of the log, in file order.
pub fn list_running(lines: &Vec<LogLine>) -> (r: Vec<Activity>)
    ensures
        r@ == spec_running(activities_of(lines@)),
{
    let acts = materialize(lines);
    running_activities(&acts)
}

/// How many of the sorted activities the result keeps: all of them, or the
/// requested count when that is smaller.
pub open spec fn spec_keep_count(n_opt: Option<usize>, m: int) -> int {
    match n_opt {
        Some(n) => if n <= m {
            n as int
        } else {
            m
        },
        None => m,
    }
}

/// The tracked activities a listing shows: the matching ones, sorted
/// chronologically, truncated to the most recent `number_of_activities`.
pub open spec fn spec_list(acts: Seq<Activity>, f: ActivityFilter) -> Seq<Activity> {
    let sorted = sort_by_start(acts.filter(|a: Activity| matches_filter(a, f)));
    let keep = spec_keep_count(f.number_of_activities, sorted.len() as int);
    sorted.subrange(sorted.len() - keep, sorted.len() as int)
}

/// List the activities that match the filter, ordered chronologically by
/// start (ties keep file order), keeping only the most recent
/// `number_of_activities` when that cap is present. A cap larger than the
/// match count yields the whole match, never an error.
pub fn list(lines: &Vec<LogLine>, filter: &ActivityFilter) -> (r: Vec<Activity>)
    ensures
        r@ == spec_list(activities_of(lines@), *filter),
        sorted_by_start(r@),
        r@.len() == spec_keep_count(
            filter.number_of_activities,
            activities_of(lines@).filter(|a: Activity| matches_filter(a, *filter)).len() as int,
        ),
{
    let acts = materialize(lines);
    let filtered = filter_activities(&acts, filter);
    let sorted = sort_activities_by_start(&filtered);
    let keep: usize = match filter.number_of_activities {
        Some(n) => if n <= sorted.len() {
            n
        } else {
            sorted.len()
        },
        None => sorted.len(),
    };
    let first = sorted.len() - keep;
    let mut r: Vec<Activity> = Vec::new();
    let mut j: usize = first;
    proof {
        assert(sorted@.subrange(first as int, first as int) =~= Seq::<Activity>::empty());
    }
    while j < sorted.len()
        invariant
            first <= j <= sorted@.len(),
            r@ == sorted@.subrange(first as int, j as int),
            sorted_by_start(sorted@),
        decreases sorted@.len() - j,
    {
        r.push(sorted[j].clone());
        proof {
            assert(sorted@.subrange(first as int, j + 1) =~= sorted@.subrange(
                first as int,
                j as int,
            ).push(sorted@[j as int]));
        }
        j = j + 1;
    }
    proof {
        assert forall|a: int, b: int| 0 <= a < b < r@.len() implies ts_le(
            #[trigger] r@[a].start,
            #[trigger] r@[b].start,
        ) by {
            assert(r@[a] == sorted@[first + a]);
            assert(r@[b] == sorted@[first + b]);
        }
    }
    r
}

/// The distinct project names of the log, lexicographically ordered. With
/// `current`, projects that appear only in already-stopped activities are
/// excluded.
pub fn list_projects(lines: &Vec<LogLine>, current: bool) -> (r: Vec<String>)
    ensures
        forall|i: int, j: int| 0 <= i < j < r@.len() ==> lex_lt((#[trigger] r@[i])@, (#[trigger] r@[j])@),
        forall|s: Seq<char>|
            #[trigger] seq_has_str(r@, s) <==> projects_has(activities_of(lines@), current, s),
{
    let acts = materialize(lines);
    distinct_projects(&acts, current)
}

/// The `(description, project)` pairs of the last `number` activities, in
/// file order; fewer when the log holds fewer.
pub fn list_last_activities(lines: &Vec<LogLine>, number: usize) -> (r: Vec<(String, String)>)
    ensures
        ({
            let pairs = pairs_of(activities_of(lines@));
            let keep = spec_keep_count(Some(number), pairs.len() as int);
            r@ == pairs.subrange(pairs.len() - keep, pairs.len() as int)
        }),
{
    let acts = materialize(lines);
    let pairs = descriptions_and_projects(&acts);
    let keep: usize = if number <= pairs.len() {
        number
    } else {
        pairs.len()
    };
    let first = pairs.len() - keep;
    let mut r: Vec<(String, String)> = Vec::new();
    let mut j: usize = first;
    proof {
        assert(pairs@.subrange(first as int, first as int) =~= Seq::<(String, String)>::empty());
    }
    while j < pairs.len()
        invariant
            first <= j <= pairs@.len(),
            r@ == pairs@.subrange(first as int, j as int),
        decreases pairs@.len() - j,
    {
        let d = pairs[j].0.clone();
        let p = pairs[j].1.clone();
        r.push((d, p));
        proof {
            assert(pairs@.subrange(first as int, j + 1) =~= pairs@.subrange(
                first as int,
                j as int,
            ).push(pairs@[j as int]));
        }
        j = j + 1;
    }
    r
}

} // verus!
