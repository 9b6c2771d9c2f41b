//! Rebuilding the cycle list from the daily observations.
//!
//! The cycles are a function of the observations and of today's date alone:
//! the days with flow are put in ascending order, days that lie at most
//! [`MAX_GAP_DAYS`] apart are merged into runs, and each run becomes a cycle.
//! The last run stays open while today lies within that distance of its last
//! day, before it or after it.

use vstd::prelude::*;
use crate::calendar::Date;
use crate::models::{AppData, Cycle, DayLog, FlowLevel};

verus! {

/// Two flow days at most this many days apart belong to one cycle.
pub const MAX_GAP_DAYS: i64 = 2;

/// Whether each date comes strictly before the next.
pub open spec fn strictly_increasing(days: Seq<Date>) -> bool {
    forall|i: int, j: int| 0 <= i < j < days.len() ==> days[i].days < days[j].days
}

/// Whether some observation records flow on `day`.
pub open spec fn is_flow_day(logs: Seq<DayLog>, day: Date) -> bool {
    exists|i: int|
        0 <= i < logs.len() && (#[trigger] logs[i]).flow_level != FlowLevel::NoFlow && logs[i].date
            == day
}

/// An ascending list of dates with `day` put in its place, unless it is there
/// already.
pub open spec fn insert_day(days: Seq<Date>, day: Date) -> Seq<Date>
    decreases days.len(),
{
    if days.len() == 0 {
        seq![day]
    } else if days.last().days < day.days {
        days.push(day)
    } else if days.last().days == day.days {
        days
    } else {
        insert_day(days.drop_last(), day).push(days.last())
    }
}

/// The days with flow, each once, in ascending order.
pub open spec fn sorted_flow_days(logs: Seq<DayLog>) -> Seq<Date>
    decreases logs.len(),
{
    if logs.len() == 0 {
        Seq::empty()
    } else {
        let earlier = sorted_flow_days(logs.drop_last());
        if logs.last().flow_level != FlowLevel::NoFlow {
            insert_day(earlier, logs.last().date)
        } else {
            earlier
        }
    }
}

/// The runs of an ascending list of days, each as its first and last day. A
/// day joins the run before it when it lies at most [`MAX_GAP_DAYS`] after
/// that run's last day, and opens a new run otherwise.
pub open spec fn runs_of(days: Seq<Date>) -> Seq<(Date, Date)>
    decreases days.len(),
{
    if days.len() == 0 {
        Seq::empty()
    } else {
        let earlier = runs_of(days.drop_last());
        let day = days.last();
        if earlier.len() > 0 && day.days - earlier.last().1.days <= MAX_GAP_DAYS {
            earlier.drop_last().push((earlier.last().0, day))
        } else {
            earlier.push((day, day))
        }
    }
}

/// Whether `today` lies at most [`MAX_GAP_DAYS`] from `last`, before it or
/// after it.
pub open spec fn is_near(today: Date, last: Date) -> bool {
    -MAX_GAP_DAYS <= today.days - last.days <= MAX_GAP_DAYS
}

/// The cycles for a list of runs: every run is closed at its last day, but the
/// last run stays open while `today` is near its last day.
pub open spec fn spans_of_runs(runs: Seq<(Date, Date)>, today: Date) -> Seq<(Date, Option<Date>)> {
    Seq::new(
        runs.len(),
        |k: int|
            (
                runs[k].0,
                if k == runs.len() - 1 && is_near(today, runs[k].1) {
                    None
                } else {
                    Some(runs[k].1)
                },
            ),
    )
}

/// Start and end of each cycle that the observations give on the day `today`.
pub open spec fn rebuilt_spans(logs: Seq<DayLog>, today: Date) -> Seq<(Date, Option<Date>)> {
    spans_of_runs(runs_of(sorted_flow_days(logs)), today)
}

/// Start and end of each cycle of a list.
pub open spec fn spans_of(cycles: Seq<Cycle>) -> Seq<(Date, Option<Date>)> {
    Seq::new(cycles.len(), |k: int| (cycles[k].start_date, cycles[k].end_date))
}

/// The shape every rebuilt cycle list has: no cycle ends before it starts,
/// each cycle but the last is closed, and each ends before the next starts.
/// So the cycles are in ascending order, none overlaps another, and at most
/// the last one is open.
pub open spec fn well_formed_spans(spans: Seq<(Date, Option<Date>)>) -> bool {
    &&& forall|k: int|
        0 <= k < spans.len() ==> ((#[trigger] spans[k]).1 matches Some(end) ==> spans[k].0.days
            <= end.days)
    &&& forall|k: int|
        0 <= k < spans.len() - 1 ==> ((#[trigger] spans[k]).1 matches Some(end) && end.days
            < spans[k + 1].0.days)
}

/// Whether run `k` reaches from `from` or earlier to `to` or later.
pub open spec fn run_covers(runs: Seq<(Date, Date)>, k: int, from: Date, to: Date) -> bool {
    0 <= k < runs.len() && runs[k].0.days <= from.days && to.days <= runs[k].1.days
}

/// Whether run `k` ends on `last` and the next run starts on `next`.
pub open spec fn run_breaks(runs: Seq<(Date, Date)>, k: int, last: Date, next: Date) -> bool {
    0 <= k < runs.len() - 1 && runs[k].1 == last && runs[k + 1].0 == next
}

/// Where `at` is the place behind every day that is not later than `day`,
/// putting `day` into the list puts it there, unless it stands just before.
proof fn lemma_insert_day_at(days: Seq<Date>, day: Date, at: int)
    requires
        0 <= at <= days.len(),
        forall|j: int| at <= j < days.len() ==> days[j].days > day.days,
        at > 0 ==> days[at - 1].days <= day.days,
    ensures
        insert_day(days, day) == if at > 0 && days[at - 1] == day {
            days
        } else {
            days.insert(at, day)
        },
    decreases days.len(),
{
    if days.len() == 0 {
        assert(days.insert(0, day) =~= seq![day]);
    } else if at == days.len() {
        if days.last().days < day.days {
            assert(days.insert(at, day) =~= days.push(day));
        }
    } else {
        let front = days.drop_last();
        lemma_insert_day_at(front, day, at);
        if at > 0 && days[at - 1] == day {
            assert(front.push(days.last()) =~= days);
        } else {
            assert(front.insert(at, day).push(days.last()) =~= days.insert(at, day));
        }
    }
}

/// Putting a day into an ascending list keeps the list ascending and adds
/// that day to it and nothing else.
pub proof fn lemma_insert_day(days: Seq<Date>, day: Date)
    requires
        strictly_increasing(days),
    ensures
        strictly_increasing(insert_day(days, day)),
        forall|d: Date| #[trigger] insert_day(days, day).contains(d) <==> days.contains(d) || d == day,
    decreases days.len(),
{
    let out = insert_day(days, day);
    if days.len() == 0 {
        assert(out[0] == day);
    } else if days.last().days < day.days {
        assert(out[days.len() as int] == day);
        assert forall|d: Date| #[trigger] out.contains(d) implies days.contains(d) || d == day by {
            let i = choose|i: int| 0 <= i < out.len() && out[i] == d;
            if i < days.len() {
                assert(days[i] == d);
            }
        }
        assert forall|d: Date| days.contains(d) || d == day implies #[trigger] out.contains(d) by {
            if days.contains(d) {
                let i = choose|i: int| 0 <= i < days.len() && days[i] == d;
                assert(out[i] == d);
            }
        }
    } else if days.last().days == day.days {
        assert(days[days.len() - 1] == day);
    } else {
        let front = days.drop_last();
        let inner = insert_day(front, day);
        assert(strictly_increasing(front));
        lemma_insert_day(front, day);
        assert forall|i: int| 0 <= i < inner.len() implies inner[i].days < days.last().days by {
            assert(inner.contains(inner[i]));
            if front.contains(inner[i]) {
                let j = choose|j: int| 0 <= j < front.len() && front[j] == inner[i];
                assert(days[j] == inner[i]);
            }
        }
        assert(out[inner.len() as int] == days.last());
        assert forall|d: Date| #[trigger] out.contains(d) implies days.contains(d) || d == day by {
            let i = choose|i: int| 0 <= i < out.len() && out[i] == d;
            if i < inner.len() {
                assert(inner.contains(inner[i]));
                if front.contains(d) {
                    let j = choose|j: int| 0 <= j < front.len() && front[j] == d;
                    assert(days[j] == d);
                }
            } else {
                assert(days[days.len() - 1] == d);
            }
        }
        assert forall|d: Date| days.contains(d) || d == day implies #[trigger] out.contains(d) by {
            if d == days.last() {
                assert(out[inner.len() as int] == d);
            } else {
                if days.contains(d) {
                    let j = choose|j: int| 0 <= j < days.len() && days[j] == d;
                    assert(front[j] == d);
                    assert(front.contains(d));
                }
                assert(inner.contains(d));
                let i = choose|i: int| 0 <= i < inner.len() && inner[i] == d;
                assert(out[i] == d);
            }
        }
    }
}

/// The sorted flow days are in strictly ascending order, and a date is among
/// them exactly if some observation records flow on it.
pub proof fn lemma_sorted_flow_days(logs: Seq<DayLog>)
    ensures
        strictly_increasing(sorted_flow_days(logs)),
        forall|d: Date| #[trigger] sorted_flow_days(logs).contains(d) <==> is_flow_day(logs, d),
    decreases logs.len(),
{
    let out = sorted_flow_days(logs);
    if logs.len() == 0 {
    } else {
        let front = logs.drop_last();
        let earlier = sorted_flow_days(front);
        let last = logs.last();
        lemma_sorted_flow_days(front);
        if last.flow_level != FlowLevel::NoFlow {
            lemma_insert_day(earlier, last.date);
        }
        assert forall|d: Date| #[trigger] out.contains(d) implies is_flow_day(logs, d) by {
            if last.flow_level != FlowLevel::NoFlow && d == last.date {
                assert(logs[logs.len() - 1].date == d);
            } else {
                assert(earlier.contains(d));
                let i = choose|i: int|
                    0 <= i < front.len() && (#[trigger] front[i]).flow_level != FlowLevel::NoFlow
                        && front[i].date == d;
                assert(logs[i] == front[i]);
            }
        }
        assert forall|d: Date| is_flow_day(logs, d) implies #[trigger] out.contains(d) by {
            let i = choose|i: int|
                0 <= i < logs.len() && (#[trigger] logs[i]).flow_level != FlowLevel::NoFlow
                    && logs[i].date == d;
            if i < front.len() {
                assert(front[i] == logs[i]);
                assert(is_flow_day(front, d));
                assert(earlier.contains(d));
            }
        }
    }
}

/// What the runs of an ascending list of days look like.
///
/// There is a run exactly if there is a day. A run does not end before it
/// starts, and it starts and ends on days of the list. More than
/// [`MAX_GAP_DAYS`] days lie between the end of a run and the start of the
/// next. The last run ends on the last day.
pub proof fn lemma_runs_shape(days: Seq<Date>)
    requires
        strictly_increasing(days),
    ensures
        runs_of(days).len() <= days.len(),
        days.len() > 0 ==> runs_of(days).len() > 0 && runs_of(days).last().1 == days.last(),
        forall|k: int|
            0 <= k < runs_of(days).len() ==> {
                &&& (#[trigger] runs_of(days)[k]).0.days <= runs_of(days)[k].1.days
                &&& days.contains(runs_of(days)[k].0)
                &&& days.contains(runs_of(days)[k].1)
            },
        forall|k: int|
            0 <= k < runs_of(days).len() - 1 ==> (#[trigger] runs_of(days)[k + 1]).0.days - runs_of(
                days,
            )[k].1.days > MAX_GAP_DAYS,
    decreases days.len(),
{
    if days.len() > 0 {
        let front = days.drop_last();
        let earlier = runs_of(front);
        let day = days.last();
        let runs = runs_of(days);
        assert(strictly_increasing(front));
        lemma_runs_shape(front);
        assert(days[days.len() - 1] == day);
        assert forall|d: Date| front.contains(d) implies days.contains(d) by {
            let j = choose|j: int| 0 <= j < front.len() && front[j] == d;
            assert(days[j] == d);
        }
        if earlier.len() > 0 {
            assert(front.len() > 0);
            assert(earlier.last().1 == front.last());
            assert(front.last() == days[days.len() - 2]);
        }
        assert forall|k: int| 0 <= k < runs.len() implies {
            &&& (#[trigger] runs[k]).0.days <= runs[k].1.days
            &&& days.contains(runs[k].0)
            &&& days.contains(runs[k].1)
        } by {
            if k < earlier.len() {
                assert(earlier[k].0.days <= earlier[k].1.days);
                assert(front.contains(earlier[k].0));
                assert(front.contains(earlier[k].1));
            }
        }
        assert forall|k: int| 0 <= k < runs.len() - 1 implies (#[trigger] runs[k + 1]).0.days
            - runs[k].1.days > MAX_GAP_DAYS by {
            if k + 1 < earlier.len() {
                assert(earlier[k + 1].0.days - earlier[k].1.days > MAX_GAP_DAYS);
            }
        }
    }
}

/// Where the runs of an ascending list of days join and where they break.
///
/// Two neighbouring days at most [`MAX_GAP_DAYS`] apart lie in one run. Two
/// neighbouring days further apart are the end of one run and the start of
/// the next.
pub proof fn lemma_runs_split_at_long_gaps(days: Seq<Date>, i: int)
    requires
        strictly_increasing(days),
        0 <= i < days.len() - 1,
    ensures
        days[i + 1].days - days[i].days <= MAX_GAP_DAYS ==> exists|k: int|
            #[trigger] run_covers(runs_of(days), k, days[i], days[i + 1]),
        days[i + 1].days - days[i].days > MAX_GAP_DAYS ==> exists|k: int|
            #[trigger] run_breaks(runs_of(days), k, days[i], days[i + 1]),
    decreases days.len(),
{
    let front = days.drop_last();
    let earlier = runs_of(front);
    let runs = runs_of(days);
    let day = days.last();
    assert(strictly_increasing(front));
    lemma_runs_shape(front);
    assert(earlier.last().1 == front.last());
    let merged = day.days - earlier.last().1.days <= MAX_GAP_DAYS;
    if i == days.len() - 2 {
        assert(front.last() == days[i]);
        if merged {
            assert(earlier[earlier.len() - 1].0.days <= earlier[earlier.len() - 1].1.days);
            assert(run_covers(runs, runs.len() - 1, days[i], days[i + 1]));
        } else {
            assert(run_breaks(runs, runs.len() - 2, days[i], days[i + 1]));
        }
    } else {
        lemma_runs_split_at_long_gaps(front, i);
        assert(front[i] == days[i] && front[i + 1] == days[i + 1]);
        if days[i + 1].days - days[i].days <= MAX_GAP_DAYS {
            let k = choose|k: int| #[trigger] run_covers(earlier, k, days[i], days[i + 1]);
            assert(run_covers(runs, k, days[i], days[i + 1]));
        } else {
            let k = choose|k: int| #[trigger] run_breaks(earlier, k, days[i], days[i + 1]);
            assert(run_breaks(runs, k, days[i], days[i + 1]));
        }
    }
}

/// Every day of an ascending list lies in one of its runs.
pub proof fn lemma_runs_cover(days: Seq<Date>, i: int)
    requires
        strictly_increasing(days),
        0 <= i < days.len(),
    ensures
        exists|k: int| #[trigger] run_covers(runs_of(days), k, days[i], days[i]),
    decreases days.len(),
{
    let front = days.drop_last();
    let earlier = runs_of(front);
    let runs = runs_of(days);
    assert(strictly_increasing(front));
    lemma_runs_shape(days);
    if i == days.len() - 1 {
        assert(runs[runs.len() - 1].0.days <= runs[runs.len() - 1].1.days);
        assert(run_covers(runs, runs.len() - 1, days[i], days[i]));
    } else {
        lemma_runs_cover(front, i);
        lemma_runs_shape(front);
        assert(front[i] == days[i]);
        let k = choose|k: int| #[trigger] run_covers(earlier, k, days[i], days[i]);
        assert(earlier.last().1 == front.last());
        assert(run_covers(runs, k, days[i], days[i]));
    }
}

/// Whether cycle `k` of the list holds `day`: it starts on that day or
/// before it and, if it is closed, ends on that day or after it.
pub open spec fn span_holds(spans: Seq<(Date, Option<Date>)>, k: int, day: Date) -> bool {
    &&& 0 <= k < spans.len()
    &&& spans[k].0.days <= day.days
    &&& spans[k].1 matches Some(end) ==> day.days <= end.days
}

/// The rebuilt cycles start and end on days with flow, and every day with
/// flow lies in one of them.
pub proof fn lemma_rebuilt_spans_cover(logs: Seq<DayLog>, today: Date)
    ensures
        forall|k: int|
            0 <= k < rebuilt_spans(logs, today).len() ==> is_flow_day(
                logs,
                (#[trigger] rebuilt_spans(logs, today)[k]).0,
            ) && (rebuilt_spans(logs, today)[k].1 matches Some(end) ==> is_flow_day(logs, end)),
        forall|day: Date|
            is_flow_day(logs, day) ==> exists|k: int| #[trigger]
                span_holds(rebuilt_spans(logs, today), k, day),
{
    let days = sorted_flow_days(logs);
    let runs = runs_of(days);
    let spans = rebuilt_spans(logs, today);
    lemma_sorted_flow_days(logs);
    lemma_runs_shape(days);
    assert forall|k: int| 0 <= k < spans.len() implies is_flow_day(logs, (#[trigger] spans[k]).0)
        && (spans[k].1 matches Some(end) ==> is_flow_day(logs, end)) by {
        assert(days.contains(runs[k].0) && days.contains(runs[k].1));
    }
    assert forall|day: Date| is_flow_day(logs, day) implies exists|k: int| #[trigger]
        span_holds(spans, k, day) by {
        assert(days.contains(day));
        let i = choose|i: int| 0 <= i < days.len() && days[i] == day;
        lemma_runs_cover(days, i);
        let k = choose|k: int| #[trigger] run_covers(runs, k, days[i], days[i]);
        assert(span_holds(spans, k, day));
    }
}

/// The cycle list rebuilt from any observations, on any day, is well formed.
pub proof fn lemma_rebuilt_spans_well_formed(logs: Seq<DayLog>, today: Date)
    ensures
        well_formed_spans(rebuilt_spans(logs, today)),
        rebuilt_spans(logs, today).len() == 0 <==> forall|d: Date| !is_flow_day(logs, d),
{
    let days = sorted_flow_days(logs);
    let runs = runs_of(days);
    let spans = rebuilt_spans(logs, today);
    lemma_sorted_flow_days(logs);
    lemma_runs_shape(days);
    assert forall|k: int| 0 <= k < spans.len() - 1 implies ((#[trigger] spans[k]).1 matches Some(
        end,
    ) && end.days < spans[k + 1].0.days) by {
        assert(runs[k + 1].0.days - runs[k].1.days > MAX_GAP_DAYS);
    }
    assert forall|k: int| 0 <= k < spans.len() implies ((#[trigger] spans[k]).1 matches Some(end)
        ==> spans[k].0.days <= end.days) by {
        assert(runs[k].0.days <= runs[k].1.days);
    }
    if days.len() > 0 {
        assert(days.contains(days[0]));
        assert(is_flow_day(logs, days[0]));
    } else {
        assert forall|d: Date| !is_flow_day(logs, d) by {
            assert(!days.contains(d));
        }
    }
}

/// Whether cycle `k` of the list ends on `last` and the next starts on
/// `next`.
pub open spec fn span_breaks(spans: Seq<(Date, Option<Date>)>, k: int, last: Date, next: Date) -> bool {
    0 <= k < spans.len() - 1 && spans[k].1 == Some(last) && spans[k + 1].0 == next
}

/// Two days with flow and none between them belong to one cycle if they
/// lie at most [`MAX_GAP_DAYS`] apart; if they lie further apart, the first
/// ends a cycle and the second starts the next.
pub proof fn lemma_cycle_merge(logs: Seq<DayLog>, today: Date, first: Date, second: Date)
    requires
        is_flow_day(logs, first),
        is_flow_day(logs, second),
        first.days < second.days,
        forall|between: Date|
            first.days < between.days < second.days ==> !is_flow_day(logs, between),
    ensures
        second.days - first.days <= MAX_GAP_DAYS ==> exists|k: int|
            span_holds(rebuilt_spans(logs, today), k, first) && #[trigger] span_holds(
                rebuilt_spans(logs, today),
                k,
                second,
            ),
        second.days - first.days > MAX_GAP_DAYS ==> exists|k: int| #[trigger]
            span_breaks(rebuilt_spans(logs, today), k, first, second),
{
    let days = sorted_flow_days(logs);
    let runs = runs_of(days);
    let spans = rebuilt_spans(logs, today);
    lemma_sorted_flow_days(logs);
    assert(days.contains(first) && days.contains(second));
    let i = choose|i: int| 0 <= i < days.len() && days[i] == first;
    let j = choose|j: int| 0 <= j < days.len() && days[j] == second;
    if j <= i {
        if j < i {
            assert(days[j].days < days[i].days);
        }
    }
    if j > i + 1 {
        assert(days[i].days < days[i + 1].days < days[j].days);
        assert(days.contains(days[i + 1]));
        assert(is_flow_day(logs, days[i + 1]));
    }
    assert(j == i + 1);
    lemma_runs_split_at_long_gaps(days, i);
    if second.days - first.days <= MAX_GAP_DAYS {
        let k = choose|k: int| #[trigger] run_covers(runs, k, days[i], days[i + 1]);
        assert(span_holds(spans, k, first) && span_holds(spans, k, second));
    } else {
        let k = choose|k: int| #[trigger] run_breaks(runs, k, days[i], days[i + 1]);
        assert(span_breaks(spans, k, first, second));
    }
}

/// Puts `day` into an ascending list, unless it is there already.
fn insert_flow_day(days: &mut Vec<Date>, day: Date)
    ensures
        final(days)@ == insert_day(old(days)@, day),
{
    let mut at: usize = days.len();
    while at > 0 && days[at - 1].days > day.days
        invariant
            at <= days.len(),
            days@ == old(days)@,
            forall|j: int| at <= j < days.len() ==> days[j].days > day.days,
        decreases at,
    {
        at -= 1;
    }
    proof {
        lemma_insert_day_at(days@, day, at as int);
    }
    if at > 0 && days[at - 1].days == day.days {
    } else {
        days.insert(at, day);
    }
}

/// The days on which the observations record flow, each once, in ascending
/// order.
pub fn flow_days(logs: &Vec<DayLog>) -> (days: Vec<Date>)
    ensures
        days@ == sorted_flow_days(logs@),
{
    let mut days: Vec<Date> = Vec::new();
    let mut i: usize = 0;
    while i < logs.len()
        invariant
            i <= logs.len(),
            days@ == sorted_flow_days(logs@.take(i as int)),
        decreases logs.len() - i,
    {
        proof {
            assert(logs@.take(i + 1).drop_last() =~= logs@.take(i as int));
            assert(logs@.take(i + 1).last() == logs@[i as int]);
        }
        if logs[i].flow_level != FlowLevel::NoFlow {
            insert_flow_day(&mut days, logs[i].date);
        }
        i += 1;
    }
    proof {
        assert(logs@.take(logs.len() as int) =~= logs@);
    }
    days
}

/// The cycles that the observations give on the day `today`, each with a
/// fresh identifier.
pub fn cycles_from_logs(logs: &Vec<DayLog>, today: Date) -> (cycles: Vec<Cycle>)
    ensures
        spans_of(cycles@) == rebuilt_spans(logs@, today),
        well_formed_spans(spans_of(cycles@)),
{
    let days = flow_days(logs);
    let mut cycles: Vec<Cycle> = Vec::new();
    proof {
        lemma_rebuilt_spans_well_formed(logs@, today);
    }
    if days.len() == 0 {
        assert(spans_of(cycles@) =~= rebuilt_spans(logs@, today));
        return cycles;
    }
    let mut start = days[0];
    let mut end = days[0];
    let mut i: usize = 1;
    proof {
        let first = days@.take(1);
        assert(first.drop_last() =~= Seq::<Date>::empty());
        assert(runs_of(first.drop_last()).len() == 0);
        assert(first.last() == start);
        assert(runs_of(first) =~= seq![(start, end)]);
    }
    while i < days.len()
        invariant
            1 <= i <= days.len(),
            runs_of(days@.take(i as int)).len() == cycles.len() + 1,
            runs_of(days@.take(i as int)).last() == (start, end),
            forall|k: int|
                0 <= k < cycles.len() ==> (#[trigger] cycles[k]).start_date == runs_of(
                    days@.take(i as int),
                )[k].0 && cycles[k].end_date == Some(runs_of(days@.take(i as int))[k].1),
        decreases days.len() - i,
    {
        let day = days[i];
        proof {
            assert(days@.take(i + 1).drop_last() =~= days@.take(i as int));
            assert(days@.take(i + 1).last() == day);
        }
        if day.days_since(end) <= MAX_GAP_DAYS {
            end = day;
        } else {
            cycles.push(Cycle { id: uuid::Uuid::new_v4(), start_date: start, end_date: Some(end) });
            start = day;
            end = day;
        }
        i += 1;
    }
    let distance = today.days_since(end);
    let last_end = if -MAX_GAP_DAYS <= distance && distance <= MAX_GAP_DAYS {
        None
    } else {
        Some(end)
    };
    cycles.push(Cycle { id: uuid::Uuid::new_v4(), start_date: start, end_date: last_end });
    proof {
        assert(days@.take(days.len() as int) =~= days@);
        assert(spans_of(cycles@) =~= rebuilt_spans(logs@, today));
    }
    cycles
}

/// Replaces the cycle list by the one that the observations give on the day
/// `today`. Nothing else changes.
pub fn rebuild_cycles_on(data: &mut AppData, today: Date)
    ensures
        spans_of(final(data).cycles@) == rebuilt_spans(old(data).day_logs@, today),
        well_formed_spans(spans_of(final(data).cycles@)),
        final(data).day_logs == old(data).day_logs,
        final(data).symptoms == old(data).symptoms,
        final(data).settings == old(data).settings,
{
    let cycles = cycles_from_logs(&data.day_logs, today);
    data.cycles = cycles;
}

/// Replaces the cycle list by the one that the observations give today.
/// Which day today is comes from the clock, so the contract holds for some
/// day.
pub fn rebuild_cycles(data: &mut AppData)
    ensures
        exists|today: Date|
            spans_of(final(data).cycles@) == #[trigger] rebuilt_spans(old(data).day_logs@, today),
        well_formed_spans(spans_of(final(data).cycles@)),
        final(data).day_logs == old(data).day_logs,
        final(data).symptoms == old(data).symptoms,
        final(data).settings == old(data).settings,
{
    let today = Date::today();
    rebuild_cycles_on(data, today);
}

} // verus!
