//! Forecasts and statistics over the cycle list.
//!
//! Both look only at completed cycles, ordered by start date. The forecast
//! uses the [`RECENT_CYCLES`] cycles that started last; the statistics use
//! all of them. Means are kept exact, as a total and a count, and days are
//! rounded half away from zero.

use vstd::prelude::*;
use crate::calendar::Date;
use crate::models::{
    Confidence,
    Cycle,
    CycleStats,
    FertilityWindow,
    Mean,
    Prediction,
    Spread,
};

verus! {

/// The forecast looks at this many completed cycles at most.
pub const RECENT_CYCLES: usize = 6;

/// The period length, in days, that is assumed where none was recorded.
pub const DEFAULT_PERIOD_DAYS: i64 = 5;

/// Ovulation is taken to lie this many days before the next cycle starts.
pub const OVULATION_OFFSET_DAYS: i64 = 14;

/// The fertile window opens this many days before ovulation.
pub const FERTILE_LEAD_DAYS: i64 = 5;

/// Peak fertility starts this many days before ovulation.
pub const PEAK_LEAD_DAYS: i64 = 2;

/// The confidence, in thousandths, of a forecast from a single cycle
/// length.
pub const FLAT_CONFIDENCE: u16 = 500;

/// The lowest confidence, in thousandths.
pub const MIN_CONFIDENCE: u16 = 100;

/// The highest confidence, in thousandths.
pub const MAX_CONFIDENCE: u16 = 950;

/// Every difference of two dates, in days, is below this.
pub const GAP_LIMIT: i64 = 0x1_0000_0000;

/// A list of cycles ordered by start date with `cycle` put behind every
/// cycle that does not start later.
pub open spec fn insert_by_start(sorted: Seq<Cycle>, cycle: Cycle) -> Seq<Cycle>
    decreases sorted.len(),
{
    if sorted.len() == 0 || sorted.last().start_date.days <= cycle.start_date.days {
        sorted.push(cycle)
    } else {
        insert_by_start(sorted.drop_last(), cycle).push(sorted.last())
    }
}

/// The completed cycles of a list, ordered by start date. Cycles that start
/// on the same day keep the order they had in the list.
pub open spec fn completed_by_start(cycles: Seq<Cycle>) -> Seq<Cycle>
    decreases cycles.len(),
{
    if cycles.len() == 0 {
        Seq::empty()
    } else {
        let earlier = completed_by_start(cycles.drop_last());
        if cycles.last().end_date is Some {
            insert_by_start(earlier, cycles.last())
        } else {
            earlier
        }
    }
}

/// How many cycles of a list are completed.
pub open spec fn completed_count(cycles: Seq<Cycle>) -> nat
    decreases cycles.len(),
{
    if cycles.len() == 0 {
        0
    } else if cycles.last().end_date is Some {
        completed_count(cycles.drop_last()) + 1
    } else {
        completed_count(cycles.drop_last())
    }
}

/// Whether no cycle of the list starts before the one in front of it.
pub open spec fn ordered_by_start(cycles: Seq<Cycle>) -> bool {
    forall|i: int, j: int|
        0 <= i <= j < cycles.len() ==> cycles[i].start_date.days <= cycles[j].start_date.days
}

/// The last [`RECENT_CYCLES`] cycles of a list, or all if there are fewer,
/// last first.
pub open spec fn most_recent(sorted: Seq<Cycle>) -> Seq<Cycle> {
    Seq::new(
        if sorted.len() < RECENT_CYCLES {
            sorted.len()
        } else {
            RECENT_CYCLES as nat
        },
        |i: int| sorted[sorted.len() - 1 - i],
    )
}

/// Days between the starts of two cycles, whichever starts first.
pub open spec fn start_distance(a: Cycle, b: Cycle) -> int {
    if a.start_date.days >= b.start_date.days {
        a.start_date.days - b.start_date.days
    } else {
        b.start_date.days - a.start_date.days
    }
}

/// The distance between the starts of each cycle and the next in the list.
pub open spec fn cycle_lengths(cycles: Seq<Cycle>) -> Seq<i64> {
    Seq::new(
        if cycles.len() == 0 {
            0
        } else {
            (cycles.len() - 1) as nat
        },
        |i: int| start_distance(cycles[i], cycles[i + 1]) as i64,
    )
}

/// Days from the start of each cycle to the start of the next in the list;
/// negative where the next starts earlier.
pub open spec fn start_gaps(cycles: Seq<Cycle>) -> Seq<i64> {
    Seq::new(
        if cycles.len() == 0 {
            0
        } else {
            (cycles.len() - 1) as nat
        },
        |i: int| (cycles[i + 1].start_date.days - cycles[i].start_date.days) as i64,
    )
}

/// The period lengths of the completed cycles of a list: for each, the days
/// from its start to its end, both counted.
pub open spec fn period_lengths(cycles: Seq<Cycle>) -> Seq<i64>
    decreases cycles.len(),
{
    if cycles.len() == 0 {
        Seq::empty()
    } else {
        let earlier = period_lengths(cycles.drop_last());
        match cycles.last().end_date {
            Some(end) => earlier.push((end.days - cycles.last().start_date.days + 1) as i64),
            None => earlier,
        }
    }
}

/// The sum of a list of numbers.
pub open spec fn total(values: Seq<i64>) -> int
    decreases values.len(),
{
    if values.len() == 0 {
        0
    } else {
        total(values.drop_last()) + values.last()
    }
}

/// The sum of the squares of a list of numbers.
pub open spec fn square_total(values: Seq<i64>) -> int
    decreases values.len(),
{
    if values.len() == 0 {
        0
    } else {
        square_total(values.drop_last()) + values.last() * values.last()
    }
}

/// The mean of a list of numbers, or `None` for the empty list.
pub open spec fn mean_of(values: Seq<i64>) -> Option<Mean> {
    if values.len() == 0 {
        None
    } else {
        Some(Mean { total: total(values) as i128, count: values.len() as usize })
    }
}

/// The quotient `numerator / denominator` rounded to the nearest whole
/// number, halves away from zero. The denominator is positive.
pub open spec fn round_half_away(numerator: int, denominator: int) -> int {
    if numerator >= 0 {
        (2 * numerator + denominator) / (2 * denominator)
    } else {
        -((2 * (-numerator) + denominator) / (2 * denominator))
    }
}

/// Whether the sample standard deviation of `lengths` is at most
/// `(1000 - level) / 1000` of their mean: whether one minus their quotient
/// is at least `level` thousandths.
///
/// With `n` samples of sum `s` and squares' sum `q`, the sample variance is
/// `(n * q - s * s) / (n * (n - 1))` and the squared mean is `s * s / (n * n)`,
/// so the test is on whole numbers.
pub open spec fn spread_within(lengths: Seq<i64>, level: int) -> bool {
    let n = lengths.len() as int;
    let sum = total(lengths);
    let sum_squared = sum * sum;
    let deviation = n * square_total(lengths) - sum_squared;
    let slack = (1000 - level) * (1000 - level);
    deviation * n * 1_000_000 <= slack * (n - 1) * sum_squared
}

/// Whether the sample standard deviation of `lengths` is at least
/// `(1000 - level) / 1000` of their mean: whether one minus their quotient
/// is at most `level` thousandths.
pub open spec fn spread_beyond(lengths: Seq<i64>, level: int) -> bool {
    let n = lengths.len() as int;
    let sum = total(lengths);
    let sum_squared = sum * sum;
    let deviation = n * square_total(lengths) - sum_squared;
    let slack = (1000 - level) * (1000 - level);
    deviation * n * 1_000_000 >= slack * (n - 1) * sum_squared
}

/// How many `lengths` there are, their sum, and the sum of their squares.
pub open spec fn spread_of(lengths: Seq<i64>) -> Spread {
    Spread {
        count: lengths.len() as usize,
        total: total(lengths) as i128,
        squares: square_total(lengths) as i128,
    }
}

/// The confidence of a forecast from `lengths`: one minus the quotient of
/// their sample standard deviation and their mean, kept between
/// [`MIN_CONFIDENCE`] and [`MAX_CONFIDENCE`] thousandths; with fewer than two
/// lengths, [`FLAT_CONFIDENCE`] thousandths.
///
/// Where that number reaches the highest value the confidence is
/// [`Confidence::Highest`], where it does not exceed the lowest it is
/// [`Confidence::Lowest`], and between the two it is given by the spread of
/// the lengths. Lengths that are all zero have no spread, and their
/// confidence is the highest.
pub open spec fn confidence_of(lengths: Seq<i64>) -> Confidence {
    if lengths.len() < 2 {
        Confidence::Flat
    } else if spread_within(lengths, MAX_CONFIDENCE as int) {
        Confidence::Highest
    } else if spread_beyond(lengths, MIN_CONFIDENCE as int) {
        Confidence::Lowest
    } else {
        Confidence::Measured(spread_of(lengths))
    }
}

/// The mean period length over `lengths`, or [`DEFAULT_PERIOD_DAYS`] where
/// there is none.
pub open spec fn mean_period(lengths: Seq<i64>) -> Mean {
    match mean_of(lengths) {
        Some(mean) => mean,
        None => Mean { total: DEFAULT_PERIOD_DAYS as i128, count: 1 },
    }
}

/// What the forecast is computed from.
pub struct PredictionInternals {
    pub avg_cycle: Mean,
    pub avg_period: Mean,
    pub cycle_lengths: Vec<i64>,
    pub last_start: Date,
}

/// The day number on which the next cycle is expected to start.
pub open spec fn forecast_start(last_start: Date, avg_cycle: Mean) -> int {
    last_start.days + avg_cycle.rounded()
}

/// The day number on which the next cycle is expected to end: its start and
/// the rounded mean period less one day, but not before its start.
pub open spec fn forecast_end(last_start: Date, avg_cycle: Mean, avg_period: Mean) -> int {
    let days = avg_period.rounded() - 1;
    forecast_start(last_start, avg_cycle) + if days > 0 {
        days
    } else {
        0
    }
}

/// The forecast from a cycle list: none with fewer than two completed
/// cycles, and none where a forecast day has no day number.
pub open spec fn prediction_of(cycles: Seq<Cycle>) -> Option<Prediction> {
    let sorted = completed_by_start(cycles);
    if sorted.len() < 2 {
        None
    } else {
        let recent = most_recent(sorted);
        let avg_cycle = mean_of(cycle_lengths(recent))->0;
        let avg_period = mean_period(period_lengths(recent));
        let start = forecast_start(sorted.last().start_date, avg_cycle);
        let end = forecast_end(sorted.last().start_date, avg_cycle, avg_period);
        if start <= i32::MAX && end <= i32::MAX {
            Some(
                Prediction {
                    predicted_start: Date { days: start as i32 },
                    predicted_end: Date { days: end as i32 },
                    confidence: confidence_of(cycle_lengths(recent)),
                },
            )
        } else {
            None
        }
    }
}

/// The fertility window from a cycle list: none without a forecast, and none
/// where one of its days has no day number.
pub open spec fn fertility_of(cycles: Seq<Cycle>) -> Option<FertilityWindow> {
    match prediction_of(cycles) {
        None => None,
        Some(prediction) => {
            let ovulation = prediction.predicted_start.days - OVULATION_OFFSET_DAYS;
            if ovulation - FERTILE_LEAD_DAYS >= i32::MIN {
                Some(
                    FertilityWindow {
                        fertile_start: Date { days: (ovulation - FERTILE_LEAD_DAYS) as i32 },
                        fertile_end: Date { days: ovulation as i32 },
                        ovulation_day: Date { days: ovulation as i32 },
                        peak_start: Date { days: (ovulation - PEAK_LEAD_DAYS) as i32 },
                        peak_end: Date { days: ovulation as i32 },
                    },
                )
            } else {
                None
            }
        },
    }
}

impl Confidence {
    /// The confidence in thousandths, where it is one of the three fixed
    /// values; a measured confidence has to be worked out from its spread.
    pub fn fixed(&self) -> (level: Option<u16>)
        ensures
            level == match *self {
                Confidence::Flat => Some(FLAT_CONFIDENCE),
                Confidence::Lowest => Some(MIN_CONFIDENCE),
                Confidence::Highest => Some(MAX_CONFIDENCE),
                Confidence::Measured(_) => None,
            },
    {
        match self {
            Confidence::Flat => Some(FLAT_CONFIDENCE),
            Confidence::Lowest => Some(MIN_CONFIDENCE),
            Confidence::Highest => Some(MAX_CONFIDENCE),
            Confidence::Measured(_) => None,
        }
    }
}

impl Mean {
    /// The mean rounded to the nearest whole number, halves away from zero.
    pub open spec fn rounded(self) -> int {
        round_half_away(self.total as int, self.count as int)
    }

    /// The mean rounded to the nearest whole number, halves away from zero.
    pub fn round(&self) -> (nearest: i128)
        requires
            self.count > 0,
            -0x100_0000_0000_0000_0000_0000_0000_0000 <= self.total
                <= 0x100_0000_0000_0000_0000_0000_0000_0000,
        ensures
            nearest == self.rounded(),
            self.total >= 0 ==> 0 <= nearest <= self.total,
            self.total <= 0 ==> self.total <= nearest <= 0,
    {
        let count = self.count as i128;
        if self.total >= 0 {
            let nearest = (2 * self.total + count) / (2 * count);
            assert(nearest <= self.total) by (nonlinear_arith)
                requires
                    nearest == (2 * self.total + count) / (2 * count),
                    count >= 1,
                    self.total >= 0,
            ;
            nearest
        } else {
            let nearest = (2 * (-self.total) + count) / (2 * count);
            assert(nearest <= -self.total) by (nonlinear_arith)
                requires
                    nearest == (2 * (-self.total) + count) / (2 * count),
                    count >= 1,
                    self.total < 0,
            ;
            -nearest
        }
    }
}


/// Where `at` is the place behind every cycle that does not start later
/// than `cycle`, putting `cycle` into the list puts it there.
proof fn lemma_insert_by_start_at(sorted: Seq<Cycle>, cycle: Cycle, at: int)
    requires
        0 <= at <= sorted.len(),
        forall|j: int| at <= j < sorted.len() ==> sorted[j].start_date.days > cycle.start_date.days,
        at > 0 ==> sorted[at - 1].start_date.days <= cycle.start_date.days,
    ensures
        insert_by_start(sorted, cycle) == sorted.insert(at, cycle),
    decreases sorted.len(),
{
    if sorted.len() == 0 || at == sorted.len() {
        assert(sorted.insert(at, cycle) =~= sorted.push(cycle));
    } else {
        let front = sorted.drop_last();
        lemma_insert_by_start_at(front, cycle, at);
        assert(front.insert(at, cycle).push(sorted.last()) =~= sorted.insert(at, cycle));
    }
}

/// Putting a completed cycle into a list ordered by start date keeps the
/// order, makes the list one longer, and adds that cycle and nothing else.
pub proof fn lemma_insert_by_start(sorted: Seq<Cycle>, cycle: Cycle)
    requires
        ordered_by_start(sorted),
    ensures
        ordered_by_start(insert_by_start(sorted, cycle)),
        insert_by_start(sorted, cycle).len() == sorted.len() + 1,
        forall|c: Cycle| #[trigger]
            insert_by_start(sorted, cycle).contains(c) <==> sorted.contains(c) || c == cycle,
    decreases sorted.len(),
{
    let out = insert_by_start(sorted, cycle);
    if sorted.len() == 0 || sorted.last().start_date.days <= cycle.start_date.days {
        assert(out[sorted.len() as int] == cycle);
        assert forall|c: Cycle| #[trigger] out.contains(c) implies sorted.contains(c) || c
            == cycle by {
            let i = choose|i: int| 0 <= i < out.len() && out[i] == c;
            if i < sorted.len() {
                assert(sorted[i] == c);
            }
        }
        assert forall|c: Cycle| sorted.contains(c) || c == cycle implies #[trigger] out.contains(
            c,
        ) by {
            if sorted.contains(c) {
                let i = choose|i: int| 0 <= i < sorted.len() && sorted[i] == c;
                assert(out[i] == c);
            }
        }
    } else {
        let front = sorted.drop_last();
        let inner = insert_by_start(front, cycle);
        assert(ordered_by_start(front));
        lemma_insert_by_start(front, cycle);
        assert forall|i: int| 0 <= i < inner.len() implies inner[i].start_date.days
            <= sorted.last().start_date.days by {
            assert(inner.contains(inner[i]));
            if front.contains(inner[i]) {
                let j = choose|j: int| 0 <= j < front.len() && front[j] == inner[i];
                assert(sorted[j] == inner[i]);
            }
        }
        assert(out[inner.len() as int] == sorted.last());
        assert forall|c: Cycle| #[trigger] out.contains(c) implies sorted.contains(c) || c
            == cycle by {
            let i = choose|i: int| 0 <= i < out.len() && out[i] == c;
            if i < inner.len() {
                assert(inner.contains(inner[i]));
                if front.contains(c) {
                    let j = choose|j: int| 0 <= j < front.len() && front[j] == c;
                    assert(sorted[j] == c);
                }
            } else {
                assert(sorted[sorted.len() - 1] == c);
            }
        }
        assert forall|c: Cycle| sorted.contains(c) || c == cycle implies #[trigger] out.contains(
            c,
        ) by {
            if c == sorted.last() {
                assert(out[inner.len() as int] == c);
            } else {
                if sorted.contains(c) {
                    let j = choose|j: int| 0 <= j < sorted.len() && sorted[j] == c;
                    assert(front[j] == c);
                    assert(front.contains(c));
                }
                assert(inner.contains(c));
                let i = choose|i: int| 0 <= i < inner.len() && inner[i] == c;
                assert(out[i] == c);
            }
        }
    }
}

/// The completed cycles ordered by start date are in that order, are as
/// many as the list has completed cycles, and are those cycles.
pub proof fn lemma_completed_by_start(cycles: Seq<Cycle>)
    ensures
        ordered_by_start(completed_by_start(cycles)),
        completed_by_start(cycles).len() == completed_count(cycles),
        forall|c: Cycle| #[trigger]
            completed_by_start(cycles).contains(c) <==> cycles.contains(c) && c.end_date is Some,
    decreases cycles.len(),
{
    let out = completed_by_start(cycles);
    if cycles.len() > 0 {
        let front = cycles.drop_last();
        let earlier = completed_by_start(front);
        let last = cycles.last();
        lemma_completed_by_start(front);
        if last.end_date is Some {
            lemma_insert_by_start(earlier, last);
        }
        assert forall|c: Cycle| #[trigger] out.contains(c) implies cycles.contains(c)
            && c.end_date is Some by {
            if last.end_date is Some && c == last {
                assert(cycles[cycles.len() - 1] == c);
            } else {
                assert(earlier.contains(c));
                let i = choose|i: int| 0 <= i < front.len() && front[i] == c;
                assert(cycles[i] == c);
            }
        }
        assert forall|c: Cycle| cycles.contains(c) && c.end_date is Some implies #[trigger]
            out.contains(c) by {
            let i = choose|i: int| 0 <= i < cycles.len() && cycles[i] == c;
            if i < front.len() {
                assert(front[i] == c);
                assert(front.contains(c));
                assert(earlier.contains(c));
            }
        }
    }
}

/// The sum of numbers that all lie between two bounds lies between the
/// bounds times their count.
pub proof fn lemma_total_bounds(values: Seq<i64>, low: int, high: int)
    requires
        forall|i: int| 0 <= i < values.len() ==> low <= #[trigger] values[i] <= high,
    ensures
        values.len() * low <= total(values) <= values.len() * high,
    decreases values.len(),
{
    if values.len() > 0 {
        let front = values.drop_last();
        assert forall|i: int| 0 <= i < front.len() implies low <= #[trigger] front[i] <= high by {
            assert(front[i] == values[i]);
        }
        lemma_total_bounds(front, low, high);
        assert(values.len() * low == front.len() * low + low) by (nonlinear_arith)
            requires
                values.len() == front.len() + 1,
        ;
        assert(values.len() * high == front.len() * high + high) by (nonlinear_arith)
            requires
                values.len() == front.len() + 1,
        ;
    }
}

/// Puts `cycle` behind every cycle of an ordered list that does not start
/// later.
fn insert_cycle(sorted: &mut Vec<Cycle>, cycle: Cycle)
    ensures
        final(sorted)@ == insert_by_start(old(sorted)@, cycle),
{
    let mut at: usize = sorted.len();
    while at > 0 && sorted[at - 1].start_date.days > cycle.start_date.days
        invariant
            at <= sorted.len(),
            sorted@ == old(sorted)@,
            forall|j: int|
                at <= j < sorted.len() ==> sorted[j].start_date.days > cycle.start_date.days,
        decreases at,
    {
        at -= 1;
    }
    proof {
        lemma_insert_by_start_at(sorted@, cycle, at as int);
    }
    sorted.insert(at, cycle);
}

/// The completed cycles, ordered by start date.
pub fn completed_cycles(cycles: &[Cycle]) -> (sorted: Vec<Cycle>)
    ensures
        sorted@ == completed_by_start(cycles@),
        sorted@.len() == completed_count(cycles@),
{
    let mut sorted: Vec<Cycle> = Vec::new();
    let mut i: usize = 0;
    while i < cycles.len()
        invariant
            i <= cycles.len(),
            sorted@ == completed_by_start(cycles@.take(i as int)),
        decreases cycles.len() - i,
    {
        proof {
            assert(cycles@.take(i + 1).drop_last() =~= cycles@.take(i as int));
            assert(cycles@.take(i + 1).last() == cycles@[i as int]);
        }
        if cycles[i].end_date.is_some() {
            insert_cycle(&mut sorted, cycles[i]);
        }
        i += 1;
    }
    proof {
        assert(cycles@.take(cycles.len() as int) =~= cycles@);
        lemma_completed_by_start(cycles@);
    }
    sorted
}

/// The last [`RECENT_CYCLES`] cycles of an ordered list, last first.
fn recent_cycles(sorted: &Vec<Cycle>) -> (recent: Vec<Cycle>)
    ensures
        recent@ == most_recent(sorted@),
{
    let wanted = if sorted.len() < RECENT_CYCLES {
        sorted.len()
    } else {
        RECENT_CYCLES
    };
    let mut recent: Vec<Cycle> = Vec::new();
    let mut i: usize = 0;
    while i < wanted
        invariant
            i <= wanted <= sorted.len(),
            recent@.len() == i,
            forall|k: int| 0 <= k < i ==> recent@[k] == sorted@[sorted.len() - 1 - k],
        decreases wanted - i,
    {
        recent.push(sorted[sorted.len() - 1 - i]);
        i += 1;
    }
    assert(recent@ =~= most_recent(sorted@));
    recent
}

/// The distance in days between the starts of each cycle and the next.
fn lengths_between(cycles: &Vec<Cycle>) -> (lengths: Vec<i64>)
    ensures
        lengths@ == cycle_lengths(cycles@),
{
    let mut lengths: Vec<i64> = Vec::new();
    if cycles.len() == 0 {
        assert(lengths@ =~= cycle_lengths(cycles@));
        return lengths;
    }
    let mut i: usize = 0;
    while i < cycles.len() - 1
        invariant
            cycles.len() > 0,
            i <= cycles.len() - 1,
            lengths@.len() == i,
            forall|k: int| 0 <= k < i ==> lengths@[k] == cycle_lengths(cycles@)[k],
        decreases cycles.len() - 1 - i,
    {
        let gap = cycles[i].start_date.days_since(cycles[i + 1].start_date);
        lengths.push(if gap < 0 {
            -gap
        } else {
            gap
        });
        i += 1;
    }
    assert(lengths@ =~= cycle_lengths(cycles@));
    lengths
}

/// The days from the start of each cycle to the start of the next.
fn gaps_between(cycles: &Vec<Cycle>) -> (gaps: Vec<i64>)
    ensures
        gaps@ == start_gaps(cycles@),
{
    let mut gaps: Vec<i64> = Vec::new();
    if cycles.len() == 0 {
        assert(gaps@ =~= start_gaps(cycles@));
        return gaps;
    }
    let mut i: usize = 0;
    while i < cycles.len() - 1
        invariant
            cycles.len() > 0,
            i <= cycles.len() - 1,
            gaps@.len() == i,
            forall|k: int| 0 <= k < i ==> gaps@[k] == start_gaps(cycles@)[k],
        decreases cycles.len() - 1 - i,
    {
        gaps.push(cycles[i + 1].start_date.days_since(cycles[i].start_date));
        i += 1;
    }
    assert(gaps@ =~= start_gaps(cycles@));
    gaps
}

/// The period length of each completed cycle.
fn periods_of(cycles: &Vec<Cycle>) -> (lengths: Vec<i64>)
    ensures
        lengths@ == period_lengths(cycles@),
        lengths@.len() <= cycles@.len(),
        forall|k: int| 0 <= k < lengths@.len() ==> -GAP_LIMIT <= #[trigger] lengths@[k] <= GAP_LIMIT,
{
    let mut lengths: Vec<i64> = Vec::new();
    let mut i: usize = 0;
    while i < cycles.len()
        invariant
            i <= cycles.len(),
            lengths@ == period_lengths(cycles@.take(i as int)),
            lengths@.len() <= i,
            forall|k: int|
                0 <= k < lengths@.len() ==> -GAP_LIMIT <= #[trigger] lengths@[k] <= GAP_LIMIT,
        decreases cycles.len() - i,
    {
        proof {
            assert(cycles@.take(i + 1).drop_last() =~= cycles@.take(i as int));
            assert(cycles@.take(i + 1).last() == cycles@[i as int]);
        }
        match cycles[i].end_date {
            Some(end) => {
                lengths.push(end.days_since(cycles[i].start_date) + 1);
            },
            None => {},
        }
        i += 1;
    }
    proof {
        assert(cycles@.take(cycles.len() as int) =~= cycles@);
    }
    lengths
}

/// The sum of a list of numbers.
fn sum_of(values: &Vec<i64>) -> (sum: i128)
    ensures
        sum == total(values@),
{
    let mut sum: i128 = 0;
    let mut i: usize = 0;
    while i < values.len()
        invariant
            i <= values.len(),
            sum == total(values@.take(i as int)),
            -0x8000_0000_0000_0000 * i <= sum <= 0x8000_0000_0000_0000 * i,
        decreases values.len() - i,
    {
        proof {
            assert(values@.take(i + 1).drop_last() =~= values@.take(i as int));
            assert(values@.take(i + 1).last() == values@[i as int]);
        }
        sum = sum + values[i] as i128;
        i += 1;
    }
    proof {
        assert(values@.take(values.len() as int) =~= values@);
    }
    sum
}

/// The mean of a list of numbers, if it has any.
fn mean(values: &Vec<i64>) -> (mean: Option<Mean>)
    ensures
        mean == mean_of(values@),
{
    if values.len() == 0 {
        None
    } else {
        Some(Mean { total: sum_of(values), count: values.len() })
    }
}


/// The smallest of a list of numbers, or `None` for the empty list.
pub open spec fn smallest_of(values: Seq<i64>) -> Option<i64>
    decreases values.len(),
{
    if values.len() == 0 {
        None
    } else {
        match smallest_of(values.drop_last()) {
            Some(least) if least <= values.last() => Some(least),
            _ => Some(values.last()),
        }
    }
}

/// The largest of a list of numbers, or `None` for the empty list.
pub open spec fn largest_of(values: Seq<i64>) -> Option<i64>
    decreases values.len(),
{
    if values.len() == 0 {
        None
    } else {
        match largest_of(values.drop_last()) {
            Some(most) if most >= values.last() => Some(most),
            _ => Some(values.last()),
        }
    }
}

/// The smallest of a list of numbers is one of them and none is below it;
/// likewise the largest.
pub proof fn lemma_extremes(values: Seq<i64>)
    requires
        values.len() > 0,
    ensures
        smallest_of(values) matches Some(least) && values.contains(least) && forall|i: int|
            0 <= i < values.len() ==> least <= #[trigger] values[i],
        largest_of(values) matches Some(most) && values.contains(most) && forall|i: int|
            0 <= i < values.len() ==> most >= #[trigger] values[i],
    decreases values.len(),
{
    let front = values.drop_last();
    assert(values[values.len() - 1] == values.last());
    if front.len() > 0 {
        lemma_extremes(front);
        let least = smallest_of(front)->0;
        let most = largest_of(front)->0;
        let i = choose|i: int| 0 <= i < front.len() && front[i] == least;
        assert(values[i] == least);
        let j = choose|j: int| 0 <= j < front.len() && front[j] == most;
        assert(values[j] == most);
        assert forall|k: int| 0 <= k < values.len() implies smallest_of(values)->0
            <= #[trigger] values[k] by {
            if k < front.len() {
                assert(front[k] == values[k]);
            }
        }
        assert forall|k: int| 0 <= k < values.len() implies largest_of(values)->0
            >= #[trigger] values[k] by {
            if k < front.len() {
                assert(front[k] == values[k]);
            }
        }
    }
}

/// The sum of the squares of numbers that all lie between zero and a bound
/// lies between zero and the bound's square times their count.
pub proof fn lemma_square_total_bounds(values: Seq<i64>, high: int)
    requires
        forall|i: int| 0 <= i < values.len() ==> 0 <= #[trigger] values[i] <= high,
    ensures
        0 <= square_total(values) <= values.len() * (high * high),
    decreases values.len(),
{
    if values.len() > 0 {
        let front = values.drop_last();
        let last = values.last() as int;
        assert forall|i: int| 0 <= i < front.len() implies 0 <= #[trigger] front[i] <= high by {
            assert(front[i] == values[i]);
        }
        lemma_square_total_bounds(front, high);
        assert(0 <= last * last <= high * high) by (nonlinear_arith)
            requires
                0 <= last <= high,
        ;
        assert(values.len() * (high * high) == front.len() * (high * high) + high * high)
            by (nonlinear_arith)
            requires
                values.len() == front.len() + 1,
        ;
    }
}

/// A higher level asks for a smaller spread: what is within a level is
/// within every lower one.
pub proof fn lemma_spread_within_lower(lengths: Seq<i64>, level: int, lower: int)
    requires
        lengths.len() >= 1,
        lower <= level <= 1000,
        spread_within(lengths, level),
    ensures
        spread_within(lengths, lower),
{
    let n = lengths.len() as int;
    let sum = total(lengths);
    let sum_squared = sum * sum;
    let slack = (1000 - level) * (1000 - level);
    let wider = (1000 - lower) * (1000 - lower);
    assert(slack * (n - 1) * sum_squared <= wider * (n - 1) * sum_squared) by (nonlinear_arith)
        requires
            slack == (1000 - level) * (1000 - level),
            wider == (1000 - lower) * (1000 - lower),
            lower <= level <= 1000,
            n >= 1,
            sum_squared == sum * sum,
    ;
}

/// Lengths with a mean above zero cannot be both within the highest
/// confidence and beyond the lowest: the highest asks for a deviation of at
/// most a twentieth of the mean, the lowest for one of at least nine tenths.
pub proof fn lemma_highest_and_lowest_apart(lengths: Seq<i64>)
    requires
        lengths.len() >= 2,
        total(lengths) > 0,
    ensures
        !(spread_within(lengths, MAX_CONFIDENCE as int) && spread_beyond(
            lengths,
            MIN_CONFIDENCE as int,
        )),
{
    let n = lengths.len() as int;
    let sum = total(lengths);
    let sum_squared = sum * sum;
    let weight = (n - 1) * sum_squared;
    assert(weight > 0) by (nonlinear_arith)
        requires
            weight == (n - 1) * (sum * sum),
            n >= 2,
            sum > 0,
    ;
    assert(2500 * (n - 1) * sum_squared == 2500 * weight) by (nonlinear_arith)
        requires
            weight == (n - 1) * sum_squared,
    ;
    assert(810_000 * (n - 1) * sum_squared == 810_000 * weight) by (nonlinear_arith)
        requires
            weight == (n - 1) * sum_squared,
    ;
}

/// A measured confidence is given by the spread of at least two lengths
/// that are neither within the highest confidence nor beyond the lowest.
pub proof fn lemma_measured_confidence(lengths: Seq<i64>)
    ensures
        confidence_of(lengths) matches Confidence::Measured(spread) ==> {
            &&& spread == spread_of(lengths)
            &&& lengths.len() >= 2
            &&& !spread_within(lengths, MAX_CONFIDENCE as int)
            &&& !spread_beyond(lengths, MIN_CONFIDENCE as int)
        },
{
}

/// The sum of the squares of a list of numbers below [`GAP_LIMIT`].
fn square_sum_of(values: &Vec<i64>) -> (sum: i128)
    requires
        values@.len() < RECENT_CYCLES,
        forall|i: int| 0 <= i < values@.len() ==> 0 <= #[trigger] values@[i] < GAP_LIMIT,
    ensures
        sum == square_total(values@),
{
    let mut sum: i128 = 0;
    let mut i: usize = 0;
    while i < values.len()
        invariant
            i <= values.len(),
            values@.len() < RECENT_CYCLES,
            forall|i: int| 0 <= i < values@.len() ==> 0 <= #[trigger] values@[i] < GAP_LIMIT,
            sum == square_total(values@.take(i as int)),
            0 <= sum <= i * 0x1_0000_0000_0000_0000,
        decreases values.len() - i,
    {
        let value = values[i] as i128;
        proof {
            assert(values@.take(i + 1).drop_last() =~= values@.take(i as int));
            assert(values@.take(i + 1).last() == values@[i as int]);
            assert(0 <= value * value <= 0x1_0000_0000_0000_0000) by (nonlinear_arith)
                requires
                    0 <= value < 0x1_0000_0000,
            ;
        }
        sum = sum + value * value;
        i += 1;
    }
    proof {
        assert(values@.take(values.len() as int) =~= values@);
    }
    sum
}

/// The square of what is left from `level` thousandths to one.
fn slack_of(level: u16) -> (slack: i128)
    requires
        level <= 1000,
    ensures
        slack == (1000 - level) * (1000 - level),
        0 <= slack <= 1_000_000,
{
    let margin = 1000 - level as i128;
    proof {
        assert(0 <= margin * margin <= 1_000_000) by (nonlinear_arith)
            requires
                0 <= margin <= 1000,
        ;
    }
    margin * margin
}

/// The confidence of a forecast from the given cycle lengths.
fn confidence(lengths: &Vec<i64>) -> (confidence: Confidence)
    requires
        lengths@.len() < RECENT_CYCLES,
        forall|i: int| 0 <= i < lengths@.len() ==> 0 <= #[trigger] lengths@[i] < GAP_LIMIT,
    ensures
        confidence == confidence_of(lengths@),
{
    if lengths.len() < 2 {
        return Confidence::Flat;
    }
    let n = lengths.len() as i128;
    let sum = sum_of(lengths);
    let squares = square_sum_of(lengths);
    proof {
        lemma_total_bounds(lengths@, 0, 0x1_0000_0000);
        lemma_square_total_bounds(lengths@, 0x1_0000_0000);
        assert(0x1_0000_0000int * 0x1_0000_0000int == 0x1_0000_0000_0000_0000int);
        assert(0 <= sum * sum <= 25 * 0x1_0000_0000_0000_0000) by (nonlinear_arith)
            requires
                0 <= sum <= 5 * 0x1_0000_0000,
        ;
        assert(0 <= n * squares <= 25 * 0x1_0000_0000_0000_0000) by (nonlinear_arith)
            requires
                0 <= n <= 5,
                0 <= squares <= 5 * 0x1_0000_0000_0000_0000,
        ;
    }
    let sum_squared = sum * sum;
    let deviation = n * squares - sum_squared;
    proof {
        assert(-125 * 0x1_0000_0000_0000_0000 <= deviation * n <= 125 * 0x1_0000_0000_0000_0000)
            by (nonlinear_arith)
            requires
                0 <= n <= 5,
                -25 * 0x1_0000_0000_0000_0000 <= deviation <= 25 * 0x1_0000_0000_0000_0000,
        ;
    }
    let needed = deviation * n * 1_000_000;
    let narrow = slack_of(MAX_CONFIDENCE);
    let wide = slack_of(MIN_CONFIDENCE);
    proof {
        assert(0 <= narrow * (n - 1) <= 4_000_000 && 0 <= wide * (n - 1) <= 4_000_000)
            by (nonlinear_arith)
            requires
                0 <= narrow <= 1_000_000,
                0 <= wide <= 1_000_000,
                1 <= n - 1 <= 4,
        ;
        assert(0 <= narrow * (n - 1) * sum_squared <= 4_000_000 * (25
            * 0x1_0000_0000_0000_0000)) by (nonlinear_arith)
            requires
                0 <= narrow * (n - 1) <= 4_000_000,
                0 <= sum_squared <= 25 * 0x1_0000_0000_0000_0000,
        ;
        assert(0 <= wide * (n - 1) * sum_squared <= 4_000_000 * (25 * 0x1_0000_0000_0000_0000))
            by (nonlinear_arith)
            requires
                0 <= wide * (n - 1) <= 4_000_000,
                0 <= sum_squared <= 25 * 0x1_0000_0000_0000_0000,
        ;
    }
    if needed <= narrow * (n - 1) * sum_squared {
        Confidence::Highest
    } else if needed >= wide * (n - 1) * sum_squared {
        Confidence::Lowest
    } else {
        Confidence::Measured(Spread { count: lengths.len(), total: sum, squares })
    }
}

/// What the forecast is computed from: the lengths between the starts of
/// the most recent completed cycles, their mean, the mean period length of
/// those cycles, and the start of the last one. `None` with fewer than two
/// completed cycles.
pub fn calc_internals(cycles: &[Cycle]) -> (internals: Option<PredictionInternals>)
    ensures
        internals is Some <==> completed_count(cycles@) >= 2,
        internals matches Some(found) ==> {
            let sorted = completed_by_start(cycles@);
            let recent = most_recent(sorted);
            &&& found.cycle_lengths@ == cycle_lengths(recent)
            &&& Some(found.avg_cycle) == mean_of(cycle_lengths(recent))
            &&& found.avg_period == mean_period(period_lengths(recent))
            &&& found.last_start == sorted.last().start_date
        },
{
    let completed = completed_cycles(cycles);
    if completed.len() < 2 {
        return None;
    }
    let recent = recent_cycles(&completed);
    let cycle_lengths = lengths_between(&recent);
    let avg_cycle = match mean(&cycle_lengths) {
        Some(avg) => avg,
        None => {
            return None;
        },
    };
    let period_lengths = periods_of(&recent);
    let avg_period = match mean(&period_lengths) {
        Some(avg) => avg,
        None => Mean { total: DEFAULT_PERIOD_DAYS as i128, count: 1 },
    };
    let last_start = completed[completed.len() - 1].start_date;
    Some(PredictionInternals { avg_cycle, avg_period, cycle_lengths, last_start })
}

/// The forecast of the next cycle.
///
/// It starts the rounded mean cycle length after the start of the last
/// completed cycle and lasts the rounded mean period length. There is no
/// forecast with fewer than two completed cycles.
pub fn predict(cycles: &[Cycle]) -> (prediction: Option<Prediction>)
    ensures
        prediction == prediction_of(cycles@),
        completed_count(cycles@) < 2 ==> prediction is None,
        prediction matches Some(found) ==> found.predicted_start.days <= found.predicted_end.days,
{
    let stats = match calc_internals(cycles) {
        Some(stats) => stats,
        None => {
            proof {
                lemma_completed_by_start(cycles@);
            }
            return None;
        },
    };
    proof {
        lemma_completed_by_start(cycles@);
        let recent = most_recent(completed_by_start(cycles@));
        lemma_total_bounds(cycle_lengths(recent), 0, GAP_LIMIT as int);
        lemma_period_lengths_bounds(recent);
        lemma_total_bounds(period_lengths(recent), -GAP_LIMIT as int, GAP_LIMIT as int);
    }
    let cycle_days = stats.avg_cycle.round();
    let period_days = stats.avg_period.round();
    let extra_days = if period_days - 1 > 0 {
        period_days - 1
    } else {
        0
    };
    let confidence = confidence(&stats.cycle_lengths);
    let predicted_start = match stats.last_start.plus_days(cycle_days as i64) {
        Some(date) => date,
        None => {
            return None;
        },
    };
    let predicted_end = match predicted_start.plus_days(extra_days as i64) {
        Some(date) => date,
        None => {
            return None;
        },
    };
    Some(Prediction { predicted_start, predicted_end, confidence })
}

/// The period lengths of a list of cycles are no more than the cycles, and
/// each is a difference of two dates and a day.
pub proof fn lemma_period_lengths_bounds(cycles: Seq<Cycle>)
    ensures
        period_lengths(cycles).len() <= cycles.len(),
        forall|k: int|
            0 <= k < period_lengths(cycles).len() ==> -GAP_LIMIT <= #[trigger] period_lengths(
                cycles,
            )[k] <= GAP_LIMIT,
    decreases cycles.len(),
{
    if cycles.len() > 0 {
        lemma_period_lengths_bounds(cycles.drop_last());
    }
}

/// The fertility window before the forecast cycle.
///
/// Ovulation is taken to lie [`OVULATION_OFFSET_DAYS`] days before the
/// forecast start. The fertile window runs from [`FERTILE_LEAD_DAYS`] days
/// before ovulation to ovulation, peak fertility from [`PEAK_LEAD_DAYS`] days
/// before it. There is no window without a forecast.
pub fn fertility_window(cycles: &[Cycle]) -> (window: Option<FertilityWindow>)
    ensures
        window == fertility_of(cycles@),
        completed_count(cycles@) < 2 ==> window is None,
        window matches Some(found) ==> prediction_of(cycles@) matches Some(prediction) && {
            &&& found.ovulation_day.days == prediction.predicted_start.days - OVULATION_OFFSET_DAYS
            &&& found.fertile_start.days == found.ovulation_day.days - FERTILE_LEAD_DAYS
            &&& found.peak_start.days == found.ovulation_day.days - PEAK_LEAD_DAYS
            &&& found.fertile_end == found.ovulation_day
            &&& found.peak_end == found.ovulation_day
        },
{
    let prediction = match predict(cycles) {
        Some(prediction) => prediction,
        None => {
            return None;
        },
    };
    let ovulation_day = match prediction.predicted_start.plus_days(-OVULATION_OFFSET_DAYS) {
        Some(date) => date,
        None => {
            return None;
        },
    };
    let fertile_start = match ovulation_day.plus_days(-FERTILE_LEAD_DAYS) {
        Some(date) => date,
        None => {
            return None;
        },
    };
    let peak_start = match ovulation_day.plus_days(-PEAK_LEAD_DAYS) {
        Some(date) => date,
        None => {
            return None;
        },
    };
    Some(
        FertilityWindow {
            fertile_start,
            fertile_end: ovulation_day,
            ovulation_day,
            peak_start,
            peak_end: ovulation_day,
        },
    )
}


/// The statistics of a cycle list, over all its completed cycles in the
/// order of their start dates.
pub open spec fn stats_of(cycles: Seq<Cycle>) -> CycleStats {
    let sorted = completed_by_start(cycles);
    if sorted.len() == 0 {
        CycleStats {
            total_cycles: 0,
            avg_cycle_length: None,
            avg_period_length: None,
            shortest_cycle: None,
            longest_cycle: None,
            last_period_start: None,
            last_period_end: None,
        }
    } else {
        CycleStats {
            total_cycles: sorted.len() as usize,
            avg_cycle_length: mean_of(start_gaps(sorted)),
            avg_period_length: mean_of(period_lengths(sorted)),
            shortest_cycle: smallest_of(start_gaps(sorted)),
            longest_cycle: largest_of(start_gaps(sorted)),
            last_period_start: Some(sorted.last().start_date),
            last_period_end: sorted.last().end_date,
        }
    }
}

/// The smallest of a list of numbers, if it has any.
fn smallest(values: &Vec<i64>) -> (least: Option<i64>)
    ensures
        least == smallest_of(values@),
{
    let mut least: Option<i64> = None;
    let mut i: usize = 0;
    while i < values.len()
        invariant
            i <= values.len(),
            least == smallest_of(values@.take(i as int)),
        decreases values.len() - i,
    {
        proof {
            assert(values@.take(i + 1).drop_last() =~= values@.take(i as int));
            assert(values@.take(i + 1).last() == values@[i as int]);
        }
        least = match least {
            Some(found) if found <= values[i] => Some(found),
            _ => Some(values[i]),
        };
        i += 1;
    }
    proof {
        assert(values@.take(values.len() as int) =~= values@);
    }
    least
}

/// The largest of a list of numbers, if it has any.
fn largest(values: &Vec<i64>) -> (most: Option<i64>)
    ensures
        most == largest_of(values@),
{
    let mut most: Option<i64> = None;
    let mut i: usize = 0;
    while i < values.len()
        invariant
            i <= values.len(),
            most == largest_of(values@.take(i as int)),
        decreases values.len() - i,
    {
        proof {
            assert(values@.take(i + 1).drop_last() =~= values@.take(i as int));
            assert(values@.take(i + 1).last() == values@[i as int]);
        }
        most = match most {
            Some(found) if found >= values[i] => Some(found),
            _ => Some(values[i]),
        };
        i += 1;
    }
    proof {
        assert(values@.take(values.len() as int) =~= values@);
    }
    most
}

/// The statistics over all completed cycles.
///
/// Cycle lengths are the days from the start of each completed cycle to the
/// start of the next, period lengths the days of each completed cycle. With
/// no completed cycle every figure is absent and the count is zero.
pub fn cycle_stats(cycles: &[Cycle]) -> (stats: CycleStats)
    ensures
        stats == stats_of(cycles@),
        stats.total_cycles == completed_count(cycles@),
{
    let completed = completed_cycles(cycles);
    if completed.len() == 0 {
        return CycleStats {
            total_cycles: 0,
            avg_cycle_length: None,
            avg_period_length: None,
            shortest_cycle: None,
            longest_cycle: None,
            last_period_start: None,
            last_period_end: None,
        };
    }
    let period_lengths = periods_of(&completed);
    let cycle_lengths = gaps_between(&completed);
    let last = completed[completed.len() - 1];
    CycleStats {
        total_cycles: completed.len(),
        avg_cycle_length: mean(&cycle_lengths),
        avg_period_length: mean(&period_lengths),
        shortest_cycle: smallest(&cycle_lengths),
        longest_cycle: largest(&cycle_lengths),
        last_period_start: Some(last.start_date),
        last_period_end: last.end_date,
    }
}


/// A cycle list with fewer than two completed cycles has no forecast and no
/// fertility window.
pub proof fn lemma_no_forecast_below_two(cycles: Seq<Cycle>)
    requires
        completed_count(cycles) < 2,
    ensures
        prediction_of(cycles) is None,
        fertility_of(cycles) is None,
{
    lemma_completed_by_start(cycles);
}

/// A forecast starts no earlier than the last completed cycle and ends no
/// earlier than it starts.
pub proof fn lemma_forecast_shape(cycles: Seq<Cycle>)
    ensures
        prediction_of(cycles) matches Some(found) ==> {
            &&& completed_by_start(cycles).last().start_date.days <= found.predicted_start.days
            &&& found.predicted_start.days <= found.predicted_end.days
        },
{
    let sorted = completed_by_start(cycles);
    if sorted.len() >= 2 {
        let recent = most_recent(sorted);
        let lengths = cycle_lengths(recent);
        lemma_total_bounds(lengths, 0, 0x1_0000_0000);
        let sum = total(lengths);
        let n = lengths.len() as int;
        assert((2 * sum + n) / (2 * n) >= 0) by (nonlinear_arith)
            requires
                sum >= 0,
                n >= 1,
        ;
    }
}

} // verus!
