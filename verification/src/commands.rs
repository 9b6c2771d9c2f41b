//! The session and the operations on it.
//!
//! A session is locked, or unlocked with the passphrase and the decrypted
//! vault in memory. Every operation that reads or changes the vault fails
//! while the session is locked. Operations that change the observations
//! rebuild the cycle list, so that the two never drift apart.

use vstd::prelude::*;
use vstd::utf8::encode_utf8;
use crate::calendar::{civil_day_number, date_in, date_of, Date};
use crate::crypto::{
    can_seal,
    opened_container,
    CryptoError,
    KDF_MAX_INPUT_LEN,
    MAGIC_LEN,
    NONCE_LEN,
    SALT_LEN,
    TAG_LEN,
};
use crate::cycles::{rebuild_cycles_on, rebuilt_spans, spans_of, well_formed_spans};
use crate::models::{
    AppData,
    AppSettings,
    Cycle,
    CycleStats,
    DayLog,
    FlowLevel,
    MonthData,
    Prediction,
    Symptom,
    SymptomType,
};
use crate::prediction::{
    cycle_stats,
    fertility_of,
    fertility_window,
    predict,
    prediction_of,
    stats_of,
};
use crate::storage::{data_exists, save, wipe, StorageError, VaultFile};

verus! {

/// The lowest severity a symptom is stored with.
pub const MIN_SEVERITY: u8 = 1;

/// The highest severity a symptom is stored with.
pub const MAX_SEVERITY: u8 = 3;

/// The shortest time, in minutes, after which the vault locks itself.
pub const MIN_AUTO_LOCK_MINUTES: u32 = 1;

/// The longest time, in minutes, after which the vault locks itself.
pub const MAX_AUTO_LOCK_MINUTES: u32 = 60;

/// The two states of a session.
pub enum Session {
    Locked,
    Unlocked { passphrase: String, data: AppData },
}

/// The one session of the process.
pub struct AppState {
    pub session: Session,
}

/// Why an operation was refused. `InvalidDate` carries the reason in words.
#[derive(Debug, Clone)]
pub enum CommandError {
    Locked,
    InvalidDate(String),
    Storage(StorageError),
}

impl CommandError {
    /// The error in words.
    pub open spec fn message_text(self) -> Seq<char> {
        match self {
            CommandError::Locked => "app is locked"@,
            CommandError::InvalidDate(reason) => reason@,
            CommandError::Storage(e) => e.message_text(),
        }
    }

    /// The error in words.
    pub fn message(&self) -> (text: String)
        ensures
            text@ == self.message_text(),
    {
        match self {
            CommandError::Locked => "app is locked".to_owned(),
            CommandError::InvalidDate(reason) => reason.clone(),
            CommandError::Storage(e) => e.message(),
        }
    }
}

/// Calls `zeroize::Zeroize::zeroize` on the string, which overwrites its
/// bytes with zeros and then empties it.
#[verifier::external_body]
fn wipe_text(text: &mut String)
    ensures
        final(text)@.len() == 0,
{
    zeroize::Zeroize::zeroize(text);
}

/// A severity brought into the range from [`MIN_SEVERITY`] to
/// [`MAX_SEVERITY`].
pub open spec fn clamped_severity(severity: u8) -> u8 {
    if severity < MIN_SEVERITY {
        MIN_SEVERITY
    } else if severity > MAX_SEVERITY {
        MAX_SEVERITY
    } else {
        severity
    }
}

/// A time in minutes brought into the range from [`MIN_AUTO_LOCK_MINUTES`]
/// to [`MAX_AUTO_LOCK_MINUTES`].
pub open spec fn clamped_minutes(minutes: u32) -> u32 {
    if minutes < MIN_AUTO_LOCK_MINUTES {
        MIN_AUTO_LOCK_MINUTES
    } else if minutes > MAX_AUTO_LOCK_MINUTES {
        MAX_AUTO_LOCK_MINUTES
    } else {
        minutes
    }
}

/// Where the first observation of `date` stands in the list, or the length
/// of the list where there is none.
pub open spec fn position_of(logs: Seq<DayLog>, date: Date) -> int
    decreases logs.len(),
{
    if logs.len() == 0 {
        0
    } else {
        let before = position_of(logs.drop_last(), date);
        if before < logs.len() - 1 {
            before
        } else if logs.last().date == date {
            logs.len() - 1
        } else {
            logs.len() as int
        }
    }
}

/// The observations after `entry` was written: it takes the place of the
/// first observation of its date, or goes to the end where there is none.
pub open spec fn upserted(logs: Seq<DayLog>, entry: DayLog) -> Seq<DayLog> {
    let at = position_of(logs, entry.date);
    if at < logs.len() {
        logs.update(at, entry)
    } else {
        logs.push(entry)
    }
}

/// Whether no two observations of the list have the same date.
pub open spec fn distinct_dates(logs: Seq<DayLog>) -> bool {
    forall|i: int, j: int| 0 <= i < j < logs.len() ==> logs[i].date != logs[j].date
}

/// The symptoms of every date but `date`, in their order.
pub open spec fn without_date(symptoms: Seq<Symptom>, date: Date) -> Seq<Symptom>
    decreases symptoms.len(),
{
    if symptoms.len() == 0 {
        Seq::empty()
    } else {
        let earlier = without_date(symptoms.drop_last(), date);
        if symptoms.last().date != date {
            earlier.push(symptoms.last())
        } else {
            earlier
        }
    }
}

/// The symptoms of `date` alone, in their order.
pub open spec fn on_date(symptoms: Seq<Symptom>, date: Date) -> Seq<Symptom>
    decreases symptoms.len(),
{
    if symptoms.len() == 0 {
        Seq::empty()
    } else {
        let earlier = on_date(symptoms.drop_last(), date);
        if symptoms.last().date == date {
            earlier.push(symptoms.last())
        } else {
            earlier
        }
    }
}

/// The records of every kind but `kind`, in their order.
pub open spec fn without_kind(symptoms: Seq<Symptom>, kind: SymptomType) -> Seq<Symptom>
    decreases symptoms.len(),
{
    if symptoms.len() == 0 {
        Seq::empty()
    } else {
        let earlier = without_kind(symptoms.drop_last(), kind);
        if symptoms.last().symptom_type != kind {
            earlier.push(symptoms.last())
        } else {
            earlier
        }
    }
}

/// The record that one entry gives for `date`: its kind, with its severity
/// clamped.
pub open spec fn record_of(date: Date, entry: (SymptomType, u8)) -> Symptom {
    Symptom { date, symptom_type: entry.0, severity: clamped_severity(entry.1) }
}

/// The symptom records for `date` from kinds and severities as they were
/// entered. Each entry takes the place of the record that an earlier entry
/// gave for its kind, so that every kind entered has one record, from the
/// entry that names it last.
pub open spec fn symptoms_on(date: Date, entries: Seq<(SymptomType, u8)>) -> Seq<Symptom>
    decreases entries.len(),
{
    if entries.len() == 0 {
        Seq::empty()
    } else {
        without_kind(symptoms_on(date, entries.drop_last()), entries.last().0).push(
            record_of(date, entries.last()),
        )
    }
}

/// Whether no two records of the list are of the same kind.
pub open spec fn distinct_kinds(symptoms: Seq<Symptom>) -> bool {
    forall|i: int, j: int|
        0 <= i < j < symptoms.len() ==> symptoms[i].symptom_type != symptoms[j].symptom_type
}

/// Whether no later entry names the kind of entry `k`.
pub open spec fn is_last_of_kind(entries: Seq<(SymptomType, u8)>, k: int) -> bool {
    &&& 0 <= k < entries.len()
    &&& forall|j: int| k < j < entries.len() ==> (#[trigger] entries[j]).0 != entries[k].0
}

/// The symptoms after the set for `date` was written: what was recorded for
/// that date is gone, and the new records stand at the end.
pub open spec fn replaced_symptoms(
    symptoms: Seq<Symptom>,
    date: Date,
    entries: Seq<(SymptomType, u8)>,
) -> Seq<Symptom> {
    without_date(symptoms, date) + symptoms_on(date, entries)
}

/// Whether `after` is `before` with one day logged on the day `today`: the
/// observation written, the symptoms of its date replaced, the cycles
/// rebuilt, the settings untouched.
pub open spec fn logged(
    before: AppData,
    after: AppData,
    entry: DayLog,
    entries: Seq<(SymptomType, u8)>,
    today: Date,
) -> bool {
    &&& after.day_logs@ == upserted(before.day_logs@, entry)
    &&& after.symptoms@ == replaced_symptoms(before.symptoms@, entry.date, entries)
    &&& spans_of(after.cycles@) == rebuilt_spans(after.day_logs@, today)
    &&& well_formed_spans(spans_of(after.cycles@))
    &&& after.settings == before.settings
}

/// The first observation of a date stands where [`position_of`] says, and
/// nowhere else does a first one stand.
pub proof fn lemma_position_of(logs: Seq<DayLog>, date: Date, at: int)
    requires
        0 <= at <= logs.len(),
        forall|j: int| 0 <= j < at ==> logs[j].date != date,
        at < logs.len() ==> logs[at].date == date,
    ensures
        position_of(logs, date) == at,
    decreases logs.len(),
{
    if logs.len() > 0 {
        let front = logs.drop_last();
        if at < logs.len() - 1 {
            lemma_position_of(front, date, at);
        } else {
            lemma_position_of(front, date, logs.len() - 1);
        }
    }
}

/// [`position_of`] finds the first observation of a date.
pub proof fn lemma_position_of_is_first(logs: Seq<DayLog>, date: Date)
    ensures
        0 <= position_of(logs, date) <= logs.len(),
        forall|j: int| 0 <= j < position_of(logs, date) ==> (#[trigger] logs[j]).date != date,
        position_of(logs, date) < logs.len() ==> logs[position_of(logs, date)].date == date,
    decreases logs.len(),
{
    if logs.len() > 0 {
        let front = logs.drop_last();
        lemma_position_of_is_first(front, date);
        assert forall|j: int| 0 <= j < position_of(logs, date) implies (#[trigger] logs[j]).date
            != date by {
            if j < front.len() {
                assert(front[j] == logs[j]);
            }
        }
    }
}

/// Writing an observation into a list with one observation per date leaves
/// a list with one observation per date. In it the written observation
/// stands at its date and nowhere else is there one of that date, and every
/// observation of another date stands where it stood.
pub proof fn lemma_upserted(logs: Seq<DayLog>, entry: DayLog)
    requires
        distinct_dates(logs),
    ensures
        distinct_dates(upserted(logs, entry)),
        position_of(upserted(logs, entry), entry.date) == position_of(logs, entry.date),
        0 <= position_of(logs, entry.date) < upserted(logs, entry).len(),
        upserted(logs, entry)[position_of(logs, entry.date)] == entry,
        forall|i: int|
            0 <= i < upserted(logs, entry).len() && (#[trigger] upserted(logs, entry)[i]).date
                == entry.date ==> i == position_of(logs, entry.date),
        forall|i: int|
            0 <= i < logs.len() && logs[i].date != entry.date ==> #[trigger] upserted(
                logs,
                entry,
            )[i] == logs[i],
{
    let at = position_of(logs, entry.date);
    let out = upserted(logs, entry);
    lemma_position_of_is_first(logs, entry.date);
    assert(out[at] == entry);
    assert forall|i: int, j: int| 0 <= i < j < out.len() implies out[i].date != out[j].date by {
        if i != at && j != at {
            assert(out[i] == logs[i] && out[j] == logs[j]);
        } else if i == at {
            assert(out[j] == logs[j]);
            if at < logs.len() {
                assert(logs[at].date != logs[j].date);
            }
        } else {
            assert(out[i] == logs[i]);
        }
    }
    lemma_position_of(out, entry.date, at);
    assert forall|i: int| 0 <= i < out.len() && (#[trigger] out[i]).date == entry.date implies i
        == at by {
        if i < at {
            assert(out[i].date != out[at].date);
        } else if i > at {
            assert(out[at].date != out[i].date);
        }
    }
}

/// Whether `entry` stands at `at` in the list and no other observation of
/// the list has its date.
pub open spec fn only_at(logs: Seq<DayLog>, entry: DayLog, at: int) -> bool {
    &&& 0 <= at < logs.len()
    &&& logs[at] == entry
    &&& forall|j: int| 0 <= j < logs.len() && (#[trigger] logs[j]).date == entry.date ==> j == at
}

/// Logging the same date twice leaves exactly one observation for that
/// date, and it is the one written last.
pub proof fn lemma_logged_twice(logs: Seq<DayLog>, first: DayLog, second: DayLog)
    requires
        distinct_dates(logs),
        first.date == second.date,
    ensures
        distinct_dates(upserted(upserted(logs, first), second)),
        upserted(upserted(logs, first), second).len() == upserted(logs, first).len(),
        exists|at: int| #[trigger] only_at(upserted(upserted(logs, first), second), second, at),
{
    let once = upserted(logs, first);
    let at = position_of(logs, first.date);
    assert(position_of(once, second.date) == at && at < once.len() && distinct_dates(once)) by {
        lemma_upserted(logs, first);
    }
    lemma_position_of_is_first(logs, first.date);
    lemma_upserted(once, second);
    assert(only_at(upserted(once, second), second, at));
}

/// Dropping a kind from a list leaves the records of the other kinds and
/// nothing else, and leaves the kinds distinct where they were.
pub proof fn lemma_without_kind(symptoms: Seq<Symptom>, kind: SymptomType)
    ensures
        forall|r: Symptom| #[trigger]
            without_kind(symptoms, kind).contains(r) <==> symptoms.contains(r) && r.symptom_type
                != kind,
        distinct_kinds(symptoms) ==> distinct_kinds(without_kind(symptoms, kind)),
    decreases symptoms.len(),
{
    let out = without_kind(symptoms, kind);
    if symptoms.len() > 0 {
        let front = symptoms.drop_last();
        let inner = without_kind(front, kind);
        let last = symptoms.last();
        lemma_without_kind(front, kind);
        assert forall|r: Symptom| #[trigger] out.contains(r) implies symptoms.contains(r)
            && r.symptom_type != kind by {
            let i = choose|i: int| 0 <= i < out.len() && out[i] == r;
            if i < inner.len() {
                assert(inner.contains(inner[i]));
                let j = choose|j: int| 0 <= j < front.len() && front[j] == r;
                assert(symptoms[j] == r);
            } else {
                assert(symptoms[symptoms.len() - 1] == r);
            }
        }
        assert forall|r: Symptom| symptoms.contains(r) && r.symptom_type != kind implies #[trigger]
            out.contains(r) by {
            let j = choose|j: int| 0 <= j < symptoms.len() && symptoms[j] == r;
            if j < front.len() {
                assert(front[j] == r);
                assert(front.contains(r));
                assert(inner.contains(r));
                let i = choose|i: int| 0 <= i < inner.len() && inner[i] == r;
                assert(out[i] == r);
            } else {
                assert(out[out.len() - 1] == r);
            }
        }
        if distinct_kinds(symptoms) {
            assert(distinct_kinds(front));
            assert forall|i: int, j: int| 0 <= i < j < out.len() implies out[i].symptom_type
                != out[j].symptom_type by {
                if j == inner.len() {
                    assert(inner.contains(inner[i]));
                    let m = choose|m: int| 0 <= m < front.len() && front[m] == inner[i];
                    assert(symptoms[m].symptom_type != symptoms[symptoms.len() - 1].symptom_type);
                }
            }
        }
    }
}

/// What the records for a date are, given the entries: each record is for
/// that date and has a severity from [`MIN_SEVERITY`] to [`MAX_SEVERITY`]; no
/// two records share a kind; every entry that names its kind last has its
/// record in the list, and nothing else is in the list.
pub proof fn lemma_symptoms_on(date: Date, entries: Seq<(SymptomType, u8)>)
    ensures
        forall|i: int|
            0 <= i < symptoms_on(date, entries).len() ==> (#[trigger] symptoms_on(
                date,
                entries,
            )[i]).date == date && MIN_SEVERITY <= symptoms_on(date, entries)[i].severity
                <= MAX_SEVERITY,
        distinct_kinds(symptoms_on(date, entries)),
        forall|k: int| #[trigger]
            is_last_of_kind(entries, k) ==> symptoms_on(date, entries).contains(
                record_of(date, entries[k]),
            ),
        forall|r: Symptom| #[trigger]
            symptoms_on(date, entries).contains(r) ==> exists|k: int| #[trigger]
                is_last_of_kind(entries, k) && r == record_of(date, entries[k]),
    decreases entries.len(),
{
    let out = symptoms_on(date, entries);
    if entries.len() > 0 {
        let front = entries.drop_last();
        let before = symptoms_on(date, front);
        let kind = entries.last().0;
        let kept = without_kind(before, kind);
        let last = record_of(date, entries.last());
        let end = entries.len() - 1;
        lemma_symptoms_on(date, front);
        lemma_without_kind(before, kind);
        assert(out[kept.len() as int] == last);
        assert forall|i: int| 0 <= i < out.len() implies (#[trigger] out[i]).date == date
            && MIN_SEVERITY <= out[i].severity <= MAX_SEVERITY by {
            if i < kept.len() {
                assert(kept.contains(kept[i]));
                let m = choose|m: int| 0 <= m < before.len() && before[m] == kept[i];
                assert(before[m].date == date);
            }
        }
        assert forall|i: int, j: int| 0 <= i < j < out.len() implies out[i].symptom_type
            != out[j].symptom_type by {
            if j == kept.len() {
                assert(kept.contains(kept[i]));
            } else {
                assert(kept[i].symptom_type != kept[j].symptom_type);
            }
        }
        assert forall|k: int| #[trigger] is_last_of_kind(entries, k) implies out.contains(
            record_of(date, entries[k]),
        ) by {
            if k == end {
                assert(out[kept.len() as int] == record_of(date, entries[k]));
            } else {
                assert(entries[end].0 != entries[k].0);
                assert(front[k] == entries[k]);
                assert forall|j: int| k < j < front.len() implies (#[trigger] front[j]).0
                    != front[k].0 by {
                    assert(front[j] == entries[j]);
                }
                assert(is_last_of_kind(front, k));
                let r = record_of(date, entries[k]);
                assert(before.contains(r));
                assert(kept.contains(r));
                let i = choose|i: int| 0 <= i < kept.len() && kept[i] == r;
                assert(out[i] == r);
            }
        }
        assert forall|r: Symptom| #[trigger] out.contains(r) implies exists|k: int| #[trigger]
            is_last_of_kind(entries, k) && r == record_of(date, entries[k]) by {
            let i = choose|i: int| 0 <= i < out.len() && out[i] == r;
            if i == kept.len() {
                assert(is_last_of_kind(entries, end));
            } else {
                assert(kept.contains(kept[i]));
                assert(before.contains(r) && r.symptom_type != kind);
                let k = choose|k: int| #[trigger]
                    is_last_of_kind(front, k) && r == record_of(date, front[k]);
                assert(front[k] == entries[k]);
                assert forall|j: int| k < j < entries.len() implies (#[trigger] entries[j]).0
                    != entries[k].0 by {
                    if j < front.len() {
                        assert(front[j] == entries[j]);
                    }
                }
                assert(is_last_of_kind(entries, k));
            }
        }
    }
}

/// The symptoms of a date in two lists put together are those in the first
/// followed by those in the second; likewise the symptoms of other dates.
proof fn lemma_dates_of_both(first: Seq<Symptom>, second: Seq<Symptom>, date: Date)
    ensures
        on_date(first + second, date) == on_date(first, date) + on_date(second, date),
        without_date(first + second, date) == without_date(first, date) + without_date(
            second,
            date,
        ),
    decreases second.len(),
{
    if second.len() == 0 {
        assert(first + second =~= first);
        assert(on_date(first, date) + on_date(second, date) =~= on_date(first, date));
        assert(without_date(first, date) + without_date(second, date) =~= without_date(
            first,
            date,
        ));
    } else {
        let front = second.drop_last();
        lemma_dates_of_both(first, front, date);
        assert((first + second).drop_last() =~= first + front);
        assert((first + second).last() == second.last());
        if second.last().date == date {
            assert(on_date(first, date) + on_date(front, date).push(second.last()) =~= (on_date(
                first,
                date,
            ) + on_date(front, date)).push(second.last()));
        } else {
            assert(without_date(first, date) + without_date(front, date).push(second.last())
                =~= (without_date(first, date) + without_date(front, date)).push(second.last()));
        }
    }
}

/// A list whose records are all of one date has no record of another date.
proof fn lemma_all_of_date(symptoms: Seq<Symptom>, date: Date)
    requires
        forall|i: int| 0 <= i < symptoms.len() ==> (#[trigger] symptoms[i]).date == date,
    ensures
        on_date(symptoms, date) == symptoms,
        without_date(symptoms, date) == Seq::<Symptom>::empty(),
    decreases symptoms.len(),
{
    if symptoms.len() > 0 {
        let front = symptoms.drop_last();
        assert forall|i: int| 0 <= i < front.len() implies (#[trigger] front[i]).date == date by {
            assert(front[i] == symptoms[i]);
        }
        lemma_all_of_date(front, date);
        assert(symptoms[symptoms.len() - 1].date == date);
        assert(front.push(symptoms.last()) =~= symptoms);
    }
}

/// Writing the symptom set of a date replaces it entirely: the symptoms of
/// that date are then the new records, no two of them of the same kind, and
/// the symptoms of every other date are what they were.
pub proof fn lemma_replaced_symptoms(
    symptoms: Seq<Symptom>,
    date: Date,
    entries: Seq<(SymptomType, u8)>,
)
    ensures
        on_date(replaced_symptoms(symptoms, date, entries), date) == symptoms_on(date, entries),
        without_date(replaced_symptoms(symptoms, date, entries), date) == without_date(
            symptoms,
            date,
        ),
        distinct_kinds(on_date(replaced_symptoms(symptoms, date, entries), date)),
{
    let kept = without_date(symptoms, date);
    let fresh = symptoms_on(date, entries);
    lemma_symptoms_on(date, entries);
    lemma_without_date_twice(symptoms, date);
    lemma_dates_of_both(kept, fresh, date);
    lemma_all_of_date(fresh, date);
    assert(Seq::<Symptom>::empty() + fresh =~= fresh);
    assert(kept + Seq::<Symptom>::empty() =~= kept);
}

/// Dropping the symptoms of a date twice drops no more than dropping them
/// once, and leaves none of that date.
proof fn lemma_without_date_twice(symptoms: Seq<Symptom>, date: Date)
    ensures
        without_date(without_date(symptoms, date), date) == without_date(symptoms, date),
        on_date(without_date(symptoms, date), date) == Seq::<Symptom>::empty(),
    decreases symptoms.len(),
{
    if symptoms.len() > 0 {
        let front = symptoms.drop_last();
        lemma_without_date_twice(front, date);
        if symptoms.last().date != date {
            let kept = without_date(front, date);
            assert(kept.push(symptoms.last()).drop_last() =~= kept);
        }
    }
}

/// Whether the vault is the one a new user starts with: no cycles, no
/// observations, no symptoms, and the default settings.
pub open spec fn is_empty_vault(data: AppData) -> bool {
    &&& data.cycles@.len() == 0
    &&& data.day_logs@.len() == 0
    &&& data.symptoms@.len() == 0
    &&& data.settings == (AppSettings {
        auto_lock_minutes: 5,
        wipe_after_attempts: None,
        show_fertility: false,
    })
}

/// Whether the cycles of the vault are those that its observations give on
/// some day.
pub open spec fn in_step(data: AppData) -> bool {
    exists|today: Date| spans_of(data.cycles@) == #[trigger] rebuilt_spans(data.day_logs@, today)
}

/// Whether `after` is `before` with its cycles rebuilt on the day `today`.
pub open spec fn rebuilt(before: AppData, after: AppData, today: Date) -> bool {
    &&& spans_of(after.cycles@) == rebuilt_spans(before.day_logs@, today)
    &&& well_formed_spans(spans_of(after.cycles@))
    &&& after.day_logs == before.day_logs
    &&& after.symptoms == before.symptoms
    &&& after.settings == before.settings
}

/// The observations from `first` up to the day before `next`, in their
/// order.
pub open spec fn logs_between(logs: Seq<DayLog>, first: Date, next: Date) -> Seq<DayLog>
    decreases logs.len(),
{
    if logs.len() == 0 {
        Seq::empty()
    } else {
        let earlier = logs_between(logs.drop_last(), first, next);
        if first.days <= logs.last().date.days < next.days {
            earlier.push(logs.last())
        } else {
            earlier
        }
    }
}

/// The symptoms from `first` up to the day before `next`, in their order.
pub open spec fn symptoms_between(symptoms: Seq<Symptom>, first: Date, next: Date) -> Seq<Symptom>
    decreases symptoms.len(),
{
    if symptoms.len() == 0 {
        Seq::empty()
    } else {
        let earlier = symptoms_between(symptoms.drop_last(), first, next);
        if first.days <= symptoms.last().date.days < next.days {
            earlier.push(symptoms.last())
        } else {
            earlier
        }
    }
}

/// The first cycle of the list that has no end date.
pub open spec fn first_open(cycles: Seq<Cycle>) -> Option<Cycle>
    decreases cycles.len(),
{
    if cycles.len() == 0 {
        None
    } else {
        match first_open(cycles.drop_last()) {
            Some(cycle) => Some(cycle),
            None => if cycles.last().end_date is None {
                Some(cycles.last())
            } else {
                None
            },
        }
    }
}

/// The forecast as a list: one entry, or none.
pub open spec fn forecasts(cycles: Seq<Cycle>) -> Seq<Prediction> {
    match prediction_of(cycles) {
        Some(prediction) => seq![prediction],
        None => Seq::empty(),
    }
}

/// The first day of a month and the first day of the month after it, or
/// `None` where the calendar has no such month.
pub open spec fn month_bounds(year: i32, month: u32) -> Option<(Date, Date)> {
    match date_of(civil_day_number(year, month, 1)) {
        None => None,
        Some(first) => {
            let next = if month == 12 {
                if year < i32::MAX {
                    date_of(civil_day_number((year + 1) as i32, 1, 1))
                } else {
                    None
                }
            } else {
                if month < u32::MAX {
                    date_of(civil_day_number(year, (month + 1) as u32, 1))
                } else {
                    None
                }
            };
            match next {
                Some(next) => Some((first, next)),
                None => None,
            }
        },
    }
}

/// Whether `view` is what the vault shows for the month that starts on
/// `first` and ends the day before `next`: the observations and symptoms of
/// that month, and the forecast, the fertility window if it is to be shown,
/// the cycle in progress and the statistics, all from the whole cycle list.
pub open spec fn is_month_view(
    view: MonthData,
    data: AppData,
    year: i32,
    month: u32,
    first: Date,
    next: Date,
) -> bool {
    &&& view.year == year
    &&& view.month == month
    &&& view.day_logs@ == logs_between(data.day_logs@, first, next)
    &&& view.symptoms@ == symptoms_between(data.symptoms@, first, next)
    &&& view.predictions@ == forecasts(data.cycles@)
    &&& view.fertility == if data.settings.show_fertility {
        fertility_of(data.cycles@)
    } else {
        None
    }
    &&& view.current_cycle == first_open(data.cycles@)
    &&& view.stats == stats_of(data.cycles@)
}

impl AppState {
    /// Whether the cycles in memory are in step with the observations. A
    /// locked session holds neither.
    pub open spec fn in_step(&self) -> bool {
        self.session matches Session::Unlocked { data, .. } ==> in_step(data)
    }

    /// A locked session.
    pub fn new() -> (state: Self)
        ensures
            state.session is Locked,
            state.in_step(),
    {
        AppState { session: Session::Locked }
    }

    /// Locks the session: the passphrase is overwritten and dropped, and the
    /// vault is dropped from memory.
    pub fn lock(&mut self)
        ensures
            final(self).session is Locked,
    {
        let mut previous = Session::Locked;
        std::mem::swap(&mut self.session, &mut previous);
        match previous {
            Session::Unlocked { passphrase, data } => {
                let mut passphrase = passphrase;
                wipe_text(&mut passphrase);
            },
            Session::Locked => {},
        }
    }

    /// Seals `serialized`, the vault in its stored form, under the
    /// passphrase of the session and puts it in the vault file.
    ///
    /// A locked session has no passphrase, so nothing is written. An
    /// unlocked one writes whenever the passphrase and the payload are short
    /// enough to be sealed; where they are not, the file stays as it was.
    pub fn save_data(&self, serialized: &[u8], file: &mut VaultFile) -> (outcome: Result<
        (),
        CommandError,
    >)
        ensures
            self.session is Locked ==> (outcome matches Err(CommandError::Locked)) && *final(file)
                == *old(file),
            self.session matches Session::Unlocked { passphrase, .. } ==> {
                &&& outcome is Ok <==> can_seal(encode_utf8(passphrase@), serialized@)
                &&& outcome is Ok ==> (final(file).contents matches Some(container) && {
                    &&& container@.len() == SALT_LEN + NONCE_LEN + MAGIC_LEN + serialized@.len()
                        + TAG_LEN
                    &&& opened_container(encode_utf8(passphrase@), container@) == Ok::<
                        Seq<u8>,
                        CryptoError,
                    >(serialized@)
                })
                &&& outcome matches Err(e) ==> *final(file) == *old(file) && e
                    == CommandError::Storage(
                    StorageError::Crypto(
                        if encode_utf8(passphrase@).len() > KDF_MAX_INPUT_LEN {
                            CryptoError::KeyDerivation
                        } else {
                            CryptoError::Encryption
                        },
                    ),
                )
            },
    {
        match &self.session {
            Session::Locked => Err(CommandError::Locked),
            Session::Unlocked { passphrase, .. } => match save(
                passphrase.as_str(),
                serialized,
                file,
            ) {
                Ok(()) => Ok(()),
                Err(e) => Err(CommandError::Storage(e)),
            },
        }
    }
}

/// Whether the vault was set up before: whether there is a vault file.
pub fn is_setup(file: &VaultFile) -> (present: bool)
    ensures
        present == file.contents is Some,
{
    data_exists(file)
}

/// Starts a session on a new, empty vault under `passphrase`.
pub fn setup(passphrase: String, state: &mut AppState)
    ensures
        final(state).session matches Session::Unlocked { passphrase: held, data } && held
            == passphrase && is_empty_vault(data),
        final(state).in_step(),
{
    let data = AppData::default();
    proof {
        let today = Date { days: 0 };
        assert(spans_of(data.cycles@) =~= rebuilt_spans(data.day_logs@, today));
    }
    state.session = Session::Unlocked { passphrase, data };
}

/// Ends an attempt to unlock on the day `today`.
///
/// Where the vault was loaded, its cycles are rebuilt and the session holds
/// it with the passphrase; the answer is `true`. Where loading failed the
/// session stays as it was, and the answer is `false`.
pub fn unlock_on(
    passphrase: String,
    loaded: Result<AppData, StorageError>,
    today: Date,
    state: &mut AppState,
) -> (opened: bool)
    ensures
        opened == loaded is Ok,
        loaded is Err ==> *final(state) == *old(state),
        loaded matches Ok(stored) ==> (final(state).session matches Session::Unlocked {
            passphrase: held,
            data,
        } && held == passphrase && rebuilt(stored, data, today)),
        loaded is Ok || old(state).in_step() ==> final(state).in_step(),
{
    match loaded {
        Ok(stored) => {
            let mut data = stored;
            rebuild_cycles_on(&mut data, today);
            state.session = Session::Unlocked { passphrase, data };
            true
        },
        Err(_) => false,
    }
}

/// Ends an attempt to unlock today. Which day today is comes from the
/// clock, so the cycles are rebuilt for some day.
pub fn unlock(passphrase: String, loaded: Result<AppData, StorageError>, state: &mut AppState) -> (opened:
    bool)
    ensures
        opened == loaded is Ok,
        loaded is Err ==> *final(state) == *old(state),
        loaded matches Ok(stored) ==> (final(state).session matches Session::Unlocked {
            passphrase: held,
            data,
        } && held == passphrase && exists|today: Date| #[trigger] rebuilt(stored, data, today)),
        loaded is Ok || old(state).in_step() ==> final(state).in_step(),
{
    let today = Date::today();
    unlock_on(passphrase, loaded, today, state)
}

/// Locks the session.
pub fn lock(state: &mut AppState)
    ensures
        final(state).session is Locked,
{
    state.lock();
}

/// Writes `entry` in place of the first observation of its date, or at the
/// end where there is none.
fn upsert_log(logs: &mut Vec<DayLog>, entry: DayLog)
    ensures
        final(logs)@ == upserted(old(logs)@, entry),
{
    let mut at: usize = 0;
    while at < logs.len() && logs[at].date != entry.date
        invariant
            at <= logs.len(),
            logs@ == old(logs)@,
            forall|j: int| 0 <= j < at ==> logs@[j].date != entry.date,
        decreases logs.len() - at,
    {
        at += 1;
    }
    proof {
        lemma_position_of(logs@, entry.date, at as int);
    }
    if at < logs.len() {
        logs.set(at, entry);
    } else {
        logs.push(entry);
    }
}

/// The records of every kind but `kind`.
fn drop_kind(records: &Vec<Symptom>, kind: SymptomType) -> (kept: Vec<Symptom>)
    ensures
        kept@ == without_kind(records@, kind),
{
    let mut kept: Vec<Symptom> = Vec::new();
    let mut i: usize = 0;
    while i < records.len()
        invariant
            i <= records.len(),
            kept@ == without_kind(records@.take(i as int), kind),
        decreases records.len() - i,
    {
        proof {
            assert(records@.take(i + 1).drop_last() =~= records@.take(i as int));
            assert(records@.take(i + 1).last() == records@[i as int]);
        }
        if records[i].symptom_type != kind {
            kept.push(records[i]);
        }
        i += 1;
    }
    proof {
        assert(records@.take(records.len() as int) =~= records@);
    }
    kept
}

/// The records for `date` from the entries: one for each kind, from the
/// entry that names it last, each severity clamped.
fn records_on(date: Date, entries: &Vec<(SymptomType, u8)>) -> (records: Vec<Symptom>)
    ensures
        records@ == symptoms_on(date, entries@),
{
    let mut records: Vec<Symptom> = Vec::new();
    let mut k: usize = 0;
    while k < entries.len()
        invariant
            k <= entries.len(),
            records@ == symptoms_on(date, entries@.take(k as int)),
        decreases entries.len() - k,
    {
        proof {
            assert(entries@.take(k + 1).drop_last() =~= entries@.take(k as int));
            assert(entries@.take(k + 1).last() == entries@[k as int]);
        }
        let (symptom_type, severity) = entries[k];
        let severity = if severity < MIN_SEVERITY {
            MIN_SEVERITY
        } else if severity > MAX_SEVERITY {
            MAX_SEVERITY
        } else {
            severity
        };
        records = drop_kind(&records, symptom_type);
        records.push(Symptom { date, symptom_type, severity });
        k += 1;
    }
    proof {
        assert(entries@.take(entries.len() as int) =~= entries@);
    }
    records
}

/// Drops the symptoms of `date` and records `entries` for it.
fn replace_symptoms(symptoms: &mut Vec<Symptom>, date: Date, entries: &Vec<(SymptomType, u8)>)
    ensures
        final(symptoms)@ == replaced_symptoms(old(symptoms)@, date, entries@),
{
    let mut kept: Vec<Symptom> = Vec::new();
    let mut i: usize = 0;
    while i < symptoms.len()
        invariant
            i <= symptoms.len(),
            symptoms@ == old(symptoms)@,
            kept@ == without_date(symptoms@.take(i as int), date),
        decreases symptoms.len() - i,
    {
        proof {
            assert(symptoms@.take(i + 1).drop_last() =~= symptoms@.take(i as int));
            assert(symptoms@.take(i + 1).last() == symptoms@[i as int]);
        }
        if symptoms[i].date != date {
            kept.push(symptoms[i]);
        }
        i += 1;
    }
    proof {
        assert(symptoms@.take(symptoms.len() as int) =~= symptoms@);
    }
    let mut fresh = records_on(date, entries);
    kept.append(&mut fresh);
    *symptoms = kept;
}

/// Logs one day on the day `today`: the observation of `date` is written,
/// the symptoms of `date` are replaced by `symptoms`, and the cycles are
/// rebuilt. A locked session refuses and stays as it is.
pub fn log_day_on(
    date: Date,
    flow_level: FlowLevel,
    notes: String,
    symptoms: Vec<(SymptomType, u8)>,
    today: Date,
    state: &mut AppState,
) -> (outcome: Result<(), CommandError>)
    ensures
        old(state).session is Locked ==> (outcome matches Err(CommandError::Locked))
            && *final(state) == *old(state),
        old(state).session matches Session::Unlocked { passphrase, data } ==> outcome is Ok && (
        final(state).session matches Session::Unlocked { passphrase: held, data: after } && held
            == passphrase && logged(
            data,
            after,
            DayLog { date, flow_level, notes },
            symptoms@,
            today,
        )),
        outcome is Ok || old(state).in_step() ==> final(state).in_step(),
{
    match &mut state.session {
        Session::Locked => Err(CommandError::Locked),
        Session::Unlocked { passphrase: _, data } => {
            upsert_log(&mut data.day_logs, DayLog { date, flow_level, notes });
            replace_symptoms(&mut data.symptoms, date, &symptoms);
            rebuild_cycles_on(data, today);
            Ok(())
        },
    }
}

/// Logs one day today, with the date given as `YYYY-MM-DD`.
///
/// A date that does not read as one is refused first, in the words in which
/// the text was rejected. Then a locked
/// session refuses. Otherwise the day is logged as by [`log_day_on`], for
/// the day that the clock gives.
pub fn log_day(
    date: &str,
    flow_level: FlowLevel,
    notes: String,
    symptoms: Vec<(SymptomType, u8)>,
    state: &mut AppState,
) -> (outcome: Result<(), CommandError>)
    ensures
        date_in(date@) matches Err(reason) ==> (outcome matches Err(CommandError::InvalidDate(words))
            && words@ == reason) && *final(state) == *old(state),
        date_in(date@) is Ok && old(state).session is Locked ==> (
        outcome matches Err(CommandError::Locked)) && *final(state) == *old(state),
        date_in(date@) matches Ok(day) ==> (old(state).session matches Session::Unlocked {
            passphrase,
            data,
        } ==> outcome is Ok && (final(state).session matches Session::Unlocked {
            passphrase: held,
            data: after,
        } && held == passphrase && exists|today: Date| #[trigger]
            logged(data, after, DayLog { date: day, flow_level, notes }, symptoms@, today))),
        outcome is Ok || old(state).in_step() ==> final(state).in_step(),
{
    let day = match Date::read(date) {
        Ok(day) => day,
        Err(reason) => {
            return Err(CommandError::InvalidDate(reason));
        },
    };
    let today = Date::today();
    log_day_on(day, flow_level, notes, symptoms, today, state)
}


/// The first day of a month and of the month after it.
fn bounds_of_month(year: i32, month: u32) -> (bounds: Option<(Date, Date)>)
    ensures
        bounds == month_bounds(year, month),
{
    let first = match Date::from_ymd(year, month, 1) {
        Some(first) => first,
        None => {
            return None;
        },
    };
    let next = if month == 12 {
        match year.checked_add(1) {
            Some(following) => Date::from_ymd(following, 1, 1),
            None => None,
        }
    } else {
        match month.checked_add(1) {
            Some(following) => Date::from_ymd(year, following, 1),
            None => None,
        }
    };
    match next {
        Some(next) => Some((first, next)),
        None => None,
    }
}

/// The observations from `first` up to the day before `next`.
fn logs_in(logs: &Vec<DayLog>, first: Date, next: Date) -> (found: Vec<DayLog>)
    ensures
        found@ == logs_between(logs@, first, next),
{
    let mut found: Vec<DayLog> = Vec::new();
    let mut i: usize = 0;
    while i < logs.len()
        invariant
            i <= logs.len(),
            found@ == logs_between(logs@.take(i as int), first, next),
        decreases logs.len() - i,
    {
        proof {
            assert(logs@.take(i + 1).drop_last() =~= logs@.take(i as int));
            assert(logs@.take(i + 1).last() == logs@[i as int]);
        }
        if first.days <= logs[i].date.days && logs[i].date.days < next.days {
            found.push(
                DayLog {
                    date: logs[i].date,
                    flow_level: logs[i].flow_level,
                    notes: logs[i].notes.clone(),
                },
            );
        }
        i += 1;
    }
    proof {
        assert(logs@.take(logs.len() as int) =~= logs@);
    }
    found
}

/// The symptoms from `first` up to the day before `next`.
fn symptoms_in(symptoms: &Vec<Symptom>, first: Date, next: Date) -> (found: Vec<Symptom>)
    ensures
        found@ == symptoms_between(symptoms@, first, next),
{
    let mut found: Vec<Symptom> = Vec::new();
    let mut i: usize = 0;
    while i < symptoms.len()
        invariant
            i <= symptoms.len(),
            found@ == symptoms_between(symptoms@.take(i as int), first, next),
        decreases symptoms.len() - i,
    {
        proof {
            assert(symptoms@.take(i + 1).drop_last() =~= symptoms@.take(i as int));
            assert(symptoms@.take(i + 1).last() == symptoms@[i as int]);
        }
        if first.days <= symptoms[i].date.days && symptoms[i].date.days < next.days {
            found.push(symptoms[i]);
        }
        i += 1;
    }
    proof {
        assert(symptoms@.take(symptoms.len() as int) =~= symptoms@);
    }
    found
}

/// The first cycle without an end date.
fn open_cycle(cycles: &Vec<Cycle>) -> (found: Option<Cycle>)
    ensures
        found == first_open(cycles@),
{
    let mut found: Option<Cycle> = None;
    let mut i: usize = 0;
    while i < cycles.len()
        invariant
            i <= cycles.len(),
            found == first_open(cycles@.take(i as int)),
        decreases cycles.len() - i,
    {
        proof {
            assert(cycles@.take(i + 1).drop_last() =~= cycles@.take(i as int));
            assert(cycles@.take(i + 1).last() == cycles@[i as int]);
        }
        if found.is_none() && cycles[i].end_date.is_none() {
            found = Some(cycles[i]);
        }
        i += 1;
    }
    proof {
        assert(cycles@.take(cycles.len() as int) =~= cycles@);
    }
    found
}

/// The forecast as a list of one entry or none.
fn forecast_list(cycles: &Vec<Cycle>) -> (list: Vec<Prediction>)
    ensures
        list@ == forecasts(cycles@),
{
    let mut list: Vec<Prediction> = Vec::new();
    match predict(cycles.as_slice()) {
        Some(prediction) => {
            list.push(prediction);
            assert(list@ =~= seq![prediction]);
        },
        None => {},
    }
    list
}

/// What the vault shows for the month that starts on `first` and ends the
/// day before `next`.
pub fn month_view(data: &AppData, year: i32, month: u32, first: Date, next: Date) -> (view:
    MonthData)
    ensures
        is_month_view(view, *data, year, month, first, next),
{
    let fertility = if data.settings.show_fertility {
        fertility_window(data.cycles.as_slice())
    } else {
        None
    };
    MonthData {
        year,
        month,
        day_logs: logs_in(&data.day_logs, first, next),
        symptoms: symptoms_in(&data.symptoms, first, next),
        predictions: forecast_list(&data.cycles),
        fertility,
        current_cycle: open_cycle(&data.cycles),
        stats: cycle_stats(data.cycles.as_slice()),
    }
}

/// What the vault shows for a month.
///
/// A locked session refuses. So does a month that the calendar does not
/// have.
pub fn get_month(year: i32, month: u32, state: &AppState) -> (outcome: Result<
    MonthData,
    CommandError,
>)
    ensures
        state.session is Locked ==> outcome matches Err(CommandError::Locked),
        state.session matches Session::Unlocked { data, .. } ==> match month_bounds(year, month) {
            None => outcome matches Err(CommandError::InvalidDate(words)) && words@
                == "invalid date"@,
            Some((first, next)) => outcome matches Ok(view) && is_month_view(
                view,
                data,
                year,
                month,
                first,
                next,
            ),
        },
{
    match &state.session {
        Session::Locked => Err(CommandError::Locked),
        Session::Unlocked { data, .. } => match bounds_of_month(year, month) {
            None => Err(CommandError::InvalidDate("invalid date".to_owned())),
            Some((first, next)) => Ok(month_view(data, year, month, first, next)),
        },
    }
}

/// The forecast, as a list of one entry or none. A locked session refuses.
pub fn get_predictions(state: &AppState) -> (outcome: Result<Vec<Prediction>, CommandError>)
    ensures
        state.session is Locked ==> outcome matches Err(CommandError::Locked),
        state.session matches Session::Unlocked { data, .. } ==> outcome matches Ok(list) && list@
            == forecasts(data.cycles@),
{
    match &state.session {
        Session::Locked => Err(CommandError::Locked),
        Session::Unlocked { data, .. } => Ok(forecast_list(&data.cycles)),
    }
}

/// The statistics over all completed cycles. A locked session refuses.
pub fn get_stats(state: &AppState) -> (outcome: Result<CycleStats, CommandError>)
    ensures
        state.session is Locked ==> outcome matches Err(CommandError::Locked),
        state.session matches Session::Unlocked { data, .. } ==> outcome matches Ok(stats) && stats
            == stats_of(data.cycles@),
{
    match &state.session {
        Session::Locked => Err(CommandError::Locked),
        Session::Unlocked { data, .. } => Ok(cycle_stats(data.cycles.as_slice())),
    }
}

/// Switches the display of the fertility window on or off. Nothing else
/// changes. A locked session refuses and stays as it is.
pub fn toggle_fertility(enabled: bool, state: &mut AppState) -> (outcome: Result<(), CommandError>)
    ensures
        old(state).session is Locked ==> (outcome matches Err(CommandError::Locked))
            && *final(state) == *old(state),
        old(state).session matches Session::Unlocked { passphrase, data } ==> outcome is Ok
            && final(state).session == (Session::Unlocked {
            passphrase,
            data: AppData {
                settings: AppSettings { show_fertility: enabled, ..data.settings },
                ..data
            },
        }),
        old(state).in_step() ==> final(state).in_step(),
{
    let outcome = match &mut state.session {
        Session::Locked => Err(CommandError::Locked),
        Session::Unlocked { passphrase: _, data } => {
            data.settings.show_fertility = enabled;
            Ok(())
        },
    };
    proof {
        if old(state).in_step() && old(state).session is Unlocked {
            let before = old(state).session->data;
            let after = state.session->data;
            let today = choose|today: Date|
                spans_of(before.cycles@) == #[trigger] rebuilt_spans(before.day_logs@, today);
            assert(spans_of(after.cycles@) == rebuilt_spans(after.day_logs@, today));
        }
    }
    outcome
}

/// Sets the time after which the vault locks itself, brought into the
/// range from [`MIN_AUTO_LOCK_MINUTES`] to [`MAX_AUTO_LOCK_MINUTES`].
/// Nothing else changes. A locked session refuses and stays as it is.
pub fn update_settings(auto_lock_minutes: u32, state: &mut AppState) -> (outcome: Result<
    (),
    CommandError,
>)
    ensures
        old(state).session is Locked ==> (outcome matches Err(CommandError::Locked))
            && *final(state) == *old(state),
        old(state).session matches Session::Unlocked { passphrase, data } ==> outcome is Ok
            && final(state).session == (Session::Unlocked {
            passphrase,
            data: AppData {
                settings: AppSettings {
                    auto_lock_minutes: clamped_minutes(auto_lock_minutes),
                    ..data.settings
                },
                ..data
            },
        }),
        old(state).in_step() ==> final(state).in_step(),
{
    let outcome = match &mut state.session {
        Session::Locked => Err(CommandError::Locked),
        Session::Unlocked { passphrase: _, data } => {
            data.settings.auto_lock_minutes = if auto_lock_minutes < MIN_AUTO_LOCK_MINUTES {
                MIN_AUTO_LOCK_MINUTES
            } else if auto_lock_minutes > MAX_AUTO_LOCK_MINUTES {
                MAX_AUTO_LOCK_MINUTES
            } else {
                auto_lock_minutes
            };
            Ok(())
        },
    };
    proof {
        if old(state).in_step() && old(state).session is Unlocked {
            let before = old(state).session->data;
            let after = state.session->data;
            let today = choose|today: Date|
                spans_of(before.cycles@) == #[trigger] rebuilt_spans(before.day_logs@, today);
            assert(spans_of(after.cycles@) == rebuilt_spans(after.day_logs@, today));
        }
    }
    outcome
}

/// The vault as it is to be exported. A locked session refuses.
pub fn export_data(state: &AppState) -> (outcome: Result<&AppData, CommandError>)
    ensures
        state.session is Locked ==> outcome matches Err(CommandError::Locked),
        state.session matches Session::Unlocked { data, .. } ==> outcome matches Ok(exported)
            && *exported == data,
{
    match &state.session {
        Session::Locked => Err(CommandError::Locked),
        Session::Unlocked { data, .. } => Ok(data),
    }
}

/// Locks the session and removes the vault file.
pub fn wipe_all_data(state: &mut AppState, file: &mut VaultFile)
    ensures
        final(state).session is Locked,
        final(file).contents is None,
{
    state.lock();
    wipe(file);
}

/// The settings of the vault. A locked session refuses.
pub fn get_settings(state: &AppState) -> (outcome: Result<AppSettings, CommandError>)
    ensures
        state.session is Locked ==> outcome matches Err(CommandError::Locked),
        state.session matches Session::Unlocked { data, .. } ==> outcome matches Ok(settings)
            && settings == data.settings,
{
    match &state.session {
        Session::Locked => Err(CommandError::Locked),
        Session::Unlocked { data, .. } => Ok(data.settings),
    }
}

} // verus!
