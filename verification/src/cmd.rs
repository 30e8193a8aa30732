//! The tariff registry: bank holidays, base counters, and the hour table.

use std::collections::hash_map::HashMap;
use vstd::prelude::*;
use vstd::std_specs::hash::group_hash_axioms;
use crate::error::{Fault, ParseError};
use crate::gather::{gather, gathered_before_fault, lemma_fault_stays, lemma_gather_step};
use crate::holidays::BankHolidays;
use crate::text::string_views;
use crate::utils::{counter_list, date_list, parse_counter_list, parse_date_list};

verus! {

broadcast use group_hash_axioms;

/// A time window `(period, start, end)` lies within the day: it starts at one of
/// the hours 0 to 23 and ends at an hour 0 to 24, where 24 is the end of the day.
pub open spec fn is_time_window(window: (u8, u8, u8)) -> bool {
    window.1 < 24 && window.2 <= 24
}

/// Every window of the list lies within the day.
pub open spec fn are_time_windows(windows: Seq<(u8, u8, u8)>) -> bool {
    forall|i: int| 0 <= i < windows.len() ==> is_time_window(#[trigger] windows[i])
}

/// The window is active during `hour`. A window whose end is not before its
/// start runs from start to end, the end excluded. One whose end is before its
/// start wraps past midnight: it runs from start to the end of the day and from
/// the beginning of the day to end.
pub open spec fn window_covers(window: (u8, u8, u8), hour: int) -> bool {
    if window.1 <= window.2 {
        window.1 <= hour < window.2
    } else {
        window.1 <= hour < 24 || 0 <= hour < window.2
    }
}

/// The period of `hour`: that of the last window in the list that covers the
/// hour, and 0 where none does.
pub open spec fn period_at(windows: Seq<(u8, u8, u8)>, hour: int) -> u8
    decreases windows.len(),
{
    if windows.len() == 0 {
        0
    } else if window_covers(windows.last(), hour) {
        windows.last().0
    } else {
        period_at(windows.drop_last(), hour)
    }
}

/// The table of the 24 hours of the day, each with its period.
pub open spec fn period_table(windows: Seq<(u8, u8, u8)>) -> Seq<u8> {
    Seq::new(24, |hour: int| period_at(windows, hour))
}

/// Where a window covers an hour and no later window does, the hour has that
/// window's period: the last window that touches an hour wins.
pub proof fn lemma_last_window_wins(windows: Seq<(u8, u8, u8)>, i: int, hour: int)
    requires
        0 <= i < windows.len(),
        window_covers(windows[i], hour),
        forall|j: int| i < j < windows.len() ==> !window_covers(windows[j], hour),
    ensures
        period_at(windows, hour) == windows[i].0,
    decreases windows.len(),
{
    if i < windows.len() - 1 {
        let front = windows.drop_last();
        lemma_last_window_wins(front, i, hour);
    }
}

/// An hour that no window covers has period 0.
pub proof fn lemma_uncovered_hour(windows: Seq<(u8, u8, u8)>, hour: int)
    requires
        forall|j: int| 0 <= j < windows.len() ==> !window_covers(windows[j], hour),
    ensures
        period_at(windows, hour) == 0,
    decreases windows.len(),
{
    if windows.len() > 0 {
        let front = windows.drop_last();
        lemma_uncovered_hour(front, hour);
    }
}

/// Whether every window of the list lies within the day.
pub fn check_time_windows(windows: &Vec<(u8, u8, u8)>) -> (ok: bool)
    ensures
        ok == are_time_windows(windows@),
{
    let mut i: usize = 0;
    while i < windows.len()
        invariant
            i <= windows.len(),
            forall|j: int| 0 <= j < i ==> is_time_window(#[trigger] windows[j]),
        decreases windows.len() - i,
    {
        let w = windows[i];
        if w.1 >= 24 || w.2 > 24 {
            return false;
        }
        i += 1;
    }
    true
}

/// Gives the hours from `from` up to `to`, `to` excluded, the period `period`.
fn fill_hours(table: &mut [u8; 24], period: u8, from: u8, to: u8)
    requires
        to <= 24,
    ensures
        forall|hour: int|
            from <= hour < to ==> #[trigger] final(table)@[hour] == period,
        forall|hour: int|
            0 <= hour < 24 && !(from <= hour < to) ==> #[trigger] final(table)@[hour] == old(
                table,
            )@[hour],
{
    let ghost start = table@;
    let mut hour: u8 = from;
    while hour < to
        invariant
            to <= 24,
            from <= hour,
            hour <= to || hour == from,
            start.len() == 24,
            forall|h: int| from <= h < hour ==> #[trigger] table@[h] == period,
            forall|h: int| 0 <= h < 24 && !(from <= h < hour) ==> #[trigger] table@[h] == start[h],
        decreases to - hour,
    {
        table[hour as usize] = period;
        hour += 1;
    }
}

/// What a registry holds, as mathematics.
pub struct CmdView {
    /// The bank holidays: a set, so a date is in it once or not at all.
    pub bank_holidays: Set<Seq<char>>,
    /// The period whose rate applies on bank holidays.
    pub period_bank_holidays: u8,
    /// The base counter of each period that has one.
    pub counters: Map<u8, u64>,
    /// The period of each of the 24 hours of the day.
    pub periods_times: Seq<u8>,
}

/// The registry of a tariff: the bank holidays, the base counter of each period,
/// and the period of each hour of the day.
pub struct Cmd {
    bank_holidays: BankHolidays,
    period_bank_holidays: u8,
    counters: HashMap<u8, u64>,
    periods_times: [u8; 24],
}

/// The counters after the pairs `(period, counter)` were written into `counters`
/// one after the other: a later pair replaces an earlier one of the same period.
pub open spec fn counters_after(counters: Map<u8, u64>, pairs: Seq<(u8, u64)>) -> Map<u8, u64>
    decreases pairs.len(),
{
    if pairs.len() == 0 {
        counters
    } else {
        counters_after(counters, pairs.drop_last()).insert(pairs.last().0, pairs.last().1)
    }
}

/// Writing `first` and then `second` is writing the two lists as one.
pub proof fn lemma_counters_after_concat(
    counters: Map<u8, u64>,
    first: Seq<(u8, u64)>,
    second: Seq<(u8, u64)>,
)
    ensures
        counters_after(counters_after(counters, first), second) == counters_after(
            counters,
            first + second,
        ),
    decreases second.len(),
{
    if second.len() == 0 {
    } else {
        lemma_counters_after_concat(counters, first, second.drop_last());
        assert((first + second).drop_last() == first + second.drop_last());
    }
}

/// Of the counters written for one period the last one counts.
pub proof fn lemma_last_counter_wins(counters: Map<u8, u64>, pairs: Seq<(u8, u64)>, i: int)
    requires
        0 <= i < pairs.len(),
        forall|j: int| i < j < pairs.len() ==> pairs[j].0 != pairs[i].0,
    ensures
        counters_after(counters, pairs).contains_key(pairs[i].0),
        counters_after(counters, pairs)[pairs[i].0] == pairs[i].1,
    decreases pairs.len(),
{
    if i < pairs.len() - 1 {
        let front = pairs.drop_last();
        lemma_last_counter_wins(counters, front, i);
    }
}

/// A period for which no counter is written keeps the counter it had, or stays
/// without one.
pub proof fn lemma_other_counters_stay(counters: Map<u8, u64>, pairs: Seq<(u8, u64)>, period: u8)
    requires
        forall|j: int| 0 <= j < pairs.len() ==> pairs[j].0 != period,
    ensures
        counters_after(counters, pairs).contains_key(period) == counters.contains_key(period),
        counters.contains_key(period) ==> counters_after(counters, pairs)[period]
            == counters[period],
    decreases pairs.len(),
{
    if pairs.len() > 0 {
        let front = pairs.drop_last();
        lemma_other_counters_stay(counters, front, period);
    }
}

/// Dates that are registered already, or that stand earlier among the dates
/// being registered, add nothing: the set holds each date once.
pub proof fn lemma_repeated_dates_add_nothing(
    holidays: Set<Seq<char>>,
    dates: Seq<Seq<char>>,
    again: Seq<Seq<char>>,
)
    requires
        forall|k: int|
            0 <= k < again.len() ==> holidays.contains(#[trigger] again[k]) || dates.contains(
                again[k],
            ),
    ensures
        holidays.union((dates + again).to_set()) == holidays.union(dates.to_set()),
{
    let more = holidays.union((dates + again).to_set());
    let less = holidays.union(dates.to_set());
    assert forall|date: Seq<char>| more.contains(date) == less.contains(date) by {
        if dates.to_set().contains(date) {
            let k = choose|k: int| 0 <= k < dates.len() && dates[k] == date;
            assert((dates + again)[k] == date);
        }
    }
}

/// The outcomes of raw date lists, one per string and in order.
pub open spec fn date_lists(raw: Seq<Seq<char>>) -> Seq<Result<Seq<Seq<char>>, Fault>> {
    Seq::new(raw.len(), |i: int| date_list(raw[i]))
}

/// The outcomes of raw counter lists, one per string and in order.
pub open spec fn counter_lists(raw: Seq<Seq<char>>) -> Seq<Result<Seq<(u8, u64)>, Fault>> {
    Seq::new(raw.len(), |i: int| counter_list(raw[i]))
}

impl View for Cmd {
    type V = CmdView;

    closed spec fn view(&self) -> CmdView {
        CmdView {
            bank_holidays: self.bank_holidays@,
            period_bank_holidays: self.period_bank_holidays,
            counters: self.counters@,
            periods_times: self.periods_times@,
        }
    }
}

impl Cmd {
    /// The table that gives each hour of the day its period, from the windows
    /// `(period, start, end)` in the order given: a later window overwrites an
    /// earlier one, and an hour that no window covers has period 0.
    pub fn index_period_times(time_windows: Vec<(u8, u8, u8)>) -> (table: [u8; 24])
        requires
            are_time_windows(time_windows@),
        ensures
            table@ == period_table(time_windows@),
    {
        let mut table: [u8; 24] = [0;24];
        let mut i: usize = 0;
        while i < time_windows.len()
            invariant
                i <= time_windows.len(),
                are_time_windows(time_windows@),
                forall|hour: int|
                    0 <= hour < 24 ==> #[trigger] table@[hour] == period_at(
                        time_windows@.take(i as int),
                        hour,
                    ),
            decreases time_windows.len() - i,
        {
            let (period, start, end) = time_windows[i];
            proof {
                assert(time_windows@.take(i + 1).drop_last() == time_windows@.take(i as int));
            }
            if end < start {
                fill_hours(&mut table, period, start, 24);
                fill_hours(&mut table, period, 0, end);
            } else {
                fill_hours(&mut table, period, start, end);
            }
            i += 1;
        }
        proof {
            assert(time_windows@.take(i as int) == time_windows@);
        }
        table
    }

    /// A registry without bank holidays and without counters, for the given time
    /// windows and the period that applies on bank holidays.
    pub fn new(time_windows: Vec<(u8, u8, u8)>, period_bank_holidays: u8) -> (cmd: Cmd)
        requires
            are_time_windows(time_windows@),
        ensures
            cmd@ == (CmdView {
                bank_holidays: Set::empty(),
                period_bank_holidays,
                counters: Map::empty(),
                periods_times: period_table(time_windows@),
            }),
    {
        Cmd {
            bank_holidays: BankHolidays::new(),
            period_bank_holidays,
            counters: HashMap::new(),
            periods_times: Self::index_period_times(time_windows),
        }
    }

    /// Registers the base counter of each period. Where a period comes more than
    /// once, its last counter counts; a period that has a counter already gets
    /// the new one.
    pub fn with_counters(&mut self, periods: Vec<(u8, u64)>)
        ensures
            final(self)@ == (CmdView {
                counters: counters_after(old(self)@.counters, periods@),
                ..old(self)@
            }),
    {
        let mut i: usize = 0;
        while i < periods.len()
            invariant
                i <= periods.len(),
                self.bank_holidays == old(self).bank_holidays,
                self.period_bank_holidays == old(self).period_bank_holidays,
                self.periods_times == old(self).periods_times,
                self.counters@ == counters_after(old(self).counters@, periods@.take(i as int)),
            decreases periods.len() - i,
        {
            let (period, counter) = periods[i];
            proof {
                assert(periods@.take(i + 1).drop_last() == periods@.take(i as int));
            }
            self.counters.insert(period, counter);
            i += 1;
        }
        proof {
            assert(periods@.take(i as int) == periods@);
        }
    }

    /// Registers bank holidays from raw date lists, taken in order.
    ///
    /// A string that is no date list ends the call with its fault: the dates of
    /// the strings before it are registered, nothing of that string or of those
    /// after it is. A date that is registered already, or that comes more than
    /// once, is in the set once.
    pub fn with_bank_holidays(&mut self, dates: Vec<String>) -> (out: Result<(), ParseError>)
        ensures
            final(self)@ == (CmdView {
                bank_holidays: old(self)@.bank_holidays.union(
                    gathered_before_fault(date_lists(string_views(dates@))).to_set(),
                ),
                ..old(self)@
            }),
            match out {
                Ok(_) => gather(date_lists(string_views(dates@))) is Ok,
                Err(e) => gather(date_lists(string_views(dates@))) == Err::<Seq<Seq<char>>, Fault>(
                    e@,
                ),
            },
    {
        let ghost results = date_lists(string_views(dates@));
        let ghost mut added: Seq<Seq<char>> = Seq::empty();
        let mut i: usize = 0;
        while i < dates.len()
            invariant
                i <= dates.len(),
                results == date_lists(string_views(dates@)),
                self.period_bank_holidays == old(self).period_bank_holidays,
                self.counters == old(self).counters,
                self.periods_times == old(self).periods_times,
                gather(results.take(i as int)) == Ok::<Seq<Seq<char>>, Fault>(added),
                gathered_before_fault(results.take(i as int)) == added,
                self.bank_holidays@ == old(self).bank_holidays@.union(added.to_set()),
            decreases dates.len() - i,
        {
            proof {
                lemma_gather_step(results, i as int);
            }
            match parse_date_list(dates[i].as_str()) {
                Err(e) => {
                    proof {
                        lemma_fault_stays(results, i + 1);
                    }
                    return Err(e);
                },
                Ok(days) => {
                    let ghost head = added;
                    let mut j: usize = 0;
                    while j < days.len()
                        invariant
                            j <= days.len(),
                            self.period_bank_holidays == old(self).period_bank_holidays,
                            self.counters == old(self).counters,
                            self.periods_times == old(self).periods_times,
                            added == head + string_views(days@).take(j as int),
                            self.bank_holidays@ == old(self).bank_holidays@.union(added.to_set()),
                        decreases days.len() - j,
                    {
                        let day = days[j].clone();
                        self.bank_holidays.insert(day);
                        proof {
                            added.lemma_push_to_set_commute(day@);
                            assert(old(self).bank_holidays@.union(added.to_set()).insert(day@)
                                == old(self).bank_holidays@.union(added.to_set().insert(day@)));
                            added = added.push(day@);
                        }
                        j += 1;
                    }
                    proof {
                        assert(string_views(days@).take(j as int) == string_views(days@));
                    }
                },
            }
            i += 1;
        }
        proof {
            assert(results.take(i as int) == results);
        }
        Ok(())
    }

    /// Registers base counters from raw counter lists, taken in order.
    ///
    /// A string that is no counter list ends the call with its fault: the pairs
    /// of the strings before it are registered, nothing of that string or of
    /// those after it is. Of two counters for one period the later one counts.
    pub fn with_counter_lists(&mut self, lists: Vec<String>) -> (out: Result<(), ParseError>)
        ensures
            final(self)@ == (CmdView {
                counters: counters_after(
                    old(self)@.counters,
                    gathered_before_fault(counter_lists(string_views(lists@))),
                ),
                ..old(self)@
            }),
            match out {
                Ok(_) => gather(counter_lists(string_views(lists@))) is Ok,
                Err(e) => gather(counter_lists(string_views(lists@))) == Err::<
                    Seq<(u8, u64)>,
                    Fault,
                >(e@),
            },
    {
        let ghost results = counter_lists(string_views(lists@));
        let ghost mut written: Seq<(u8, u64)> = Seq::empty();
        let mut i: usize = 0;
        while i < lists.len()
            invariant
                i <= lists.len(),
                results == counter_lists(string_views(lists@)),
                gather(results.take(i as int)) == Ok::<Seq<(u8, u64)>, Fault>(written),
                gathered_before_fault(results.take(i as int)) == written,
                self@ == (CmdView {
                    counters: counters_after(old(self)@.counters, written),
                    ..old(self)@
                }),
            decreases lists.len() - i,
        {
            proof {
                lemma_gather_step(results, i as int);
            }
            match parse_counter_list(lists[i].as_str()) {
                Err(e) => {
                    proof {
                        lemma_fault_stays(results, i + 1);
                    }
                    return Err(e);
                },
                Ok(pairs) => {
                    proof {
                        lemma_counters_after_concat(old(self).counters@, written, pairs@);
                        written = written + pairs@;
                    }
                    self.with_counters(pairs);
                },
            }
            i += 1;
        }
        proof {
            assert(results.take(i as int) == results);
        }
        Ok(())
    }

    /// The period whose rate applies on bank holidays.
    pub fn period_bank_holidays(&self) -> (period: u8)
        ensures
            period == self@.period_bank_holidays,
    {
        self.period_bank_holidays
    }

    /// The period of each of the 24 hours of the day.
    pub fn periods_times(&self) -> (table: [u8; 24])
        ensures
            table@ == self@.periods_times,
    {
        self.periods_times
    }

    /// The number of bank holidays registered.
    pub fn bank_holidays_len(&self) -> (n: usize)
        ensures
            self@.bank_holidays.finite(),
            n == self@.bank_holidays.len(),
    {
        self.bank_holidays.len()
    }

    /// Whether `date` is registered as a bank holiday.
    pub fn is_bank_holiday(&self, date: &str) -> (found: bool)
        ensures
            found == self@.bank_holidays.contains(date@),
    {
        self.bank_holidays.contains(date)
    }

    /// The number of periods that have a base counter.
    pub fn counters_len(&self) -> (n: usize)
        ensures
            self@.counters.dom().finite(),
            n == self@.counters.len(),
    {
        self.counters.len()
    }

    /// The base counter of `period`, where it has one.
    pub fn counter(&self, period: u8) -> (found: Option<u64>)
        ensures
            found == if self@.counters.contains_key(period) {
                Some(self@.counters[period])
            } else {
                None
            },
    {
        match self.counters.get(&period) {
            Some(counter) => Some(*counter),
            None => None,
        }
    }
}

} // verus!
