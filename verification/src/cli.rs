//! What the command line hands over: the arguments, and the validator of the
//! bank-holiday flag.

use vstd::prelude::*;
use vstd::string::*;
use crate::cmd::{are_time_windows, period_at, period_table, window_covers};
use crate::error::{Fault, ParseError};
use crate::utils::unit_dates;

verus! {

/// The arguments of the command-line application.
pub struct App {
    /// The bank holidays in the period of time that the CSV file covers, each as
    /// `yyyy-mm-dd` or, for several days of one month, `yyyy-mm-dd,dd,..`.
    pub bank_holidays: Option<Vec<String>>,
    /// The meter counters to start from, by period, before the first date of
    /// the CSV file. A period that is missing starts from 0; of a period given
    /// more than once the last counter counts.
    pub base_meter_counter: Option<Vec<(u8, u64)>>,
    /// The path of the CSV file.
    pub csv_filepath: String,
    /// The time windows `(period, start hour, end hour)` that the electric
    /// company rates differently.
    pub time_windows: Vec<(u8, u8, u8)>,
}

/// The time windows in use where none are given: period 1 from 10 to 14 and from
/// 18 to 22, period 2 from 8 to 10, from 14 to 18 and from 22 to midnight, period
/// 3 from midnight to 8.
pub open spec fn default_windows() -> Seq<(u8, u8, u8)> {
    seq![
        (1u8, 10u8, 14u8),
        (1u8, 18u8, 22u8),
        (2u8, 8u8, 10u8),
        (2u8, 14u8, 18u8),
        (2u8, 22u8, 0u8),
        (3u8, 0u8, 8u8),
    ]
}

/// The time windows in use where none are given.
pub fn default_time_windows() -> (windows: Vec<(u8, u8, u8)>)
    ensures
        windows@ == default_windows(),
        are_time_windows(windows@),
{
    let mut windows: Vec<(u8, u8, u8)> = Vec::new();
    windows.push((1, 10, 14));
    windows.push((1, 18, 22));
    windows.push((2, 8, 10));
    windows.push((2, 14, 18));
    windows.push((2, 22, 0));
    windows.push((3, 0, 8));
    windows
}

/// With the default windows the hours 0 to 7 have period 3, 8 and 9 period 2,
/// 10 to 13 period 1, 14 to 17 period 2, 18 to 21 period 1, 22 and 23 period 2.
pub proof fn lemma_default_table()
    ensures
        period_table(default_windows()) == seq![
            3u8, 3u8, 3u8, 3u8, 3u8, 3u8, 3u8, 3u8, 2u8, 2u8, 1u8, 1u8,
            1u8, 1u8, 2u8, 2u8, 2u8, 2u8, 1u8, 1u8, 1u8, 1u8, 2u8, 2u8,
        ],
{
    let w6 = default_windows();
    let w5 = w6.drop_last();
    let w4 = w5.drop_last();
    let w3 = w4.drop_last();
    let w2 = w3.drop_last();
    let w1 = w2.drop_last();
    let w0 = w1.drop_last();
    assert forall|hour: int| 0 <= hour < 24 implies period_at(w6, hour) == if hour < 8 {
        3u8
    } else if hour < 10 {
        2u8
    } else if hour < 14 {
        1u8
    } else if hour < 18 {
        2u8
    } else if hour < 22 {
        1u8
    } else {
        2u8
    } by {
        assert(period_at(w1, hour) == if window_covers(w1.last(), hour) {
            1u8
        } else {
            period_at(w0, hour)
        });
        assert(period_at(w2, hour) == if window_covers(w2.last(), hour) {
            1u8
        } else {
            period_at(w1, hour)
        });
        assert(period_at(w3, hour) == if window_covers(w3.last(), hour) {
            2u8
        } else {
            period_at(w2, hour)
        });
        assert(period_at(w4, hour) == if window_covers(w4.last(), hour) {
            2u8
        } else {
            period_at(w3, hour)
        });
        assert(period_at(w5, hour) == if window_covers(w5.last(), hour) {
            2u8
        } else {
            period_at(w4, hour)
        });
    }
    assert(period_table(default_windows()) =~= seq![
        3u8, 3u8, 3u8, 3u8, 3u8, 3u8, 3u8, 3u8, 2u8, 2u8, 1u8, 1u8,
        1u8, 1u8, 2u8, 2u8, 2u8, 2u8, 1u8, 1u8, 1u8, 1u8, 2u8, 2u8,
    ]);
}

/// Validates one value of the bank-holiday flag: a date `yyyy-mm-dd` that may be
/// followed by more days of the same month, each after a comma. A valid value is
/// handed back as it was given.
pub fn parse_date_multiple_days(s: &str) -> (out: Result<String, ParseError>)
    ensures
        match out {
            Ok(kept) => unit_dates(s@) is Ok && kept@ == s@,
            Err(e) => unit_dates(s@) == Err::<Seq<Seq<char>>, Fault>(e@),
        },
{
    match crate::utils::parse_date_multiple_days(s) {
        Ok(_) => Ok(String::from_str(s)),
        Err(e) => Err(e),
    }
}

} // verus!
