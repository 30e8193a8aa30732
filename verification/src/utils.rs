//! The two mini-languages: bank-holiday dates and base meter counters.
//!
//! A list of dates is `unit (";" unit)*` with `unit := yyyy-mm-dd ("," dd)*`; a
//! list of counters is `pair ("," pair)*` with `pair := "p" digit "=" uint`.
//! Parsing fails on the first segment that breaks a rule and never hands back a
//! part of a list.

use vstd::prelude::*;
use vstd::string::*;
use crate::calendar::{
    date_accepted, date_or_fault, is_calendar_date, is_date, is_iso_date, is_iso_shaped, iso_month,
    iso_year,
};
use crate::error::{Fault, ParseError, ParseErrorKind};
use crate::gather::{
    chain, gather, lemma_fault_stays, lemma_gather_concat, lemma_gather_ok, lemma_gather_one,
    lemma_gather_singletons, lemma_gather_step,
};
use crate::text::{
    chars_of, digit_of, digit_value, find_char, first_index_of, has_empty_piece,
    has_stray_separator, is_digit, lemma_first_index_is, lemma_split_concat, lemma_split_pieces,
    lemma_split_without_sep, lemma_stray_separator, parse_uint, slice_views, split_on, split_str,
    string_views, uint_value,
};

verus! {

/// The year and month that the days of a unit share, with the hyphen that
/// follows them: `yyyy-mm-`, taken from the unit's first field.
pub open spec fn year_month_prefix(first: Seq<char>) -> Seq<char> {
    let parts = split_on(first, '-');
    parts[0] + seq!['-'] + parts[1] + seq!['-']
}

/// The text that the `i`-th comma-separated field of `unit` is read as: the
/// first field as it stands, every later field, a day of the same year and
/// month, behind the first field's `yyyy-mm-`.
pub open spec fn field_date(unit: Seq<char>, i: int) -> Seq<char> {
    let fields = split_on(unit, ',');
    if i == 0 {
        fields[0]
    } else {
        year_month_prefix(fields[0]) + fields[i]
    }
}

/// The outcome of the `i`-th comma-separated field of `unit`.
///
/// An empty field is a fault of the whole unit. The first field must split into
/// three parts on `-`. The text that a field is read as must be a date.
pub open spec fn date_field(unit: Seq<char>, i: int) -> Result<Seq<Seq<char>>, Fault> {
    let field = split_on(unit, ',')[i];
    let date = field_date(unit, i);
    if field.len() == 0 {
        Err(Fault { kind: ParseErrorKind::EmptyUnit, text: unit })
    } else if i == 0 && split_on(field, '-').len() != 3 {
        Err(Fault { kind: ParseErrorKind::MalformedShape, text: field })
    } else if !date_accepted(date) {
        Err(Fault { kind: ParseErrorKind::InvalidCalendarDate, text: date })
    } else {
        Ok(seq![date])
    }
}

/// The outcomes of all fields of `unit`, in order.
pub open spec fn date_fields(unit: Seq<char>) -> Seq<Result<Seq<Seq<char>>, Fault>> {
    Seq::new(split_on(unit, ',').len(), |i: int| date_field(unit, i))
}

/// What one unit `yyyy-mm-dd,dd,..` stands for: its dates, one per field and in
/// the order of the fields, or the fault of the first field that has one.
pub open spec fn unit_dates(unit: Seq<char>) -> Result<Seq<Seq<char>>, Fault> {
    gather(date_fields(unit))
}

/// Parses one unit of a date list: a date `yyyy-mm-dd` that may be followed by
/// more days of the same month, each after a comma.
///
/// Returns the dates in full, in input order; a day given twice comes out twice.
pub fn parse_date_multiple_days(s: &str) -> (out: Result<Vec<String>, ParseError>)
    ensures
        match out {
            Ok(dates) => unit_dates(s@) == Ok::<Seq<Seq<char>>, Fault>(string_views(dates@)),
            Err(e) => unit_dates(s@) == Err::<Seq<Seq<char>>, Fault>(e@),
        },
{
    let fields = split_str(s, ',');
    let ghost results = date_fields(s@);
    let mut dates: Vec<String> = Vec::new();
    let mut prefix = String::new();
    let mut i: usize = 0;
    proof {
        assert(string_views(dates@) == Seq::<Seq<char>>::empty());
    }
    while i < fields.len()
        invariant
            slice_views(fields@) == split_on(s@, ','),
            results == date_fields(s@),
            i <= fields.len(),
            gather(results.take(i as int)) == Ok::<Seq<Seq<char>>, Fault>(string_views(dates@)),
            i > 0 ==> prefix@ == year_month_prefix(fields[0]@),
        decreases fields.len() - i,
    {
        let field = fields[i];
        proof {
            lemma_gather_step(results, i as int);
        }
        if field.is_empty() {
            proof {
                lemma_fault_stays(results, i + 1);
            }
            return Err(ParseError::new(ParseErrorKind::EmptyUnit, s));
        }
        let date: String;
        if i == 0 {
            let parts = split_str(field, '-');
            if parts.len() != 3 {
                proof {
                    lemma_fault_stays(results, i + 1);
                }
                return Err(ParseError::new(ParseErrorKind::MalformedShape, field));
            }
            proof {
                reveal_strlit("-");
            }
            prefix = String::from_str(parts[0]).concat("-").concat(parts[1]).concat("-");
            date = String::from_str(field);
        } else {
            date = prefix.clone().concat(field);
        }
        let accepted = is_date(date.as_str());
        match date_or_fault(date, accepted) {
            Ok(kept) => {
                let ghost before = string_views(dates@);
                dates.push(kept);
                proof {
                    assert(string_views(dates@) == before + seq![kept@]);
                }
            },
            Err(e) => {
                proof {
                    lemma_fault_stays(results, i + 1);
                }
                return Err(e);
            },
        }
        i += 1;
    }
    proof {
        assert(results.take(i as int) == results);
    }
    Ok(dates)
}

/// What one pair `p<digit>=<uint>` stands for: the period and its base counter.
///
/// The pair is cut at its first `=`. What stands before must be `p` and one
/// decimal digit, the period; what stands after must write an unsigned integer
/// of 64 bits, the counter.
pub open spec fn counter_pair(pair: Seq<char>) -> Result<(u8, u64), Fault> {
    let at = first_index_of(pair, '=');
    let name = pair.take(at);
    let value = pair.skip(at + 1);
    if pair.len() == 0 {
        Err(Fault { kind: ParseErrorKind::EmptyUnit, text: pair })
    } else if at >= pair.len() {
        Err(Fault { kind: ParseErrorKind::MalformedShape, text: pair })
    } else if !(name.len() == 2 && name[0] == 'p' && is_digit(name[1])) {
        Err(Fault { kind: ParseErrorKind::InvalidPeriodName, text: name })
    } else {
        match uint_value(value) {
            None => Err(Fault { kind: ParseErrorKind::InvalidCounterValue, text: value }),
            Some(counter) => Ok((digit_value(name[1]) as u8, counter)),
        }
    }
}

/// Parses one meter counter, such as `p1=97`: the period after `p` and the base
/// counter after `=`.
pub fn parse_meter_counter(s: &str) -> (out: Result<(u8, u64), ParseError>)
    ensures
        match out {
            Ok(pair) => counter_pair(s@) == Ok::<(u8, u64), Fault>(pair),
            Err(e) => counter_pair(s@) == Err::<(u8, u64), Fault>(e@),
        },
{
    let chars = chars_of(s);
    let n = chars.len();
    if n == 0 {
        return Err(ParseError::new(ParseErrorKind::EmptyUnit, s));
    }
    let at = find_char(&chars, 0, '=');
    proof {
        assert(chars@.skip(0) == s@);
    }
    if at == n {
        return Err(ParseError::new(ParseErrorKind::MalformedShape, s));
    }
    let period = if at == 2 && chars[0] == 'p' {
        digit_of(chars[1])
    } else {
        None
    };
    match period {
        None => Err(ParseError::new(ParseErrorKind::InvalidPeriodName, s.substring_char(0, at))),
        Some(p) => match parse_uint(&chars, at + 1) {
            None => Err(
                ParseError::new(ParseErrorKind::InvalidCounterValue, s.substring_char(at + 1, n)),
            ),
            Some(counter) => Ok((p, counter)),
        },
    }
}

/// The outcomes of the units of a date list, which `;` separates, in order.
pub open spec fn date_units(list: Seq<char>) -> Seq<Result<Seq<Seq<char>>, Fault>> {
    let units = split_on(list, ';');
    Seq::new(units.len(), |k: int| unit_dates(units[k]))
}

/// What a date list `unit;unit;..` stands for: the dates of its units, one unit
/// after the other, or the fault of the first unit that has one.
pub open spec fn date_list(list: Seq<char>) -> Result<Seq<Seq<char>>, Fault> {
    gather(date_units(list))
}

/// Parses a list of dates: units separated by `;`, each a date `yyyy-mm-dd` that
/// may be followed by more days of the same month, each after a comma.
///
/// Returns the dates in full, in input order. A date given twice, in one unit or
/// in two, comes out twice.
pub fn parse_date_list(s: &str) -> (out: Result<Vec<String>, ParseError>)
    ensures
        match out {
            Ok(dates) => date_list(s@) == Ok::<Seq<Seq<char>>, Fault>(string_views(dates@)),
            Err(e) => date_list(s@) == Err::<Seq<Seq<char>>, Fault>(e@),
        },
{
    let units = split_str(s, ';');
    let ghost results = date_units(s@);
    let mut dates: Vec<String> = Vec::new();
    let mut k: usize = 0;
    proof {
        assert(string_views(dates@) == Seq::<Seq<char>>::empty());
    }
    while k < units.len()
        invariant
            slice_views(units@) == split_on(s@, ';'),
            results == date_units(s@),
            k <= units.len(),
            gather(results.take(k as int)) == Ok::<Seq<Seq<char>>, Fault>(string_views(dates@)),
        decreases units.len() - k,
    {
        proof {
            lemma_gather_step(results, k as int);
        }
        match parse_date_multiple_days(units[k]) {
            Err(e) => {
                proof {
                    lemma_fault_stays(results, k + 1);
                }
                return Err(e);
            },
            Ok(mut more) => {
                let ghost before = string_views(dates@);
                let ghost added = string_views(more@);
                dates.append(&mut more);
                proof {
                    assert(string_views(dates@) == before + added);
                }
            },
        }
        k += 1;
    }
    proof {
        assert(results.take(k as int) == results);
    }
    Ok(dates)
}

/// The outcomes of the pairs of a counter list, which `,` separates, in order.
pub open spec fn counter_pairs(list: Seq<char>) -> Seq<Result<Seq<(u8, u64)>, Fault>> {
    let pairs = split_on(list, ',');
    Seq::new(
        pairs.len(),
        |k: int|
            match counter_pair(pairs[k]) {
                Ok(pair) => Ok(seq![pair]),
                Err(fault) => Err(fault),
            },
    )
}

/// What a counter list `pair,pair,..` stands for: its pairs of period and base
/// counter, in order, or the fault of the first pair that has one.
pub open spec fn counter_list(list: Seq<char>) -> Result<Seq<(u8, u64)>, Fault> {
    gather(counter_pairs(list))
}

/// Parses a list of meter counters, such as `p3=10,p1=9`.
///
/// Returns the pairs of period and base counter in input order. A period given
/// twice comes out twice.
pub fn parse_counter_list(s: &str) -> (out: Result<Vec<(u8, u64)>, ParseError>)
    ensures
        match out {
            Ok(pairs) => counter_list(s@) == Ok::<Seq<(u8, u64)>, Fault>(pairs@),
            Err(e) => counter_list(s@) == Err::<Seq<(u8, u64)>, Fault>(e@),
        },
{
    let pieces = split_str(s, ',');
    let ghost results = counter_pairs(s@);
    let mut pairs: Vec<(u8, u64)> = Vec::new();
    let mut k: usize = 0;
    while k < pieces.len()
        invariant
            slice_views(pieces@) == split_on(s@, ','),
            results == counter_pairs(s@),
            k <= pieces.len(),
            gather(results.take(k as int)) == Ok::<Seq<(u8, u64)>, Fault>(pairs@),
        decreases pieces.len() - k,
    {
        proof {
            lemma_gather_step(results, k as int);
        }
        match parse_meter_counter(pieces[k]) {
            Err(e) => {
                proof {
                    lemma_fault_stays(results, k + 1);
                }
                return Err(e);
            },
            Ok(pair) => {
                let ghost before = pairs@;
                pairs.push(pair);
                proof {
                    assert(pairs@ == before + seq![pair]);
                }
            },
        }
        k += 1;
    }
    proof {
        assert(results.take(k as int) == results);
    }
    Ok(pairs)
}

/// A text of the shape `yyyy-mm-dd` holds no `,` and no `;`, splits on `-` into
/// its year, its month and its day, and begins with its `yyyy-mm-`.
pub proof fn lemma_iso_parts(date: Seq<char>)
    requires
        is_iso_shaped(date),
    ensures
        split_on(date, ',') == seq![date],
        split_on(date, ';') == seq![date],
        split_on(date, '-') == seq![date.subrange(0, 4), date.subrange(5, 7), date.subrange(8, 10)],
        year_month_prefix(date) == date.take(8),
{
    lemma_split_without_sep(date, ',');
    lemma_split_without_sep(date, ';');
    lemma_first_index_is(date, '-', 4);
    let rest = date.skip(5);
    lemma_first_index_is(rest, '-', 2);
    let day = rest.skip(3);
    lemma_split_without_sep(day, '-');
    assert(rest.take(2) == date.subrange(5, 7));
    assert(day == date.subrange(8, 10));
    assert(split_on(rest, '-') == seq![rest.take(2)] + seq![day]);
    assert(split_on(date, '-') == seq![
        date.subrange(0, 4),
        date.subrange(5, 7),
        date.subrange(8, 10),
    ]);
}

/// A single date that exists, written `yyyy-mm-dd`, parses to exactly that
/// date, as a unit and as a list.
pub proof fn lemma_single_date(date: Seq<char>)
    requires
        is_iso_date(date),
    ensures
        unit_dates(date) == Ok::<Seq<Seq<char>>, Fault>(seq![date]),
        date_list(date) == Ok::<Seq<Seq<char>>, Fault>(seq![date]),
{
    lemma_iso_parts(date);
    assert(date_fields(date) == seq![date_field(date, 0)]);
    lemma_gather_one(date_field(date, 0));
    assert(date_units(date) == seq![unit_dates(date)]);
    lemma_gather_one(unit_dates(date));
}

/// A text of the shape `yyyy-mm-dd` whose day does not exist in that month of
/// that year is rejected as no date of the calendar, as a unit and as a list.
pub proof fn lemma_missing_day_rejected(date: Seq<char>)
    requires
        is_iso_shaped(date),
        !is_iso_date(date),
    ensures
        unit_dates(date) == Err::<Seq<Seq<char>>, Fault>(
            Fault { kind: ParseErrorKind::InvalidCalendarDate, text: date },
        ),
        date_list(date) == Err::<Seq<Seq<char>>, Fault>(
            Fault { kind: ParseErrorKind::InvalidCalendarDate, text: date },
        ),
{
    lemma_iso_parts(date);
    assert(date_fields(date) == seq![date_field(date, 0)]);
    lemma_gather_one(date_field(date, 0));
    assert(date_units(date) == seq![unit_dates(date)]);
    lemma_gather_one(unit_dates(date));
}

/// A list is rejected where any field of any of its units, read with its
/// unit's year and month, has the shape `yyyy-mm-dd` and names a day that does
/// not exist.
pub proof fn lemma_missing_day_rejected_anywhere(list: Seq<char>, k: int, i: int)
    requires
        0 <= k < split_on(list, ';').len(),
        0 <= i < split_on(split_on(list, ';')[k], ',').len(),
        is_iso_shaped(field_date(split_on(list, ';')[k], i)),
        !is_iso_date(field_date(split_on(list, ';')[k], i)),
    ensures
        unit_dates(split_on(list, ';')[k]) is Err,
        date_list(list) is Err,
{
    let unit = split_on(list, ';')[k];
    assert(date_fields(unit)[i] is Err);
    lemma_gather_ok(date_fields(unit));
    assert(date_units(list)[k] is Err);
    lemma_gather_ok(date_units(list));
}

/// Where a unit is accepted, it gives one date per comma-separated field, in
/// the order of the fields: the first field itself, and every later field
/// behind the year and month of the first. Every one of them is a date.
pub proof fn lemma_unit_dates_by_field(unit: Seq<char>)
    requires
        unit_dates(unit) is Ok,
    ensures
        unit_dates(unit)->Ok_0.len() == split_on(unit, ',').len(),
        forall|i: int|
            0 <= i < split_on(unit, ',').len() ==> {
                &&& #[trigger] unit_dates(unit)->Ok_0[i] == field_date(unit, i)
                &&& date_accepted(field_date(unit, i))
            },
{
    let results = date_fields(unit);
    lemma_gather_ok(results);
    lemma_gather_singletons(results);
}

/// `day` is written with two digits and is a day of the month of the date
/// `first`, in the year of `first`.
pub open spec fn is_day_of_month(first: Seq<char>, day: Seq<char>) -> bool {
    &&& day.len() == 2
    &&& is_digit(day[0])
    &&& is_digit(day[1])
    &&& is_calendar_date(
        iso_year(first),
        iso_month(first),
        10 * digit_value(day[0]) + digit_value(day[1]),
    )
}

/// A unit `yyyy-mm-dd,dd,..` whose first field is a date that exists and whose
/// later fields are days of that month is accepted. It gives one date per
/// field, in the order of the fields, each of the shape `yyyy-mm-dd` with the
/// year and month of the first field and the day of its own field.
pub proof fn lemma_multi_day_unit(unit: Seq<char>)
    requires
        is_iso_date(split_on(unit, ',')[0]),
        forall|i: int|
            1 <= i < split_on(unit, ',').len() ==> is_day_of_month(
                split_on(unit, ',')[0],
                #[trigger] split_on(unit, ',')[i],
            ),
    ensures
        unit_dates(unit) is Ok,
        unit_dates(unit)->Ok_0.len() == split_on(unit, ',').len(),
        unit_dates(unit)->Ok_0[0] == split_on(unit, ',')[0],
        forall|i: int|
            1 <= i < split_on(unit, ',').len() ==> #[trigger] unit_dates(unit)->Ok_0[i]
                == split_on(unit, ',')[0].take(8) + split_on(unit, ',')[i],
        forall|i: int|
            0 <= i < split_on(unit, ',').len() ==> {
                &&& is_iso_date(#[trigger] unit_dates(unit)->Ok_0[i])
                &&& iso_year(unit_dates(unit)->Ok_0[i]) == iso_year(split_on(unit, ',')[0])
                &&& iso_month(unit_dates(unit)->Ok_0[i]) == iso_month(split_on(unit, ',')[0])
            },
{
    let fields = split_on(unit, ',');
    let first = fields[0];
    let results = date_fields(unit);
    lemma_split_pieces(unit, ',');
    lemma_iso_parts(first);
    assert forall|i: int| 0 <= i < fields.len() implies {
        &&& #[trigger] results[i] == Ok::<Seq<Seq<char>>, Fault>(seq![field_date(unit, i)])
        &&& is_iso_date(field_date(unit, i))
        &&& iso_year(field_date(unit, i)) == iso_year(first)
        &&& iso_month(field_date(unit, i)) == iso_month(first)
        &&& i > 0 ==> field_date(unit, i) == first.take(8) + fields[i]
    } by {}
    lemma_gather_singletons(results);
    lemma_unit_dates_by_field(unit);
}

/// A unit with an empty field is rejected: so is one with a leading, a trailing
/// or a doubled comma, and the empty unit.
pub proof fn lemma_stray_comma_rejected(unit: Seq<char>)
    requires
        has_empty_piece(unit, ',') || has_stray_separator(unit, ','),
    ensures
        unit_dates(unit) is Err,
{
    if has_stray_separator(unit, ',') {
        lemma_stray_separator(unit, ',');
    }
    let i = choose|i: int|
        0 <= i < split_on(unit, ',').len() && #[trigger] split_on(unit, ',')[i].len() == 0;
    assert(date_fields(unit)[i] is Err);
    lemma_gather_ok(date_fields(unit));
}

/// A date list with an empty unit is rejected: so is one with a leading, a
/// trailing or a doubled semicolon, and the empty list.
pub proof fn lemma_stray_semicolon_rejected(list: Seq<char>)
    requires
        has_empty_piece(list, ';') || has_stray_separator(list, ';'),
    ensures
        date_list(list) is Err,
{
    if has_stray_separator(list, ';') {
        lemma_stray_separator(list, ';');
    }
    let k = choose|k: int|
        0 <= k < split_on(list, ';').len() && #[trigger] split_on(list, ';')[k].len() == 0;
    let unit = split_on(list, ';')[k];
    lemma_split_without_sep(unit, ',');
    lemma_stray_comma_rejected(unit);
    assert(date_units(list)[k] is Err);
    lemma_gather_ok(date_units(list));
}

/// A date list is rejected where any of its units is.
pub proof fn lemma_bad_unit_rejected(list: Seq<char>, k: int)
    requires
        0 <= k < split_on(list, ';').len(),
        unit_dates(split_on(list, ';')[k]) is Err,
    ensures
        date_list(list) is Err,
{
    assert(date_units(list)[k] is Err);
    lemma_gather_ok(date_units(list));
}

/// Two date lists joined by `;` give what the first gives followed by what the
/// second gives. Nothing depends on whether a date was seen before: a list
/// that is accepted is accepted again behind itself, with its dates repeated.
pub proof fn lemma_date_list_concat(first: Seq<char>, second: Seq<char>)
    ensures
        date_list(first + seq![';'] + second) == chain(date_list(first), date_list(second)),
{
    lemma_split_concat(first, second, ';');
    assert(date_units(first + seq![';'] + second) == date_units(first) + date_units(second));
    lemma_gather_concat(date_units(first), date_units(second));
}

/// Where a counter list is accepted, it gives one pair per comma-separated
/// piece, in the order of the pieces: the pair that the piece stands for.
pub proof fn lemma_counter_list_by_pair(list: Seq<char>)
    requires
        counter_list(list) is Ok,
    ensures
        counter_list(list)->Ok_0.len() == split_on(list, ',').len(),
        forall|k: int|
            0 <= k < split_on(list, ',').len() ==> counter_pair(split_on(list, ',')[k]) == Ok::<
                (u8, u64),
                Fault,
            >(#[trigger] counter_list(list)->Ok_0[k]),
{
    let results = counter_pairs(list);
    lemma_gather_ok(results);
    lemma_gather_singletons(results);
}

/// A counter list is rejected where any of its pairs is; so is one with an
/// empty piece, which a leading, a trailing or a doubled comma leaves, and the
/// empty list.
pub proof fn lemma_bad_pair_rejected(list: Seq<char>, k: int)
    requires
        0 <= k < split_on(list, ',').len(),
        counter_pair(split_on(list, ',')[k]) is Err || split_on(list, ',')[k].len() == 0,
    ensures
        counter_list(list) is Err,
{
    assert(counter_pairs(list)[k] is Err);
    lemma_gather_ok(counter_pairs(list));
}

/// A counter list with a leading, a trailing or a doubled comma is rejected,
/// and so is the empty list.
pub proof fn lemma_stray_comma_in_counters_rejected(list: Seq<char>)
    requires
        has_stray_separator(list, ','),
    ensures
        counter_list(list) is Err,
{
    lemma_stray_separator(list, ',');
    let k = choose|k: int|
        0 <= k < split_on(list, ',').len() && #[trigger] split_on(list, ',')[k].len() == 0;
    lemma_bad_pair_rejected(list, k);
}

/// Two counter lists joined by `,` give what the first gives followed by what
/// the second gives.
pub proof fn lemma_counter_list_concat(first: Seq<char>, second: Seq<char>)
    ensures
        counter_list(first + seq![','] + second) == chain(
            counter_list(first),
            counter_list(second),
        ),
{
    lemma_split_concat(first, second, ',');
    assert(counter_pairs(first + seq![','] + second) == counter_pairs(first) + counter_pairs(
        second,
    ));
    lemma_gather_concat(counter_pairs(first), counter_pairs(second));
}

} // verus!
