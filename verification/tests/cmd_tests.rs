use meter_periods::cmd::{check_time_windows, Cmd};
use meter_periods::error::ParseErrorKind;

#[test]
fn test_cmd_index_period_times() {
    let time_windows = vec![
        (1, 10, 14),
        (1, 18, 22),
        (2, 8, 10),
        (2, 14, 18),
        (2, 22, 0),
        (3, 0, 8),
    ];

    let period_times = Cmd::index_period_times(time_windows);
    for i in 0..8 {
        assert_eq!(3, period_times[i], "period in time '{}'", i);
    }

    for i in 8..10 {
        assert_eq!(2, period_times[i], "period in time '{}'", i);
    }

    for i in 10..14 {
        assert_eq!(1, period_times[i], "period in time '{}'", i);
    }

    for i in 14..18 {
        assert_eq!(2, period_times[i], "period in time '{}'", i);
    }

    for i in 18..22 {
        assert_eq!(1, period_times[i], "period in time '{}'", i);
    }

    for i in 22..24 {
        assert_eq!(2, period_times[i], "period in time '{}'", i);
    }
}

#[test]
fn test_cmd_with_bank_holidays() {
    {
        // OK: no duplicates.
        let mut cmd = Cmd::new(vec![], 0);
        cmd.with_bank_holidays(vec!["2022-10-12".to_string(), "2022-12-25,26".to_string()])
            .expect("OK no duplicates");

        assert_eq!(3, cmd.bank_holidays_len(), "Hash set length");
        assert!(
            cmd.is_bank_holiday("2022-10-12"),
            "Hash set contains 2022-10-12"
        );
        assert!(
            cmd.is_bank_holiday("2022-12-25"),
            "Hash set contains 2022-12-25"
        );
        assert!(
            cmd.is_bank_holiday("2022-12-26"),
            "Hash set contains 2022-12-26"
        );
    }

    {
        // OK: with duplicates.
        let mut cmd = Cmd::new(vec![], 0);
        cmd.with_bank_holidays(vec!["2022-12-26".to_string(), "2022-12-25,26".to_string()])
            .expect("OK with duplicates");

        assert_eq!(2, cmd.bank_holidays_len(), "Hash set length");
        assert!(
            cmd.is_bank_holiday("2022-12-25"),
            "Hash set contains 2022-12-25"
        );
        assert!(
            cmd.is_bank_holiday("2022-12-26"),
            "Hash set contains 2022-12-26"
        );

        // Calling it again with a dates that already exist ignores them.
        cmd.with_bank_holidays(vec!["2022-12-25".to_string(), "2023-01-06".to_string()])
            .expect("OK with already existing ones");
        assert_eq!(3, cmd.bank_holidays_len(), "Hash set length");
        assert!(
            cmd.is_bank_holiday("2022-12-25"),
            "Hash set contains 2022-12-25"
        );
        assert!(
            cmd.is_bank_holiday("2022-12-26"),
            "Hash set contains 2022-12-26"
        );
        assert!(
            cmd.is_bank_holiday("2023-01-06"),
            "Hash set contains 2023-01-06"
        );
    }

    {
        // Error: invalid date.
        let mut cmd = Cmd::new(vec![], 0);
        cmd.with_bank_holidays(vec!["2022-12-26".to_string(), "2023-02-28,29".to_string()])
            .expect_err("invalid date");
    }
}

#[test]
fn test_cmd_with_counters() {
    {
        // Without duplicates.
        let mut cmd = Cmd::new(vec![], 0);
        cmd.with_counters(vec![(1, 60), (2, 3876), (10, 89)]);

        assert_eq!(3, cmd.counters_len(), "Hash set length");
        assert_eq!(Some(60), cmd.counter(1), "contains 1");
        assert_eq!(Some(3876), cmd.counter(2), "contains 2");
        assert_eq!(Some(89), cmd.counter(10), "contains 10");
    }
    {
        // With duplicates.
        let mut cmd = Cmd::new(vec![], 0);
        cmd.with_counters(vec![(1, 60), (2, 3876), (1, 89)]);

        assert_eq!(2, cmd.counters_len(), "Hash set length");
        assert_eq!(Some(89), cmd.counter(1), "contains 1");
        assert_eq!(Some(3876), cmd.counter(2), "contains 2");

        // Calling with existing ones, updates them.
        cmd.with_counters(vec![(10, 60), (2, 30)]);

        assert_eq!(3, cmd.counters_len(), "Hash set length");
        assert_eq!(Some(89), cmd.counter(1), "contains 1");
        assert_eq!(Some(30), cmd.counter(2), "contains 2");
        assert_eq!(Some(60), cmd.counter(10), "contains 10");
    }
}

#[test]
fn new_registry_is_empty() {
    let cmd = Cmd::new(vec![(4, 0, 24)], 7);
    assert_eq!(0, cmd.bank_holidays_len());
    assert_eq!(0, cmd.counters_len());
    assert_eq!(None, cmd.counter(1));
    assert!(!cmd.is_bank_holiday("2022-12-25"));
    assert_eq!(7, cmd.period_bank_holidays());
    assert_eq!([4u8; 24], cmd.periods_times());
}

#[test]
fn hours_without_a_window_have_period_0() {
    assert_eq!([0u8; 24], Cmd::index_period_times(vec![]));
    let table = Cmd::index_period_times(vec![(5, 3, 6)]);
    for hour in 0..24 {
        let expected = if (3..6).contains(&hour) { 5 } else { 0 };
        assert_eq!(expected, table[hour], "hour {}", hour);
    }
}

#[test]
fn a_window_that_wraps_covers_the_end_and_the_start_of_the_day() {
    let table = Cmd::index_period_times(vec![(2, 22, 3)]);
    for hour in 0..24 {
        let expected = if hour >= 22 || hour < 3 { 2 } else { 0 };
        assert_eq!(expected, table[hour], "hour {}", hour);
    }
    // An end at midnight written as 0 wraps with nothing after midnight.
    let table = Cmd::index_period_times(vec![(2, 22, 0)]);
    for hour in 0..24 {
        let expected = if hour >= 22 { 2 } else { 0 };
        assert_eq!(expected, table[hour], "hour {}", hour);
    }
    // The same end written as 24 does not wrap.
    assert_eq!(table, Cmd::index_period_times(vec![(2, 22, 24)]));
}

#[test]
fn a_window_of_no_hours_changes_nothing() {
    assert_eq!([0u8; 24], Cmd::index_period_times(vec![(9, 7, 7)]));
    assert_eq!([0u8; 24], Cmd::index_period_times(vec![(9, 0, 0)]));
}

#[test]
fn a_later_window_overwrites_an_earlier_one() {
    let table = Cmd::index_period_times(vec![(1, 0, 24), (2, 6, 12), (3, 10, 11)]);
    for hour in 0..24 {
        let expected = if hour == 10 {
            3
        } else if (6..12).contains(&hour) {
            2
        } else {
            1
        };
        assert_eq!(expected, table[hour], "hour {}", hour);
    }
    // A later window with period 0 clears what it covers.
    let table = Cmd::index_period_times(vec![(1, 0, 24), (0, 23, 1)]);
    assert_eq!(0, table[0]);
    assert_eq!(1, table[1]);
    assert_eq!(1, table[22]);
    assert_eq!(0, table[23]);
}

#[test]
fn time_windows_are_checked_against_the_day() {
    assert!(check_time_windows(&vec![]));
    assert!(check_time_windows(&vec![(1, 0, 24), (2, 23, 0), (3, 23, 24)]));
    assert!(!check_time_windows(&vec![(1, 0, 25)]));
    assert!(!check_time_windows(&vec![(1, 24, 24)]));
    assert!(!check_time_windows(&vec![(1, 0, 8), (2, 30, 5)]));
}

#[test]
fn repeated_holidays_are_stored_once() {
    let mut cmd = Cmd::new(vec![], 0);
    cmd.with_bank_holidays(vec!["2022-12-25,26".to_string()]).expect("valid");
    cmd.with_bank_holidays(vec!["2022-12-25".to_string()]).expect("valid");
    assert_eq!(2, cmd.bank_holidays_len());

    cmd.with_bank_holidays(vec!["2022-12-25,25;2022-12-26,25".to_string()]).expect("valid");
    assert_eq!(2, cmd.bank_holidays_len());
    assert!(cmd.is_bank_holiday("2022-12-25"));
    assert!(cmd.is_bank_holiday("2022-12-26"));
    assert!(!cmd.is_bank_holiday("2022-12-27"));
}

#[test]
fn a_bad_date_list_keeps_what_came_before_it() {
    let mut cmd = Cmd::new(vec![], 0);
    let e = cmd
        .with_bank_holidays(vec![
            "2022-12-26".to_string(),
            "2023-01-06,07;2023-02-28,29".to_string(),
            "2023-05-01".to_string(),
        ])
        .unwrap_err();
    assert_eq!(ParseErrorKind::InvalidCalendarDate, e.kind);
    assert_eq!("2023-02-29", e.text);
    assert_eq!(1, cmd.bank_holidays_len());
    assert!(cmd.is_bank_holiday("2022-12-26"));
    assert!(!cmd.is_bank_holiday("2023-01-06"));
    assert!(!cmd.is_bank_holiday("2023-05-01"));
}

#[test]
fn counter_lists_are_written_in_order() {
    let mut cmd = Cmd::new(vec![], 0);
    cmd.with_counter_lists(vec!["p1=60,p2=3876".to_string(), "p1=89".to_string()])
        .expect("valid");
    assert_eq!(2, cmd.counters_len());
    assert_eq!(Some(89), cmd.counter(1));
    assert_eq!(Some(3876), cmd.counter(2));

    let e = cmd
        .with_counter_lists(vec![
            "p3=1".to_string(),
            "p2=5,p4".to_string(),
            "p1=0".to_string(),
        ])
        .unwrap_err();
    assert_eq!(ParseErrorKind::MalformedShape, e.kind);
    assert_eq!("p4", e.text);
    assert_eq!(3, cmd.counters_len());
    assert_eq!(Some(89), cmd.counter(1));
    assert_eq!(Some(3876), cmd.counter(2));
    assert_eq!(Some(1), cmd.counter(3));
    assert_eq!(None, cmd.counter(4));
}
