use meter_periods::cli::{default_time_windows, parse_date_multiple_days, App};
use meter_periods::cmd::Cmd;

#[test]
fn cli_test_parse_date_multiple_days() {
    {
        // Valid.
        let input = "2022-12-25";
        let date =
            parse_date_multiple_days(input).expect(&format!(r#""{}" should be valid"#, input));
        assert_eq!(input, date, r#""{}" should only have this date"#, input);

        let input = "2022-12-25,26";
        let date =
            parse_date_multiple_days(input).expect(&format!(r#""{}" should be valid"#, input));
        assert_eq!(input, date, r#""{}" should only have this date"#, input);
    }

    {
        // Invalid.
        parse_date_multiple_days("2022-09-31")
            .expect_err("September doesn't have the 31st day");
        parse_date_multiple_days("2022-09-30,31")
            .expect_err("September doesn't have the 31st day");
        parse_date_multiple_days("2022-12-25;26")
            .expect_err("second days separated with semicolon");
    }
}

#[test]
fn default_time_windows_are_the_documented_ones() {
    assert_eq!(
        vec![(1, 10, 14), (1, 18, 22), (2, 8, 10), (2, 14, 18), (2, 22, 0), (3, 0, 8)],
        default_time_windows()
    );
}

#[test]
fn arguments_feed_a_registry() {
    let app = App {
        bank_holidays: Some(vec!["2022-12-25,26".to_string(), "2023-01-06".to_string()]),
        base_meter_counter: Some(vec![(1, 97), (3, 23)]),
        csv_filepath: "readings.csv".to_string(),
        time_windows: default_time_windows(),
    };
    let mut cmd = Cmd::new(app.time_windows, 3);
    cmd.with_bank_holidays(app.bank_holidays.unwrap()).expect("valid dates");
    cmd.with_counters(app.base_meter_counter.unwrap());
    assert_eq!(3, cmd.bank_holidays_len());
    assert_eq!(Some(97), cmd.counter(1));
    assert_eq!(None, cmd.counter(2));
    assert_eq!(Some(23), cmd.counter(3));
    assert_eq!(3, cmd.period_bank_holidays());
    assert_eq!(3, cmd.periods_times()[0]);
    assert_eq!(1, cmd.periods_times()[12]);
    assert_eq!("readings.csv", app.csv_filepath);
}

fn date_flag(s: &str) -> Result<String, String> {
    parse_date_multiple_days(s).map_err(|e| e.message())
}

fn counter_flag(s: &str) -> Result<(u8, u64), String> {
    meter_periods::utils::parse_meter_counter(s).map_err(|e| e.message())
}

/// The command line of the application, with the library's validators behind
/// its two flags.
fn command() -> clap::Command {
    clap::Command::new("meter_periods")
        .arg(
            clap::Arg::new("bank_holidays")
                .short('d')
                .long("bank-holidays")
                .action(clap::ArgAction::Append)
                .value_parser(date_flag),
        )
        .arg(
            clap::Arg::new("base_meter_counter")
                .short('c')
                .long("base-meter-counter")
                .action(clap::ArgAction::Append)
                .value_parser(counter_flag),
        )
        .arg(clap::Arg::new("csv_filepath").required(true))
}

#[test]
fn verify_cli() {
    command().debug_assert();
}

#[test]
fn flags_take_what_the_validators_accept() {
    let matches = command()
        .try_get_matches_from(vec![
            "meter_periods",
            "-d",
            "2022-12-25,26",
            "--bank-holidays",
            "2023-01-06",
            "-c",
            "p1=97",
            "-c",
            "p3=23",
            "readings.csv",
        ])
        .expect("valid arguments");
    let holidays: Vec<String> =
        matches.get_many::<String>("bank_holidays").unwrap().cloned().collect();
    assert_eq!(vec!["2022-12-25,26", "2023-01-06"], holidays);
    let counters: Vec<(u8, u64)> =
        matches.get_many::<(u8, u64)>("base_meter_counter").unwrap().cloned().collect();
    assert_eq!(vec![(1, 97), (3, 23)], counters);
    assert_eq!("readings.csv", matches.get_one::<String>("csv_filepath").unwrap());
}

#[test]
fn flags_refuse_what_the_validators_refuse() {
    for bad in [
        vec!["meter_periods", "-d", "2022-09-31", "readings.csv"],
        vec!["meter_periods", "-d", "2022-12-25;26", "readings.csv"],
        vec!["meter_periods", "-c", "p1=", "readings.csv"],
        vec!["meter_periods", "-c", "a1=187", "readings.csv"],
        vec!["meter_periods", "-c", "p1=18,15", "readings.csv"],
    ] {
        assert!(command().try_get_matches_from(bad.clone()).is_err(), "{:?}", bad);
    }
}
