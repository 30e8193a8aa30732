use meter_periods::holidays::BankHolidays;

#[test]
fn a_new_set_is_empty() {
    let set = BankHolidays::new();
    assert_eq!(0, set.len());
    assert!(!set.contains("2022-12-25"));
    assert!(!set.contains(""));
}

#[test]
fn a_date_is_in_the_set_once() {
    let mut set = BankHolidays::new();
    set.insert("2022-12-25".to_string());
    assert_eq!(1, set.len());
    assert!(set.contains("2022-12-25"));
    assert!(!set.contains("2022-12-26"));

    set.insert("2022-12-25".to_string());
    assert_eq!(1, set.len());

    set.insert("2022-12-26".to_string());
    set.insert("2022-12-25".to_string());
    set.insert("2022-12-26".to_string());
    assert_eq!(2, set.len());
    assert!(set.contains("2022-12-25"));
    assert!(set.contains("2022-12-26"));
}

#[test]
fn dates_are_told_apart_by_their_text() {
    let mut set = BankHolidays::new();
    set.insert("2022-12-05".to_string());
    set.insert("2022-12-5".to_string());
    assert_eq!(2, set.len());
    assert!(set.contains("2022-12-5"));
    assert!(!set.contains("2022-12-05 "));
}
