use astro_core::clock::{civil_from_days, timestamp};

#[test]
fn timestamps_round_trip_against_the_plugin_parser() {
    // The same instants the Canon plugin's parser is tested against.
    assert_eq!(timestamp(0), "1970-01-01 00:00:00");
    assert_eq!(timestamp(946_684_800), "2000-01-01 00:00:00");
    assert_eq!(timestamp(1_787_834_096), "2026-08-27 12:34:56");
    assert_eq!(timestamp(951_782_400), "2000-02-29 00:00:00");
}

#[test]
fn timestamps_before_the_epoch_do_not_wrap() {
    assert_eq!(timestamp(-1), "1969-12-31 23:59:59");
}

#[test]
fn day_counts_name_their_dates() {
    assert_eq!(civil_from_days(0), (1970, 1, 1));
    assert_eq!(civil_from_days(-1), (1969, 12, 31));
    assert_eq!(civil_from_days(11_016), (2000, 2, 29));
    assert_eq!(civil_from_days(11_017), (2000, 3, 1));
    // 1900 was not a leap year; 2000 was.
    assert_eq!(civil_from_days(-25_508), (1900, 3, 1));
    assert_eq!(civil_from_days(-25_509), (1900, 2, 28));
}

#[test]
fn every_day_of_a_leap_cycle_advances_the_calendar_by_one() {
    let mut previous = civil_from_days(-800);
    for day in -799..1500 {
        let next = civil_from_days(day);
        let (y, m, d) = previous;
        let expected_same_month = (y, m, d + 1);
        let expected_next_month = if m == 12 { (y + 1, 1, 1) } else { (y, m + 1, 1) };
        assert!(next == expected_same_month || next == expected_next_month, "{previous:?} -> {next:?}");
        previous = next;
    }
}

#[test]
fn a_timestamp_far_before_the_epoch_keeps_its_sign() {
    assert_eq!(timestamp(-62_135_596_800), "0001-01-01 00:00:00");
    assert_eq!(timestamp(-62_135_596_801), "0000-12-31 23:59:59");
    assert_eq!(timestamp(-62_198_755_200), "-001-01-01 00:00:00");
}

#[test]
fn the_last_second_of_a_day_is_not_the_next_day() {
    assert_eq!(timestamp(86_399), "1970-01-01 23:59:59");
    assert_eq!(timestamp(86_400), "1970-01-02 00:00:00");
}
