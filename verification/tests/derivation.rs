use rtk_tracking::record::{saved_tokens, savings_pct_hundredths, estimate_tokens, CommandRecord};
use rtk_tracking::calendar::{format_rfc3339, parse_rfc3339, day_label, month_label, day_of_ts, week_start_of_ts, month_key_of_ts, civil_of_day, TS_MAX};
use rtk_tracking::display::format_tokens;

fn rec(ts: u64, cmd: &str, input: u64, output: u64) -> CommandRecord {
    CommandRecord::new(ts, String::from(cmd), String::from(cmd), input, output)
}

#[test]
fn derived_fields_basic() {
    let r = rec(1000, "rtk ls", 100, 40);
    assert_eq!(r.saved_tokens, 60);
    assert_eq!(r.savings_pct_hundredths, 6000);
    assert_eq!(r.input_tokens, 100);
    assert_eq!(r.output_tokens, 40);
}

#[test]
fn derived_fields_no_underflow() {
    let r = rec(1000, "rtk ls", 0, 10);
    assert_eq!(r.saved_tokens, 0);
    assert_eq!(r.savings_pct_hundredths, 0);
}

#[test]
fn derived_fields_output_above_input() {
    assert_eq!(saved_tokens(10, 25), 0);
    assert_eq!(saved_tokens(25, 10), 15);
    assert_eq!(savings_pct_hundredths(0, 10), 0);
}

#[test]
fn pct_is_floored_hundredths() {
    // 1/3 saved: 33.33% exactly in hundredths, floored.
    assert_eq!(savings_pct_hundredths(1, 3), 3333);
    assert_eq!(savings_pct_hundredths(2, 3), 6666);
    assert_eq!(savings_pct_hundredths(5, 5), 10000);
}

#[test]
fn estimate_rounds_up_quarters() {
    assert_eq!(estimate_tokens(""), 0);
    assert_eq!(estimate_tokens("a"), 1);
    assert_eq!(estimate_tokens("abcd"), 1);
    assert_eq!(estimate_tokens("abcde"), 2);
    assert_eq!(estimate_tokens("12345678"), 2);
    assert_eq!(estimate_tokens("123456789"), 3);
}

#[test]
fn rfc3339_epoch() {
    assert_eq!(format_rfc3339(0), "1970-01-01T00:00:00+00:00");
}

#[test]
fn rfc3339_known_instant() {
    // 2024-02-29T12:34:56Z, a leap day.
    assert_eq!(format_rfc3339(1709210096), "2024-02-29T12:34:56+00:00");
}

#[test]
fn rfc3339_parse_round_trip() {
    for ts in [0u64, 1, 86399, 86400, 951827696, 1709210096, TS_MAX] {
        let text = format_rfc3339(ts);
        assert_eq!(parse_rfc3339(text.as_str()), Some(ts));
    }
}

#[test]
fn rfc3339_parse_accepts_z_and_fraction() {
    assert_eq!(parse_rfc3339("1970-01-01T00:00:01Z"), Some(1));
    assert_eq!(parse_rfc3339("1970-01-01T00:00:01.123456+00:00"), Some(1));
}

#[test]
fn rfc3339_parse_rejects_malformed() {
    assert_eq!(parse_rfc3339(""), None);
    assert_eq!(parse_rfc3339("not a timestamp"), None);
    assert_eq!(parse_rfc3339("1970-13-01T00:00:00+00:00"), None);
    assert_eq!(parse_rfc3339("1970-01-32T00:00:00+00:00"), None);
    assert_eq!(parse_rfc3339("1970-01-01T24:00:00+00:00"), None);
    assert_eq!(parse_rfc3339("1970-01-01 00:00:00+00:00"), None);
    assert_eq!(parse_rfc3339("1970-01-01T00:00:00+01:00"), None);
    assert_eq!(parse_rfc3339("1970-01-01T00:00:00.+00:00"), None);
    assert_eq!(parse_rfc3339("2023-02-29T00:00:00+00:00"), None);
}

#[test]
fn civil_dates_and_labels() {
    // Day 0 is the epoch.
    assert_eq!(civil_of_day(0), (1970, 1, 1));
    assert_eq!(day_label(0), "1970-01-01");
    // 2000-02-29 was day 11016.
    assert_eq!(civil_of_day(11016), (2000, 2, 29));
    assert_eq!(day_label(11016), "2000-02-29");
    // Day -3 (a week start shortly before the epoch).
    assert_eq!(day_label(-3), "1969-12-29");
}

#[test]
fn week_starts_roll_to_sunday_window() {
    // The epoch was a Thursday; its trailing week ends Sunday day 3.
    assert_eq!(week_start_of_ts(0), -3);
    // Day 3 was a Sunday: its week is day -3 .. day 3 as well.
    assert_eq!(week_start_of_ts(3 * 86400), -3);
    // Day 4 (Monday) starts the next window, ending day 10.
    assert_eq!(week_start_of_ts(4 * 86400), 4);
}

#[test]
fn month_keys_and_labels() {
    let k = month_key_of_ts(0);
    assert_eq!(k, 1970 * 12);
    assert_eq!(month_label(k), "1970-01");
    let k2 = month_key_of_ts(1709210096);
    assert_eq!(month_label(k2), "2024-02");
}

#[test]
fn day_keys_split_at_midnight() {
    assert_eq!(day_of_ts(86399), 0);
    assert_eq!(day_of_ts(86400), 1);
}

#[test]
fn token_formatting() {
    assert_eq!(format_tokens(0), "0");
    assert_eq!(format_tokens(999), "999");
    assert_eq!(format_tokens(1000), "1.0K");
    assert_eq!(format_tokens(1234), "1.2K");
    assert_eq!(format_tokens(1360), "1.4K");
    assert_eq!(format_tokens(999999), "1000.0K");
    assert_eq!(format_tokens(1000000), "1.0M");
    assert_eq!(format_tokens(2560000), "2.6M");
    assert_eq!(format_tokens(2540000), "2.5M");
}
