use emergency_dispatch::clock::{parse_time, pred_date, resolve_event_date, datetime_key, Date,
    DateTime};
use emergency_dispatch::text::{pad2, pad2_min, pad4, u64_str};
use emergency_dispatch::is_yahiko_location;
use emergency_dispatch::to_half_width;

fn dt(year: u16, month: u8, day: u8, hour: u8, minute: u8) -> DateTime {
    DateTime { date: Date { year, month, day }, hour, minute }
}

#[test]
fn parse_time_accepts_well_formed_times() {
    assert_eq!(parse_time("23:55"), Some((23, 55)));
    assert_eq!(parse_time("00:00"), Some((0, 0)));
    assert_eq!(parse_time("9:5"), Some((9, 5)));
    assert_eq!(parse_time("9:30"), Some((9, 30)));
    assert_eq!(parse_time("12:07"), Some((12, 7)));
}

#[test]
fn parse_time_rejects_malformed_times() {
    assert_eq!(parse_time(""), None);
    assert_eq!(parse_time("24:00"), None);
    assert_eq!(parse_time("12:60"), None);
    assert_eq!(parse_time("1234"), None);
    assert_eq!(parse_time("12:3a"), None);
    assert_eq!(parse_time("a2:30"), None);
    assert_eq!(parse_time("123:45"), None);
    assert_eq!(parse_time("12:345"), None);
    assert_eq!(parse_time("12::45"), None);
}

#[test]
fn midnight_rollback_resolves_to_previous_day() {
    // a run just after midnight sees an event reported at 23:55 the
    // evening before
    let now = dt(2025, 1, 15, 0, 10);
    let resolved = resolve_event_date(&now, 23, 55);
    assert_eq!(resolved, Date { year: 2025, month: 1, day: 14 });
}

#[test]
fn same_day_time_stays_on_today() {
    let now = dt(2025, 1, 15, 12, 0);
    let resolved = resolve_event_date(&now, 11, 30);
    assert_eq!(resolved, Date { year: 2025, month: 1, day: 15 });
}

#[test]
fn grace_window_absorbs_small_skew() {
    // ten minutes ahead of the clock is still today; eleven is not
    let now = dt(2025, 1, 15, 12, 0);
    assert_eq!(resolve_event_date(&now, 12, 10), Date { year: 2025, month: 1, day: 15 });
    assert_eq!(resolve_event_date(&now, 12, 11), Date { year: 2025, month: 1, day: 14 });
}

#[test]
fn pred_date_rolls_over_month_and_year() {
    assert_eq!(pred_date(&Date { year: 2025, month: 1, day: 15 }), Date {
        year: 2025,
        month: 1,
        day: 14,
    });
    assert_eq!(pred_date(&Date { year: 2025, month: 1, day: 1 }), Date {
        year: 2024,
        month: 12,
        day: 31,
    });
    assert_eq!(pred_date(&Date { year: 2024, month: 3, day: 1 }), Date {
        year: 2024,
        month: 2,
        day: 29,
    });
    assert_eq!(pred_date(&Date { year: 2025, month: 3, day: 1 }), Date {
        year: 2025,
        month: 2,
        day: 28,
    });
    assert_eq!(pred_date(&Date { year: 2100, month: 3, day: 1 }), Date {
        year: 2100,
        month: 2,
        day: 28,
    });
    assert_eq!(pred_date(&Date { year: 2000, month: 3, day: 1 }), Date {
        year: 2000,
        month: 2,
        day: 29,
    });
}

#[test]
fn datetime_key_orders_across_midnight() {
    let before = datetime_key(&Date { year: 2025, month: 1, day: 14 }, 23, 55);
    let after = datetime_key(&Date { year: 2025, month: 1, day: 15 }, 0, 10);
    assert!(before < after);
}

#[test]
fn to_half_width_maps_full_width_digits_only() {
    assert_eq!(to_half_width("１２３４５６７８９０"), "1234567890");
    assert_eq!(to_half_width("１２：３４"), "12：34");
    assert_eq!(to_half_width("abc 12"), "abc 12");
    assert_eq!(to_half_width(""), "");
}

#[test]
fn yahiko_locations_are_recognized() {
    assert!(is_yahiko_location("弥彦"));
    assert!(is_yahiko_location("矢作地内"));
    assert!(is_yahiko_location("大字上泉"));
    assert!(!is_yahiko_location("吉田本所"));
    assert!(!is_yahiko_location(""));
}

#[test]
fn decimal_rendering() {
    assert_eq!(u64_str(0), "0");
    assert_eq!(u64_str(7), "7");
    assert_eq!(u64_str(2025), "2025");
    assert_eq!(pad2(0), "00");
    assert_eq!(pad2(7), "07");
    assert_eq!(pad2(42), "42");
    assert_eq!(pad4(2025), "2025");
    assert_eq!(pad4(31), "0031");
    assert_eq!(pad2_min(1), "01");
    assert_eq!(pad2_min(99), "99");
    assert_eq!(pad2_min(123), "123");
}
