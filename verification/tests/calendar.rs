use vasak_connect::calendar::{civil_from_days, iso8601, now_iso8601, stamp_of_clock};

#[test]
fn the_epoch_formats_correctly() {
    assert_eq!(civil_from_days(0), (1970, 1, 1));
}

#[test]
fn a_leap_day_is_not_off_by_one() {
    // 2024-02-29 is 19782 days after the epoch.
    assert_eq!(civil_from_days(19_782), (2024, 2, 29));
}

#[test]
fn the_stamp_has_the_shape_the_config_expects() {
    let stamp = now_iso8601();
    assert_eq!(stamp.len(), 20, "{stamp}");
    assert!(stamp.ends_with('Z'));
    assert_eq!(stamp.as_bytes()[10], b'T');
}

#[test]
fn the_clock_is_past_the_day_this_was_written() {
    // Stamps of four-digit years sort as they follow each other.
    assert!(now_iso8601() > "2024-01-01T00:00:00Z".to_string());
}

#[test]
fn days_around_the_turns_of_the_calendar() {
    assert_eq!(civil_from_days(-1), (1969, 12, 31));
    assert_eq!(civil_from_days(11_016), (2000, 2, 29));
    assert_eq!(civil_from_days(11_017), (2000, 3, 1));
    assert_eq!(civil_from_days(-25_509), (1900, 2, 28));
    assert_eq!(civil_from_days(-25_508), (1900, 3, 1));
    assert_eq!(civil_from_days(-719_468), (0, 3, 1));
    assert_eq!(civil_from_days(-719_469), (0, 2, 29));
    assert_eq!(civil_from_days(-719_529), (-1, 12, 31));
}

#[test]
fn every_day_follows_the_one_before() {
    let mut before = civil_from_days(-800_000);
    for z in -799_999..800_000 {
        let day = civil_from_days(z);
        let next_day = day.0 == before.0 && day.1 == before.1 && day.2 == before.2 + 1;
        let next_month = day.0 == before.0 && day.1 == before.1 + 1 && day.2 == 1;
        let next_year = day.0 == before.0 + 1 && before.1 == 12 && day.1 == 1 && day.2 == 1;
        assert!(next_day || next_month || next_year, "{:?} after {:?}", day, before);
        before = day;
    }
}

#[test]
fn seconds_become_a_stamp() {
    assert_eq!(iso8601(0), "1970-01-01T00:00:00Z");
    assert_eq!(iso8601(1_709_164_799), "2024-02-28T23:59:59Z");
    assert_eq!(iso8601(1_709_210_096), "2024-02-29T12:34:56Z");
    assert_eq!(iso8601(253_402_300_799), "9999-12-31T23:59:59Z");
    // Later years have five digits.
    assert_eq!(iso8601(253_402_300_800), "10000-01-01T00:00:00Z");
}

#[test]
fn a_clock_before_the_epoch_shows_the_epoch() {
    assert_eq!(stamp_of_clock(None), "1970-01-01T00:00:00Z");
    assert_eq!(stamp_of_clock(Some(86_399)), "1970-01-01T23:59:59Z");
}
