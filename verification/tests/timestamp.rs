use macfs::timestamp::MAC_EPOCH_TO_UNIX;
use macfs::MacTimestamp;

#[test]
fn mac_epoch() {
    assert_eq!(MacTimestamp(0).to_ymd_hms(), (1904, 1, 1, 0, 0, 0));
    assert_eq!(MacTimestamp(0).to_unix(), -MAC_EPOCH_TO_UNIX);
}

#[test]
fn unix_epoch() {
    let t = MacTimestamp(2_082_844_800);
    assert_eq!(t.to_ymd_hms(), (1970, 1, 1, 0, 0, 0));
    assert_eq!(t.to_unix(), 0);
}

#[test]
fn modern_value() {
    // unix 1_577_836_800 == 2020-01-01 00:00:00
    let t = MacTimestamp(3_660_681_600);
    assert_eq!(t.to_unix(), 1_577_836_800);
    assert_eq!(t.to_ymd_hms(), (2020, 1, 1, 0, 0, 0));
}

#[test]
fn time_of_day_and_leap_days() {
    // 1984-01-24 12:34:56, the Mac's introduction.
    let t = MacTimestamp::from_unix(443_795_696).unwrap();
    assert_eq!(t.to_ymd_hms(), (1984, 1, 24, 12, 34, 56));
    // 2000 was a leap year (divisible by 400); 1900 was not.
    assert_eq!(
        MacTimestamp::from_unix(951_782_400).unwrap().to_ymd_hms(),
        (2000, 2, 29, 0, 0, 0)
    );
    // Last second of a year.
    assert_eq!(
        MacTimestamp::from_unix(1_609_459_199).unwrap().to_ymd_hms(),
        (2020, 12, 31, 23, 59, 59)
    );
}

#[test]
fn from_unix_round_trip() {
    for &u in &[
        -MAC_EPOCH_TO_UNIX,
        -1,
        0,
        1,
        1_577_836_800,
        u32::MAX as i64 - MAC_EPOCH_TO_UNIX,
    ] {
        let t = MacTimestamp::from_unix(u).expect("in range");
        assert_eq!(t.to_unix(), u);
        assert_eq!(MacTimestamp::from_unix(t.to_unix()), Some(t));
    }
}

#[test]
fn from_unix_out_of_range() {
    assert_eq!(MacTimestamp::from_unix(-MAC_EPOCH_TO_UNIX - 1), None);
    assert_eq!(
        MacTimestamp::from_unix(u32::MAX as i64 - MAC_EPOCH_TO_UNIX + 1),
        None
    );
    assert_eq!(MacTimestamp::from_unix(i64::MAX), None);
    assert_eq!(MacTimestamp::from_unix(i64::MIN), None);
}

#[test]
fn display_format() {
    assert_eq!(MacTimestamp(0).to_string(), "1904-01-01 00:00:00");
    assert_eq!(
        MacTimestamp(2_082_844_800).to_string(),
        "1970-01-01 00:00:00"
    );
    assert_eq!(
        MacTimestamp::from_unix(443_795_696).unwrap().to_string(),
        "1984-01-24 12:34:56"
    );
    assert_eq!(MacTimestamp(u32::MAX).to_string(), "2040-02-06 06:28:15");
}

#[test]
fn now_is_plausible() {
    // Anything after 2024 and inside the u32 range.
    let now = MacTimestamp::now();
    assert!(now.to_unix() > 1_704_067_200, "now() = {}", now.to_string());
    assert!(now.0 < u32::MAX);
}

#[test]
fn ordering_is_chronological() {
    assert!(MacTimestamp(0) < MacTimestamp(1));
    let mut v = [MacTimestamp(5), MacTimestamp(1), MacTimestamp(3)];
    v.sort();
    assert_eq!(v, [MacTimestamp(1), MacTimestamp(3), MacTimestamp(5)]);
}

/// A later timestamp is a later date, over the ends of days, months and years.
#[test]
fn later_timestamps_are_later_dates() {
    assert_eq!(MacTimestamp(u32::MAX).to_ymd_hms(), (2040, 2, 6, 6, 28, 15));
    // 1904-02-29, 1904-12-31 and 2000-02-28, each a second before its end.
    for t in [5_183_999u32, 31_622_399, 3_034_627_199] {
        let (before, behind) = (MacTimestamp(t), MacTimestamp(t + 1));
        assert!(before.to_ymd_hms() < behind.to_ymd_hms());
        assert_eq!(before.to_ymd_hms().5, 59);
        assert_eq!(behind.to_ymd_hms().5, 0);
    }
}
