use rpi_provision::apply::{Change, ChangeKind};
use rpi_provision::cli::commands::{civil_from_days, tally, utc_timestamp};

#[test]
fn the_timestamp_is_a_utc_instant() {
    let seconds = std::time::SystemTime::now()
        .duration_since(std::time::UNIX_EPOCH)
        .map(|elapsed| elapsed.as_secs())
        .unwrap_or(0);
    let stamp = utc_timestamp(seconds);
    assert_eq!(stamp.len(), 20, "{stamp}");
    assert!(stamp.ends_with('Z'), "{stamp}");
    assert_eq!(civil_from_days(0), (1970, 1, 1));
    assert_eq!(civil_from_days(11_016), (2000, 2, 29), "2000 was a leap year");
    assert_eq!(civil_from_days(47_482), (2100, 1, 1), "2100 is not");
}

#[test]
fn timestamps_are_formatted_exactly() {
    assert_eq!(utc_timestamp(0), "1970-01-01T00:00:00Z");
    assert_eq!(utc_timestamp(951_782_400 + 3_661), "2000-02-29T01:01:01Z");
    assert_eq!(utc_timestamp(1_786_492_799), "2026-08-11T23:59:59Z");
}

#[test]
fn days_before_the_epoch_are_dates_too() {
    assert_eq!(civil_from_days(-1), (1969, 12, 31));
    assert_eq!(civil_from_days(-719_468), (0, 3, 1));
    assert_eq!(civil_from_days(365), (1971, 1, 1));
}

fn change(kind: ChangeKind) -> Change {
    Change { path: "p".to_string(), kind, sensitive: false, diff: None }
}

#[test]
fn changes_are_tallied_by_kind() {
    let changes = vec![
        change(ChangeKind::Create),
        change(ChangeKind::Update),
        change(ChangeKind::Create),
        change(ChangeKind::Unchanged),
        change(ChangeKind::Delete),
        change(ChangeKind::AlreadyAbsent),
    ];
    assert_eq!(tally(&changes), (2, 1, 1, 1));
    assert_eq!(tally(&[]), (0, 0, 0, 0));
}
