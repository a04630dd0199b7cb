use world_learn::date::CivilDate;

fn date(y: i16, m: i8, d: i8) -> CivilDate {
    CivilDate::new(y, m, d).unwrap()
}

#[test]
fn new_accepts_only_calendar_dates() {
    assert!(CivilDate::new(2024, 2, 29).is_some());
    assert!(CivilDate::new(2023, 2, 29).is_none());
    assert!(CivilDate::new(2026, 13, 1).is_none());
    assert!(CivilDate::new(2026, 4, 31).is_none());
    assert!(CivilDate::new(2026, 8, 0).is_none());
    assert!(CivilDate::new(10000, 1, 1).is_none());
    assert!(CivilDate::new(2000, 2, 29).is_some());
    assert!(CivilDate::new(1900, 2, 29).is_none());
    let d = date(2026, 8, 15);
    assert_eq!((d.year(), d.month(), d.day()), (2026, 8, 15));
}

#[test]
fn days_since_counts_whole_days() {
    assert_eq!(date(2019, 1, 31).days_since(&date(2006, 8, 24)), 4543);
    assert_eq!(date(2006, 8, 24).days_since(&date(2019, 1, 31)), -4543);
    assert_eq!(date(2026, 8, 15).days_since(&date(2026, 8, 15)), 0);
    assert_eq!(date(2026, 3, 1).days_since(&date(2026, 2, 28)), 1);
}

#[test]
fn checked_add_days_moves_across_months_and_years() {
    assert_eq!(date(2024, 2, 28).checked_add_days(1), Some(date(2024, 2, 29)));
    assert_eq!(date(2026, 12, 31).checked_add_days(1), Some(date(2027, 1, 1)));
    assert_eq!(date(2026, 8, 15).checked_add_days(-1), Some(date(2026, 8, 14)));
    assert_eq!(date(9999, 12, 31).checked_add_days(1), None);
}

#[test]
fn ordering_is_chronological() {
    let a = date(2026, 8, 14);
    let b = date(2026, 8, 15);
    assert!(a.is_before(&b));
    assert!(!b.is_before(&a));
    assert!(!a.is_before(&a));
    assert!(a.is_on_or_before(&a));
    assert!(date(2025, 12, 31).is_before(&date(2026, 1, 1)));
    assert!(a < b);
}

#[test]
fn a_century_of_days_stays_in_range() {
    assert_eq!(date(2026, 8, 15).checked_add_days(36500), Some(date(2126, 7, 22)));
    assert_eq!(date(9800, 12, 31).checked_add_days(36500).map(|d| d.year()), Some(9900));
    assert_eq!(date(-9800, 1, 1).checked_add_days(-36500).map(|d| d.year()), Some(-9900));
}

#[test]
fn adding_then_counting_gives_the_days_back() {
    let start = date(2026, 8, 15);
    for n in [-800i64, -1, 0, 1, 17, 365, 36500] {
        let end = start.checked_add_days(n).unwrap();
        assert_eq!(i64::from(end.days_since(&start)), n);
    }
    // A longer interval lands later.
    let near = start.checked_add_days(3).unwrap();
    let far = start.checked_add_days(4).unwrap();
    assert!(near.is_before(&far));
    // The first and last supported dates bound the arithmetic.
    assert_eq!(date(-9999, 1, 1).checked_add_days(-1), None);
    assert_eq!(date(-9999, 1, 2).checked_add_days(-1), Some(date(-9999, 1, 1)));
    assert_eq!(date(9999, 12, 30).checked_add_days(1), Some(date(9999, 12, 31)));
}
