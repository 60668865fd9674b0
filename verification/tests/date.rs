use lab::date::CivilDate;

#[test]
fn only_real_dates_are_dates() {
    assert!(CivilDate::new(2024, 2, 29).is_some());
    assert!(CivilDate::new(2023, 2, 29).is_none());
    assert!(CivilDate::new(1900, 2, 29).is_none());
    assert!(CivilDate::new(2000, 2, 29).is_some());
    assert!(CivilDate::new(2026, 4, 31).is_none());
    assert!(CivilDate::new(2026, 13, 1).is_none());
    assert!(CivilDate::new(2026, 1, 0).is_none());
    let d = CivilDate::new(2026, 8, 30).unwrap();
    assert_eq!((d.year, d.month, d.day), (2026, 8, 30));
}
