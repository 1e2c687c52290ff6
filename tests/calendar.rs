use delve::calendar::{parse_iso_date, CalendarDate};

#[test]
fn calendar_date_round_trip() {
    for year in [0u32, 1, 1999, 2024, 9999, 4_194_303] {
        for ordinal in [1u16, 59, 60, 365, 366] {
            let d = CalendarDate::from_year_ordinal(year, ordinal);
            assert_eq!(d.year(), year);
            assert_eq!(d.ordinal(), ordinal);
            assert_eq!(d.packed(), year << 9 | ordinal as u32);
        }
    }
}

#[test]
fn packed_order_is_chronological() {
    let a = CalendarDate::from_year_ordinal(2023, 365);
    let b = CalendarDate::from_year_ordinal(2024, 1);
    assert!(a.packed() < b.packed());
}

#[test]
fn parses_iso_dates() {
    let d = parse_iso_date("2024-01-10").unwrap();
    assert_eq!((d.year(), d.ordinal()), (2024, 10));
    let d = parse_iso_date("2024-03-01").unwrap();
    assert_eq!((d.year(), d.ordinal()), (2024, 61));
    let d = parse_iso_date("2023-12-31").unwrap();
    assert_eq!((d.year(), d.ordinal()), (2023, 365));
}

#[test]
fn rejects_bad_iso_dates() {
    assert!(parse_iso_date("2023-02-29").is_none());
    assert!(parse_iso_date("2024-13-01").is_none());
    assert!(parse_iso_date("2024-01").is_none());
    assert!(parse_iso_date("2024-01-").is_none());
    assert!(parse_iso_date("20x4-01-01").is_none());
    assert!(parse_iso_date("10000-01-01").is_none());
    assert!(parse_iso_date("").is_none());
}

#[test]
fn subtracts_days_across_years() {
    let d = parse_iso_date("2024-01-10").unwrap();
    let c = d.sub(7);
    assert_eq!((c.year(), c.ordinal()), (2024, 3));
    let c = parse_iso_date("2024-01-03").unwrap().sub(7);
    assert_eq!((c.year(), c.ordinal()), (2023, 361));
    let c = parse_iso_date("2024-03-01").unwrap().sub(1);
    assert_eq!((c.year(), c.ordinal()), (2024, 60));
}

#[test]
fn checked_sub_refuses_invalid_dates() {
    assert!(CalendarDate::from_year_ordinal(2023, 366).checked_sub(1).is_none());
    assert!(CalendarDate::from_year_ordinal(0, 3).checked_sub(7).is_none());
    let c = CalendarDate::from_year_ordinal(2024, 366).checked_sub(366).unwrap();
    assert_eq!((c.year(), c.ordinal()), (2023, 365));
}

#[test]
fn iso_dates_take_no_signs() {
    assert!(parse_iso_date("+2024-+1-+2").is_none());
    assert!(parse_iso_date("2024-01-+2").is_none());
    assert!(parse_iso_date("2024-1-2").is_some());
}
