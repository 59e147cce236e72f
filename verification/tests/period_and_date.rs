use tracker::date::{Date, LAST_DAY};
use tracker::error::Error;
use tracker::period::{parse, Period};
use tracker::text::{chars_of, less, same};

#[test]
fn parse_reads_days() {
    assert_eq!(parse("7d"), Ok(Period { days: 7 }));
    assert_eq!(parse("30d"), Ok(Period { days: 30 }));
    assert_eq!(parse("1d"), Ok(Period { days: 1 }));
}

#[test]
fn parse_reads_weeks_as_seven_days() {
    assert_eq!(parse("1w"), Ok(Period { days: 7 }));
    assert_eq!(parse("2w"), Ok(Period { days: 14 }));
    assert_eq!(parse("52w"), Ok(Period { days: 364 }));
}

#[test]
fn parse_accepts_zero_and_leading_zeros() {
    assert_eq!(parse("0d"), Ok(Period { days: 0 }));
    assert_eq!(parse("0w"), Ok(Period { days: 0 }));
    assert_eq!(parse("007d"), Ok(Period { days: 7 }));
}

#[test]
fn parse_rejects_empty_text() {
    assert_eq!(parse(""), Err(Error::InvalidPeriodFormat));
}

#[test]
fn parse_rejects_unknown_unit() {
    assert_eq!(parse("10x"), Err(Error::InvalidPeriodFormat));
    assert_eq!(parse("7D"), Err(Error::InvalidPeriodFormat));
    assert_eq!(parse("7m"), Err(Error::InvalidPeriodFormat));
}

#[test]
fn parse_rejects_negative_magnitude() {
    assert_eq!(parse("-5d"), Err(Error::InvalidPeriodFormat));
    assert_eq!(parse("+5d"), Err(Error::InvalidPeriodFormat));
}

#[test]
fn parse_rejects_missing_parts() {
    assert_eq!(parse("d"), Err(Error::InvalidPeriodFormat));
    assert_eq!(parse("w"), Err(Error::InvalidPeriodFormat));
    assert_eq!(parse("7"), Err(Error::InvalidPeriodFormat));
    assert_eq!(parse("70"), Err(Error::InvalidPeriodFormat));
}

#[test]
fn parse_rejects_stray_characters() {
    assert_eq!(parse(" 7d"), Err(Error::InvalidPeriodFormat));
    assert_eq!(parse("7 d"), Err(Error::InvalidPeriodFormat));
    assert_eq!(parse("7d "), Err(Error::InvalidPeriodFormat));
    assert_eq!(parse("7dd"), Err(Error::InvalidPeriodFormat));
    assert_eq!(parse("1.5d"), Err(Error::InvalidPeriodFormat));
    assert_eq!(parse("٧d"), Err(Error::InvalidPeriodFormat));
}

#[test]
fn parse_keeps_to_sixty_four_bits() {
    assert_eq!(parse("18446744073709551615d"), Ok(Period { days: u64::MAX }));
    assert_eq!(parse("18446744073709551616d"), Err(Error::InvalidPeriodFormat));
    assert_eq!(parse("99999999999999999999999d"), Err(Error::InvalidPeriodFormat));
    assert_eq!(parse("2635249153387078802w"), Ok(Period { days: 18446744073709551614 }));
    assert_eq!(parse("2635249153387078803w"), Err(Error::InvalidPeriodFormat));
}

#[test]
fn date_numbers_count_from_the_first_day() {
    assert_eq!(Date::new(1, 1, 1).unwrap().day_number(), 1);
    assert_eq!(Date::new(1, 12, 31).unwrap().day_number(), 365);
    assert_eq!(Date::new(1970, 1, 1).unwrap().day_number(), 719_163);
    assert_eq!(Date::new(2024, 1, 1).unwrap().day_number(), 738_886);
    assert_eq!(Date::new(2024, 2, 1).unwrap().day_number(), 738_917);
    assert_eq!(Date::new(9999, 12, 31).unwrap().day_number(), LAST_DAY);
}

#[test]
fn date_knows_leap_years() {
    assert!(Date::new(2024, 2, 29).is_some());
    assert!(Date::new(2023, 2, 29).is_none());
    assert!(Date::new(2000, 2, 29).is_some());
    assert!(Date::new(1900, 2, 29).is_none());
    assert_eq!(
        Date::new(2024, 3, 1).unwrap().day_number() - Date::new(2024, 2, 28).unwrap().day_number(),
        2
    );
    assert_eq!(
        Date::new(2023, 3, 1).unwrap().day_number() - Date::new(2023, 2, 28).unwrap().day_number(),
        1
    );
}

#[test]
fn date_rejects_what_the_calendar_lacks() {
    assert!(Date::new(0, 1, 1).is_none());
    assert!(Date::new(-1, 1, 1).is_none());
    assert!(Date::new(10000, 1, 1).is_none());
    assert!(Date::new(2024, 0, 1).is_none());
    assert!(Date::new(2024, 13, 1).is_none());
    assert!(Date::new(2024, 1, 0).is_none());
    assert!(Date::new(2024, 1, 32).is_none());
    assert!(Date::new(2024, 4, 31).is_none());
    assert!(Date::new(2024, 4, 30).is_some());
}

#[test]
fn date_gives_back_year_month_day() {
    let cases = [
        (1, 1, 1),
        (1, 12, 31),
        (4, 2, 29),
        (1900, 3, 1),
        (1999, 12, 31),
        (2000, 1, 1),
        (2000, 2, 29),
        (2000, 12, 31),
        (2024, 1, 31),
        (2024, 2, 1),
        (2024, 2, 29),
        (2024, 12, 31),
        (2025, 1, 1),
        (9999, 1, 1),
        (9999, 12, 31),
    ];
    for (y, m, d) in cases {
        let date = Date::new(y, m, d).unwrap();
        assert_eq!(date.ymd(), (y, m, d));
        assert_eq!(date.year(), y);
        assert_eq!(date.month(), m);
        assert_eq!(date.day(), d);
    }
}

#[test]
fn date_round_trips_every_day_of_four_centuries() {
    let first = Date::new(1900, 1, 1).unwrap().day_number();
    let last = Date::new(2300, 12, 31).unwrap().day_number();
    let mut n = first;
    let mut expected = (1900, 1, 1);
    while n <= last {
        let date = Date::from_day_number(n).unwrap();
        let (y, m, d) = date.ymd();
        assert_eq!((y, m, d), expected);
        assert_eq!(Date::new(y, m, d).unwrap().day_number(), n);
        let next = Date::new(y, m, d + 1)
            .map(|_| (y, m, d + 1))
            .or_else(|| Date::new(y, m + 1, 1).map(|_| (y, m + 1, 1)))
            .unwrap_or((y + 1, 1, 1));
        expected = next;
        n += 1;
    }
}

#[test]
fn date_from_day_number_keeps_to_the_calendar() {
    assert!(Date::from_day_number(0).is_none());
    assert_eq!(Date::from_day_number(1), Date::new(1, 1, 1));
    assert_eq!(Date::from_day_number(LAST_DAY), Date::new(9999, 12, 31));
    assert!(Date::from_day_number(LAST_DAY + 1).is_none());
}

#[test]
fn date_minus_days_steps_back() {
    let today = Date::new(2024, 2, 1).unwrap();
    assert_eq!(today.minus_days(0), today);
    assert_eq!(today.minus_days(1), Date::new(2024, 1, 31).unwrap());
    assert_eq!(today.minus_days(7), Date::new(2024, 1, 25).unwrap());
    assert_eq!(today.minus_days(31), Date::new(2024, 1, 1).unwrap());
    assert_eq!(today.minus_days(32), Date::new(2023, 12, 31).unwrap());
    assert_eq!(Date::new(2024, 3, 1).unwrap().minus_days(1), Date::new(2024, 2, 29).unwrap());
    assert_eq!(today.minus_days(366), Date::new(2023, 1, 31).unwrap());
}

#[test]
fn date_minus_days_stops_at_the_first_day() {
    let first = Date::new(1, 1, 1).unwrap();
    let today = Date::new(2024, 2, 1).unwrap();
    assert_eq!(today.minus_days(738_916), first);
    assert_eq!(today.minus_days(738_917), first);
    assert_eq!(today.minus_days(u64::MAX), first);
    assert_eq!(first.minus_days(1), first);
}

#[test]
fn date_compares_by_day() {
    let a = Date::new(2024, 1, 31).unwrap();
    let b = Date::new(2024, 2, 1).unwrap();
    assert!(a.is_before(&b));
    assert!(!b.is_before(&a));
    assert!(!a.is_before(&a));
    assert!(a.is_same(&a));
    assert!(!a.is_same(&b));
    assert!(Date::new(2023, 12, 31).unwrap().is_before(&Date::new(2024, 1, 1).unwrap()));
}

#[test]
fn names_compare_as_strings_do() {
    let names = ["", "a", "A", "ab", "abc", "b", "ç", "z", "zz", "é", "日本", "~", "a b", "B"];
    for x in names {
        for y in names {
            assert_eq!(less(x, y), x < y, "{:?} < {:?}", x, y);
            assert_eq!(same(x, y), x == y, "{:?} == {:?}", x, y);
        }
    }
}

#[test]
fn names_are_case_sensitive() {
    assert!(!same("Rust", "rust"));
    assert!(less("Rust", "rust"));
    assert!(same("rust", "rust"));
}

#[test]
fn chars_of_gives_each_character() {
    assert_eq!(chars_of(""), Vec::<char>::new());
    assert_eq!(chars_of("7d"), vec!['7', 'd']);
    assert_eq!(chars_of("çay"), vec!['ç', 'a', 'y']);
}

#[test]
fn error_names_are_distinct() {
    let all = [
        Error::DuplicateProject,
        Error::DuplicateBlock,
        Error::ProjectNotFound,
        Error::BlockNotFound,
        Error::InvalidDuration,
        Error::InvalidPeriodFormat,
        Error::PersistenceFailure,
    ];
    for (i, a) in all.iter().enumerate() {
        for (j, b) in all.iter().enumerate() {
            assert_eq!(a.name() == b.name(), i == j);
        }
    }
    assert_eq!(Error::DuplicateProject.name(), "duplicate project");
    assert_eq!(Error::InvalidPeriodFormat.name(), "invalid period format");
}

#[test]
fn date_text_fills_up_with_zeros() {
    assert_eq!(Date::new(2024, 1, 1).unwrap().text(), "2024-01-01");
    assert_eq!(Date::new(2024, 12, 31).unwrap().text(), "2024-12-31");
    assert_eq!(Date::new(1, 1, 1).unwrap().text(), "0001-01-01");
    assert_eq!(Date::new(987, 6, 5).unwrap().text(), "0987-06-05");
    assert_eq!(Date::new(9999, 12, 31).unwrap().text(), "9999-12-31");
    assert_eq!(Date::new(2000, 2, 29).unwrap().text(), "2000-02-29");
}

#[test]
fn date_parse_reads_year_month_day() {
    assert_eq!(Date::parse("2024-01-01"), Date::new(2024, 1, 1));
    assert_eq!(Date::parse("2024-02-29"), Date::new(2024, 2, 29));
    assert_eq!(Date::parse("0001-01-01"), Date::new(1, 1, 1));
    assert_eq!(Date::parse("9999-12-31"), Date::new(9999, 12, 31));
    assert_eq!(Date::parse("2024-01-20").unwrap().day_number(), 738_905);
}

#[test]
fn date_parse_rejects_other_forms() {
    let bad = [
        "",
        "2024",
        "2024-1-1",
        "2024-01-1",
        "24-01-01",
        "02024-01-01",
        "2024/01/01",
        "2024-01-01 ",
        " 2024-01-01",
        "2024-01-01T00:00",
        "2024-01_01",
        "20240101",
        "2024-0a-01",
        "202x-01-01",
        "2024-01-0x",
        "-024-01-01",
        "2024-13-01",
        "2024-00-10",
        "2024-01-00",
        "2024-01-32",
        "2023-02-29",
        "1900-02-29",
        "0000-01-01",
        "２０２４-01-01",
        "2024-01-0１",
    ];
    for t in bad {
        assert_eq!(Date::parse(t), None, "{:?}", t);
    }
}

#[test]
fn date_text_and_parse_undo_each_other() {
    let mut n = 1;
    while n <= LAST_DAY {
        let date = Date::from_day_number(n).unwrap();
        let text = date.text();
        assert_eq!(text.len(), 10);
        assert_eq!(Date::parse(&text), Some(date), "{}", text);
        n += 997;
    }
}
