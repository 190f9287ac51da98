use headwater_check::context::{Context, Date};

#[test]
fn a_date_round_trips_through_the_day_count() {
    for text in [
        "1970-01-01",
        "2000-02-29",
        "2026-08-12",
        "1900-03-01",
        "2100-12-31",
    ] {
        assert_eq!(Date::parse(text).expect(text).render(), text);
    }
}

#[test]
fn the_epoch_is_day_zero_and_the_arithmetic_is_whole_days() {
    let epoch = Date::parse("1970-01-01").expect("the epoch");
    assert_eq!(Date::parse("1970-01-02").expect("d").days_since(epoch), 1);
    assert_eq!(
        Date::parse("2026-08-12")
            .expect("d")
            .days_since(Date::parse("2026-07-13").expect("d")),
        30
    );
    assert_eq!(epoch.days_since(Date::parse("1970-01-31").expect("d")), -30);
}

#[test]
fn a_value_that_is_not_a_date_reads_as_nothing() {
    for text in [
        "",
        "2026-8-12",
        "2026/08/12",
        "2026-13-01",
        "2026-02-30",
        "2025-02-29",
        "2026-08-12T09:00:00Z",
        "yesterday",
    ] {
        assert_eq!(Date::parse(text), None, "{text} read as a date");
    }
}

#[test]
fn surrounding_space_is_not_part_of_a_date_and_a_sign_is_no_digit() {
    assert_eq!(Date::parse("  2026-08-12\n"), Date::parse("2026-08-12"));
    assert_eq!(Date::parse("+123-01-02"), None);
    assert_eq!(Date::parse("-123-01-02"), None);
    assert_eq!(Date::parse("2026-+8-12"), None);
    assert_eq!(Date::parse("2026-+1-01"), None);
    assert_eq!(Date::parse("2026--8-12"), None);
    assert_eq!(Date::parse("0123-01-02").expect("a year of four digits").render(), "0123-01-02");
}

#[test]
fn the_day_count_is_the_epoch_offset() {
    assert_eq!(Date::from_days(0).render(), "1970-01-01");
    assert_eq!(Date::from_days(-1).render(), "1969-12-31");
    assert_eq!(Date::from_days(11_016).render(), "2000-02-29");
    assert_eq!(Date::parse("2000-03-01").expect("d").days_since(Date::from_days(0)), 11_017);
}

#[test]
fn a_context_carries_the_day_it_was_given() {
    let day = Date::parse("2026-08-12").expect("d");
    assert_eq!(Context::at(day).now(), day);
    assert_eq!(Context::at_elapsed(86_400 * 2 + 5).now(), Date::from_days(2));
    assert!(Context::from_system_clock().is_some());
}
