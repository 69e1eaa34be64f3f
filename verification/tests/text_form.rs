use rustifin::date::Date;

#[test]
fn display_string_form() {
    assert_eq!(
        Date::new(1, 1, 2030).display_string(),
        "Date(day=1, month=1, year=2030)"
    );
    assert_eq!(
        Date::new(30, 2, 2024).display_string(),
        "Date(day=30, month=2, year=2024)"
    );
    assert_eq!(
        Date::new(7, 10, -44).display_string(),
        "Date(day=7, month=10, year=-44)"
    );
    assert_eq!(Date::new(0, 0, 0).display_string(), "Date(day=0, month=0, year=0)");
}

#[test]
fn text_round_trip() {
    let cases = [
        Date::new(1, 1, 2030),
        Date::new(31, 12, 1999),
        Date::new(255, 255, i32::MAX),
        Date::new(0, 0, i32::MIN),
        Date::new(29, 2, 2024),
        Date::new(7, 10, -44),
    ];
    for d in cases {
        assert_eq!(Date::from_text(&d.to_text()), Some(d));
        assert_eq!(Date::from_text(d.display_string().as_bytes()), Some(d));
    }
}

#[test]
fn parse_accepts_canonical_text() {
    assert_eq!(
        Date::from_text(b"Date(day=31, month=12, year=-1)"),
        Some(Date::new(31, 12, -1))
    );
    assert_eq!(
        Date::from_text(b"Date(day=5, month=6, year=0)"),
        Some(Date::new(5, 6, 0))
    );
}

#[test]
fn parse_rejects_other_text() {
    assert_eq!(Date::from_text(b""), None);
    assert_eq!(Date::from_text(b"Date(day=1, month=1, year=2020"), None);
    assert_eq!(Date::from_text(b"Date(day=01, month=1, year=2020)"), None);
    assert_eq!(Date::from_text(b"Date(day=1, month=1, year=2020) "), None);
    assert_eq!(Date::from_text(b"Date(day=256, month=1, year=1)"), None);
    assert_eq!(Date::from_text(b"Date(day=1, month=1, year=-0)"), None);
    assert_eq!(Date::from_text(b"Date(day=, month=1, year=1)"), None);
    assert_eq!(Date::from_text(b"date(day=1, month=1, year=1)"), None);
    assert_eq!(Date::from_text(b"Date(day=1, month=1, year=2147483648)"), None);
    assert_eq!(Date::from_text(b"Date(day=1, month=1, year=-2147483649)"), None);
}

#[test]
fn parse_handles_extreme_years() {
    assert_eq!(
        Date::from_text(b"Date(day=1, month=1, year=2147483647)"),
        Some(Date::new(1, 1, i32::MAX))
    );
    assert_eq!(
        Date::from_text(b"Date(day=1, month=1, year=-2147483648)"),
        Some(Date::new(1, 1, i32::MIN))
    );
}
