use elsewhere::gazetteer::{parse_countries, report, span, RawCity, Span, Summary};

fn city(country_code: &str, admin1_code: &str, timezone: &str) -> RawCity {
    RawCity {
        geonameid: 1,
        name: "A".to_string(),
        asciiname: "A".to_string(),
        alternatenames: Vec::new(),
        feature_class: 'P',
        feature_code: "PPL".to_string(),
        country_code: country_code.to_string(),
        admin1_code: admin1_code.to_string(),
        population: 1,
        timezone: timezone.to_string(),
    }
}

#[test]
fn the_span_counts_distinct_zones_and_unknown_countries() {
    let mut row = vec!["x"; 19];
    row[0] = "JP";
    row[4] = "Japan";
    let countries = parse_countries(&row.join("\t")).unwrap();
    let cities = vec![
        city("JP", "40", "Asia/Tokyo"),
        city("JP", "", "Asia/Tokyo"),
        city("XK", "", "Europe/Belgrade"),
        city("XK", "01", "Europe/Belgrade"),
        city("ZZ", "", "UTC"),
    ];
    let span = span(&cities, &countries);
    assert_eq!(span.timezones, 3);
    assert_eq!(span.empty_admin1, 3);
    assert_eq!(span.unknown_countries, 2);

    let none = span_of_nothing();
    assert_eq!((none.timezones, none.empty_admin1, none.unknown_countries), (0, 0, 0));
}

fn span_of_nothing() -> Span {
    span(&[], &parse_countries("").unwrap())
}

#[test]
fn the_report_lines_up_its_columns() {
    let summary = Summary {
        parsed: 120,
        filtered: 100,
        kept: 97,
        dropped: vec![("PPLX".to_string(), 12), ("STLMT".to_string(), 8)],
        countries: 252,
        admin1: 3862,
        span: Span {
            timezones: 40,
            empty_admin1: 2,
            unknown_countries: 0,
        },
    };
    let want = "\
parsed rows        120
dropped by feature 20
collapsed by dedup 3
kept rows          97

dropped per feature code:
  PPLX      12
  STLMT      8

lookup tables:
  countries 252
  admin1    3862

kept rows span:
  timezones             40
  empty admin1 codes    2
  unknown country codes 0
";
    assert_eq!(report(&summary), want);
}

#[test]
fn long_codes_and_counts_overflow_their_columns() {
    let summary = Summary {
        parsed: 1_000_000,
        filtered: 0,
        kept: 0,
        dropped: vec![("PPLCHX".to_string(), 123_456), ("É".to_string(), 1)],
        countries: 0,
        admin1: 0,
        span: Span {
            timezones: 0,
            empty_admin1: 0,
            unknown_countries: 0,
        },
    };
    let text = report(&summary);
    assert!(text.contains("\n  PPLCHX 123456\n"), "{text}");
    assert!(text.contains("\n  É          1\n"), "{text}");
    assert_eq!(
        format!("  {:<6} {:>5}\n", "É", 1),
        "  É          1\n"
    );
}
