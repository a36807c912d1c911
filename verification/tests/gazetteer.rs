use elsewhere::gazetteer::{
    beats, columns_error, dedup, dropped_per_feature, is_kept, keep_by_feature, parse_admin1,
    parse_countries, RawCity,
};

const COUNTRIES: &str = "\
# comment line
#ISO\tISO3\tISO-Numeric\tfips\tCountry\tCapital\tArea(in sq km)\tPopulation\tContinent\ttld\tCurrencyCode\tCurrencyName\tPhone\tPostal Code Format\tPostal Code Regex\tLanguages\tgeonameid\tneighbours\tEquivalentFipsCode
AD\tAND\t020\tAN\tAndorra\tAndorra la Vella\t468\t77006\tEU\t.ad\tEUR\tEuro\t376\tAD###\t^(?:AD)*(\\d{3})$\tca\t3041565\tES,FR\t
JP\tJPN\t392\tJA\tJapan\tTokyo\t377835\t126529100\tAS\t.jp\tJPY\tYen\t81\t###-####\t^\\d{3}-\\d{4}$\tja\t1861060\t\t";

const ADMIN1: &str = "\
AD.06\tSant Julià de Lòria\tSant Julia de Loria\t3039162
JP.40\tTokyo\tTokyo\t1850144";

#[test]
fn parses_countries_skipping_comments() {
    let countries = parse_countries(COUNTRIES).unwrap();
    assert_eq!(countries.len(), 2);
    assert_eq!(*countries.get("JP").unwrap(), "Japan");
    assert_eq!(*countries.get("AD").unwrap(), "Andorra");
}

#[test]
fn parses_admin1() {
    let admin1 = parse_admin1(ADMIN1).unwrap();
    assert_eq!(*admin1.get("AD.06").unwrap(), "Sant Julià de Lòria");
    assert_eq!(*admin1.get("JP.40").unwrap(), "Tokyo");
}

#[test]
fn a_short_row_is_reported_by_line() {
    let err = parse_admin1("AD.06\tX\tX\t1\nJP.40\tTokyo\n").err().unwrap();
    assert_eq!(err, "line 2: expected 4 columns, got 2");
    let err = parse_countries("# fine\n\nAD\tAND\n").err().unwrap();
    assert_eq!(err, "line 3: expected 19 columns, got 2");
}

#[test]
fn a_later_row_replaces_an_earlier_one() {
    let admin1 = parse_admin1("K\tfirst\tx\t1\r\nK\tsecond\tx\t2\r\n").unwrap();
    assert_eq!(admin1.len(), 1);
    assert_eq!(*admin1.get("K").unwrap(), "second");
}

#[test]
fn the_column_message_names_the_line() {
    assert_eq!(columns_error(1, 19, 3), "line 1: expected 19 columns, got 3");
    assert_eq!(columns_error(120, 4, 0), "line 120: expected 4 columns, got 0");
}

fn city(
    geonameid: u32,
    name: &str,
    country_code: &str,
    admin1_code: &str,
    feature_code: &str,
    population: u64,
) -> RawCity {
    RawCity {
        geonameid,
        name: name.to_string(),
        asciiname: name.to_string(),
        alternatenames: Vec::new(),
        feature_class: 'P',
        feature_code: feature_code.to_string(),
        country_code: country_code.to_string(),
        admin1_code: admin1_code.to_string(),
        population,
        timezone: "UTC".to_string(),
    }
}

fn ids(cities: &[RawCity]) -> Vec<u32> {
    cities.iter().map(|city| city.geonameid).collect()
}

#[test]
fn keeps_only_allowlisted_feature_codes() {
    let cities = vec![
        city(1, "London", "GB", "ENG", "PPLC", 8961989),
        city(2, "Camden Town", "GB", "ENG", "PPLX", 50000),
        city(3, "Ruins", "GB", "ENG", "PPLQ", 0),
        city(4, "Farm", "GB", "ENG", "PPLF", 5000),
        city(5, "Old Town", "GB", "ENG", "PPLH", 0),
        city(6, "Camp", "GB", "ENG", "STLMT", 5000),
    ];
    assert_eq!(ids(&keep_by_feature(cities)), [1, 4]);
}

#[test]
fn the_allowlist_is_exact() {
    for code in ["PPL", "PPLA", "PPLA2", "PPLA3", "PPLA4", "PPLA5", "PPLC", "PPLF", "PPLG", "PPLL", "PPLS"] {
        assert!(is_kept(code), "{code}");
    }
    for code in ["", "PP", "PPLX", "PPLH", "PPLQ", "PPLW", "PPLR", "PPLCH", "STLMT", "ppl", "PPL "] {
        assert!(!is_kept(code), "{code}");
    }
}

#[test]
fn counts_dropped_feature_codes() {
    let cities = vec![
        city(1, "A", "GB", "ENG", "PPL", 5000),
        city(2, "B", "GB", "ENG", "PPLX", 5000),
        city(3, "C", "GB", "ENG", "PPLX", 5000),
        city(4, "D", "GB", "ENG", "PPLH", 5000),
    ];
    assert_eq!(
        dropped_per_feature(&cities),
        [("PPLX".to_string(), 2), ("PPLH".to_string(), 1)]
    );
}

#[test]
fn equal_drop_counts_are_ordered_by_code() {
    let cities = vec![
        city(1, "A", "GB", "ENG", "STLMT", 5000),
        city(2, "B", "GB", "ENG", "PPLX", 5000),
        city(3, "C", "GB", "ENG", "PPLH", 5000),
        city(4, "D", "GB", "ENG", "PPLC", 5000),
    ];
    assert_eq!(
        dropped_per_feature(&cities),
        [
            ("PPLH".to_string(), 1),
            ("PPLX".to_string(), 1),
            ("STLMT".to_string(), 1)
        ]
    );
}

#[test]
fn dedup_keeps_the_most_populous_row() {
    let cities = vec![
        city(10, "Springfield", "US", "IL", "PPL", 1000),
        city(20, "Springfield", "US", "IL", "PPLA2", 116250),
        city(30, "Springfield", "US", "IL", "PPL", 500),
    ];
    assert_eq!(ids(&dedup(cities)), [20]);
}

#[test]
fn dedup_is_deterministic() {
    let rows = || {
        vec![
            city(30, "Twin", "US", "IL", "PPL", 5000),
            city(10, "Twin", "US", "IL", "PPL", 5000),
            city(20, "Twin", "US", "IL", "PPL", 5000),
        ]
    };
    let mut reversed = rows();
    reversed.reverse();

    // Equal populations tie-break on the lower geonameid, whatever the order.
    assert_eq!(ids(&dedup(rows())), [10]);
    assert_eq!(ids(&dedup(reversed)), [10]);
}

#[test]
fn dedup_keeps_distinct_places_with_the_same_name() {
    let cities = vec![
        city(4726206, "San Antonio", "US", "TX", "PPLA2", 1526656),
        city(4568074, "San Antonio", "PR", "051", "PPL", 6456),
        city(3872395, "San Antonio", "CL", "01", "PPL", 87675),
        city(3670107, "San Antonio", "CO", "38", "PPL", 8476),
        city(3670162, "San Antonio", "CO", "28", "PPLA2", 5185),
    ];
    assert_eq!(
        ids(&dedup(cities)),
        [3670107, 3670162, 3872395, 4568074, 4726206]
    );
}

#[test]
fn a_row_beats_only_a_less_populous_or_higher_numbered_one() {
    let big = city(5, "X", "US", "IL", "PPL", 100);
    let small = city(1, "X", "US", "IL", "PPL", 10);
    let twin = city(9, "X", "US", "IL", "PPL", 100);
    assert!(beats(&big, &small));
    assert!(!beats(&small, &big));
    assert!(beats(&big, &twin));
    assert!(!beats(&twin, &big));
    assert!(!beats(&big, &big));
}
