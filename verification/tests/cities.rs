use elsewhere::gazetteer::{city_columns, city_from_columns, city_geonameid, field_error, RawCity};

const CITIES: &str = "\
1850147\tTokyo\tTokyo\tEdo,TYO,Tokio,Tokió,東京,도쿄\t35.6895\t139.69171\tP\tPPLC\tJP\t\t40\t\t\t\t9733276\t\t44\tAsia/Tokyo\t2025-07-22
3039163\tSant Julià de Lòria\tSant Julia de Loria\tSan Julià,Sant Julia de Loria\t42.46372\t1.49129\tP\tPPLA\tAD\t\t06\t\t\t\t8022\t\t921\tEurope/Andorra\t2018-10-14
9179507\tMalmok\tMalmok\t\t12.60087\t-70.05064\tP\tPPL\tAW\t\t\t\t\t\t5637\t\t9\tAmerica/Aruba\t2026-06-24";

/// A parsed row: the library's columns, and the coordinates beside them.
struct Row {
    city: RawCity,
    latitude: f64,
    longitude: f64,
}

fn coordinate(value: &str, lineno: usize, name: &str) -> Result<f64, String> {
    value
        .parse::<f64>()
        .map_err(|e| field_error(lineno, name, value, &e.to_string()))
}

fn parse_city(line: &str, lineno: usize) -> Result<Row, String> {
    let cols = city_columns(line, lineno)?;
    let geonameid = city_geonameid(&cols, lineno)?;
    let latitude = coordinate(&cols[4], lineno, "latitude")?;
    let longitude = coordinate(&cols[5], lineno, "longitude")?;
    let city = city_from_columns(&cols, geonameid, lineno)?;
    Ok(Row {
        city,
        latitude,
        longitude,
    })
}

fn parse_cities(text: &str) -> Result<Vec<Row>, String> {
    text.lines()
        .enumerate()
        .map(|(i, line)| parse_city(line, i + 1))
        .collect()
}

#[test]
fn parses_cities() {
    let cities = parse_cities(CITIES).unwrap();
    assert_eq!(cities.len(), 3);

    let tokyo = &cities[0];
    assert_eq!(tokyo.city.geonameid, 1850147);
    assert_eq!(tokyo.city.feature_class, 'P');
    assert_eq!(tokyo.city.feature_code, "PPLC");
    assert_eq!(tokyo.city.population, 9733276);
    assert_eq!(tokyo.city.timezone, "Asia/Tokyo");
    assert_eq!(tokyo.city.alternatenames.len(), 6);
    assert_eq!(tokyo.city.alternatenames[5], "도쿄");
    assert_eq!(tokyo.latitude, 35.6895);
    assert_eq!(tokyo.longitude, 139.69171);
}

#[test]
fn keeps_non_ascii_names() {
    let city = &parse_cities(CITIES).unwrap()[1].city;
    assert_eq!(city.name, "Sant Julià de Lòria");
    assert_eq!(city.asciiname, "Sant Julia de Loria");
    assert_eq!(city.admin1_code, "06");
}

#[test]
fn handles_empty_fields() {
    let row = &parse_cities(CITIES).unwrap()[2];
    assert!(row.city.admin1_code.is_empty());
    assert!(row.city.alternatenames.is_empty());
    assert_eq!(row.longitude, -70.05064);
}

#[test]
fn rejects_wrong_column_count() {
    let err = parse_cities("1850147\tTokyo\tTokyo").err().unwrap();
    assert!(err.contains("line 1"), "{err}");
    assert!(err.contains("expected 19 columns, got 3"), "{err}");
}

#[test]
fn rejects_unparseable_numbers() {
    let broken = CITIES.replace("9733276", "many");
    let err = parse_cities(&broken).err().unwrap();
    assert!(err.contains("line 1"), "{err}");
    assert!(err.contains("population"), "{err}");
}

#[test]
fn a_bad_column_is_quoted_with_its_reason() {
    let broken = CITIES.replace("9733276", "many");
    let err = parse_cities(&broken).err().unwrap();
    assert_eq!(
        err,
        "line 1: bad population \"many\": invalid digit found in string"
    );
    let broken = CITIES.replace("3039163", "");
    let err = parse_cities(&broken).err().unwrap();
    assert_eq!(
        err,
        "line 2: bad geonameid \"\": cannot parse integer from empty string"
    );
}

#[test]
fn columns_fail_in_their_turn() {
    // The geonameid is read before the coordinates, and they before the
    // feature class and the population.
    let line = "x\tA\tA\t\tnorth\t1.0\tPP\tPPL\tAA\t\t\t\t\t\tmany\t\t\tUTC\t";
    let err = parse_city(line, 7).err().unwrap();
    assert!(err.starts_with("line 7: bad geonameid \"x\""), "{err}");
    let line = "1\tA\tA\t\tnorth\t1.0\tPP\tPPL\tAA\t\t\t\t\t\tmany\t\t\tUTC\t";
    let err = parse_city(line, 7).err().unwrap();
    assert!(err.starts_with("line 7: bad latitude \"north\""), "{err}");
    let line = "1\tA\tA\t\t1.0\t1.0\tPP\tPPL\tAA\t\t\t\t\t\tmany\t\t\tUTC\t";
    let err = parse_city(line, 7).err().unwrap();
    assert_eq!(err, "line 7: bad feature class \"PP\": too many characters in string");
    let line = "1\tA\tA\t\t1.0\t1.0\tP\tPPL\tAA\t\t\t\t\t\tmany\t\t\tUTC\t";
    let err = parse_city(line, 7).err().unwrap();
    assert!(err.starts_with("line 7: bad population \"many\""), "{err}");
}

#[test]
fn alternate_names_skip_empty_pieces() {
    let line = "1\tA\tA\t,x,,y,\t1.0\t1.0\tP\tPPL\tAA\t\t\t\t\t\t5\t\t\tUTC\t";
    let row = parse_city(line, 1).unwrap();
    assert_eq!(row.city.alternatenames, vec!["x".to_string(), "y".to_string()]);
    assert_eq!(row.city.population, 5);
}

#[test]
fn columns_split_on_every_tab() {
    let cols = city_columns(&"\t".repeat(18), 1).unwrap();
    assert_eq!(cols.len(), 19);
    assert!(cols.iter().all(|c| c.is_empty()));
    assert_eq!(
        city_columns(&"\t".repeat(19), 4).err().unwrap(),
        "line 4: expected 19 columns, got 20"
    );
    assert_eq!(
        field_error(3, "latitude", "a\"b", "no"),
        "line 3: bad latitude \"a\\\"b\": no"
    );
}

#[test]
fn numbers_take_a_plus_sign_but_must_fit() {
    let line = "+1\tA\tA\t\t1.0\t1.0\tP\tPPL\tAA\t\t\t\t\t\t+7\t\t\tUTC\t";
    let row = parse_city(line, 1).unwrap();
    assert_eq!((row.city.geonameid, row.city.population), (1, 7));
    let line = "1\tA\tA\t\t1.0\t1.0\tP\tPPL\tAA\t\t\t\t\t\t18446744073709551616\t\t\tUTC\t";
    assert_eq!(
        parse_city(line, 2).err().unwrap(),
        "line 2: bad population \"18446744073709551616\": number too large to fit in target type"
    );
    let line = "-0\tA\tA\t\t1.0\t1.0\tP\tPPL\tAA\t\t\t\t\t\t1\t\t\tUTC\t";
    assert!(parse_city(line, 3).is_err());
}
