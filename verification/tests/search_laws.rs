use elsewhere::search::{City, SearchIndex};

fn city(geonameid: u32, name: &str, population: u64) -> City {
    City {
        geonameid,
        name: name.to_string(),
        asciiname: name.to_string(),
        country: "Testland".to_string(),
        admin1: String::new(),
        population,
        timezone: "UTC".to_string(),
    }
}

fn names(cities: &[&City]) -> Vec<String> {
    cities.iter().map(|city| city.name.clone()).collect()
}

#[test]
fn a_smaller_limit_gives_the_first_of_a_larger_one() {
    let index = SearchIndex::new(vec![
        city(1, "Porto", 230_000),
        city(2, "Porto Alegre", 1_400_000),
        city(3, "Novo Porto", 10_000),
        city(4, "Deporto", 99_000_000),
        city(5, "Porto Velho", 500_000),
    ]);
    let all = index.search("porto", 10);
    assert_eq!(
        names(&all),
        ["Porto Alegre", "Porto Velho", "Porto", "Novo Porto", "Deporto"]
    );
    for limit in 0..7 {
        let some = index.search("porto", limit);
        assert_eq!(some.len(), limit.min(all.len()));
        assert_eq!(names(&some), names(&all[..some.len()]));
    }
}

#[test]
fn overlapping_occurrences_all_count() {
    // In "xa a a" the query "a a" occurs mid-word at 1 and, overlapping that,
    // at the start of a word at 3; so both cities are word-prefix matches,
    // and the more populous comes first.
    let index = SearchIndex::new(vec![city(1, "Xa a a", 1_000_000), city(2, "Zz a a", 10)]);
    assert_eq!(names(&index.search("a a", 10)), ["Xa a a", "Zz a a"]);
}

#[test]
fn punctuation_starts_a_word() {
    let index = SearchIndex::new(vec![
        city(1, "Saint-Denis", 10),
        city(2, "Dionysdenis", 1_000_000),
    ]);
    assert_eq!(names(&index.search("denis", 10)), ["Saint-Denis", "Dionysdenis"]);
}

#[test]
fn the_same_population_and_id_keep_list_order() {
    let index = SearchIndex::new(vec![city(7, "Twin", 5), city(7, "Twin", 5)]);
    assert_eq!(index.search("twin", 10).len(), 2);
}

#[test]
fn a_query_that_matches_nothing_finds_nothing() {
    let index = SearchIndex::new(vec![city(1, "Quito", 10)]);
    assert!(index.search("lima", 10).is_empty());
    assert!(index.search("quitos", 10).is_empty());
}

#[test]
fn the_index_keeps_its_cities_in_order() {
    let index = SearchIndex::new(vec![city(3, "C", 1), city(1, "A", 1), city(2, "B", 1)]);
    let ids: Vec<u32> = index.cities().iter().map(|city| city.geonameid).collect();
    assert_eq!(ids, [3, 1, 2]);
}

#[test]
fn a_region_is_added_only_where_the_name_repeats() {
    let mut a = city(1, "Paris", 2_000_000);
    a.admin1 = "Île-de-France".to_string();
    let mut b = city(2, "Paris", 25_000);
    b.admin1 = "Texas".to_string();
    let mut c = city(3, "Lyon", 500_000);
    c.admin1 = "Auvergne".to_string();
    let index = SearchIndex::new(vec![a, b, c]);
    let found = index.search("paris", 10);
    assert_eq!(index.label(found[0]), "Paris, Île-de-France, Testland");
    assert_eq!(index.label(found[1]), "Paris, Texas, Testland");
    let lyon = index.search("lyon", 1);
    assert_eq!(index.label(lyon[0]), "Lyon, Testland");
}
