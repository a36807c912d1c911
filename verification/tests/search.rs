use elsewhere::search::{City, SearchIndex};

fn city(geonameid: u32, name: &str, asciiname: &str, admin1: &str, population: u64) -> City {
    City {
        geonameid,
        name: name.to_string(),
        asciiname: if asciiname.is_empty() {
            name.to_string()
        } else {
            asciiname.to_string()
        },
        country: "Testland".to_string(),
        admin1: admin1.to_string(),
        population,
        timezone: "UTC".to_string(),
    }
}

fn index() -> SearchIndex {
    SearchIndex::new(vec![
        city(1, "Springfield", "", "Illinois", 116_000),
        city(2, "Springfield", "", "Missouri", 169_000),
        city(3, "Springfield", "", "", 60_000),
        city(4, "West Springfield", "", "Massachusetts", 28_000),
        city(5, "Kaiserspringfield", "", "Bavaria", 500_000),
        city(
            6,
            "Sant Julià de Lòria",
            "Sant Julia de Loria",
            "Andorra",
            8_022,
        ),
        city(7, "Quito", "", "Pichincha", 1_399_000),
    ])
}

fn names(cities: &[&City]) -> Vec<String> {
    cities.iter().map(|city| city.name.clone()).collect()
}

#[test]
fn an_empty_query_finds_nothing() {
    let index = index();
    assert!(index.search("", 10).is_empty());
    assert!(index.search("   ", 10).is_empty());
}

#[test]
fn matching_ignores_case_and_surrounding_space() {
    let index = index();
    assert_eq!(names(&index.search("  QUITO ", 10)), ["Quito"]);
}

#[test]
fn a_limit_truncates_the_results() {
    let index = index();
    assert_eq!(index.search("springfield", 2).len(), 2);
    assert!(index.search("springfield", 0).is_empty());
}

#[test]
fn whole_name_prefixes_beat_word_prefixes_beat_substrings() {
    let index = index();
    assert_eq!(
        names(&index.search("springfield", 10)),
        [
            // Prefixes of the whole name, largest first.
            "Springfield",
            "Springfield",
            "Springfield",
            // Then a later word, then mid-word, however big.
            "West Springfield",
            "Kaiserspringfield",
        ]
    );
}

#[test]
fn equal_ranks_are_ordered_by_population_then_geonameid() {
    let index = index();
    let ids: Vec<u32> = index
        .search("springfield", 3)
        .iter()
        .map(|city| city.geonameid)
        .collect();
    assert_eq!(ids, [2, 1, 3]);
}

#[test]
fn accents_are_searchable_either_way() {
    let index = index();
    assert_eq!(
        names(&index.search("sant julia", 10)),
        ["Sant Julià de Lòria"]
    );
    assert_eq!(names(&index.search("julià", 10)), ["Sant Julià de Lòria"]);
    assert_eq!(
        names(&index.search("JULIA DE", 10)),
        ["Sant Julià de Lòria"]
    );
}

#[test]
fn ambiguous_names_are_labelled_with_their_region() {
    let index = index();
    let labelled: Vec<String> = index
        .search("springfield", 3)
        .iter()
        .map(|city| index.label(city))
        .collect();
    assert_eq!(
        labelled,
        [
            "Springfield, Missouri, Testland",
            "Springfield, Illinois, Testland",
            // Ambiguous but regionless: nothing to add.
            "Springfield, Testland",
        ]
    );
}

#[test]
fn unique_names_are_labelled_without_their_region() {
    let index = index();
    let quito = index.search("quito", 1);
    assert_eq!(index.label(quito[0]), "Quito, Testland");
}

#[test]
fn an_overlapped_occurrence_starting_a_word_counts_as_a_word_prefix() {
    let index = SearchIndex::new(vec![
        city(1, "Zzla lab", "", "", 1_000),
        city(2, "Xla la la", "", "", 1),
    ]);
    // In "xla la la" the occurrence at 1 is mid-word, and the one at 4,
    // which overlaps it, starts a word.
    assert_eq!(names(&index.search("la la", 8)), ["Xla la la", "Zzla lab"]);
}
