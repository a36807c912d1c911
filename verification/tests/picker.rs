use elsewhere::picker::PickerState;
use elsewhere::search::{City, SearchIndex};

fn city(geonameid: u32, name: &str, population: u64) -> City {
    City {
        geonameid,
        name: name.to_string(),
        asciiname: name.to_string(),
        country: "Testland".to_string(),
        admin1: String::new(),
        population,
        timezone: "UTC".to_string(),
    }
}

fn index() -> SearchIndex {
    SearchIndex::new((1..=12).map(|i| city(i, &format!("Town {i}"), 100 - i as u64)).collect())
}

#[test]
fn typing_searches_and_highlights_the_top_hit() {
    let index = index();
    let mut picker = PickerState::new();
    assert!(picker.search(&index, "town"));
    assert_eq!(picker.query, "town");
    assert_eq!(picker.results, [1, 2, 3, 4, 5, 6, 7, 8]);
    assert_eq!(picker.selected, 0);
    // A notification with the same text searches nothing.
    picker.selected = 3;
    assert!(!picker.search(&index, "town"));
    assert_eq!(picker.selected, 3);
}

#[test]
fn the_highlight_stops_at_either_end() {
    let index = index();
    let mut picker = PickerState::new();
    assert!(!picker.move_down());
    picker.search(&index, "town 1");
    assert_eq!(picker.results, [1, 10, 11, 12]);
    assert!(picker.move_up());
    assert_eq!(picker.selected, 0);
    for _ in 0..10 {
        assert!(picker.move_down());
    }
    assert_eq!(picker.selected, 3);
    assert!(picker.move_up());
    assert_eq!(picker.selected, 2);
}

#[test]
fn enter_picks_the_highlighted_result_and_starts_over() {
    let index = index();
    let mut picker = PickerState::new();
    assert_eq!(picker.confirm(), None);
    picker.search(&index, "town 1");
    picker.move_down();
    assert_eq!(picker.confirm(), Some(10));
    assert!(picker.query.is_empty());
    assert!(picker.results.is_empty());
    assert_eq!(picker.selected, 0);
}

#[test]
fn escape_clears_or_passes_the_key_on() {
    let index = index();
    let mut picker = PickerState::new();
    assert!(!picker.clear());
    picker.search(&index, "nowhere");
    assert!(picker.results.is_empty());
    assert!(picker.clear());
    assert!(picker.query.is_empty());
}

#[test]
fn dismissing_keeps_the_query() {
    let index = index();
    let mut picker = PickerState::new();
    picker.search(&index, "town");
    picker.dismiss();
    assert!(picker.results.is_empty());
    assert_eq!(picker.query, "town");
    assert!(!picker.search(&index, "town"));
}

#[test]
fn the_panel_lists_known_results_with_the_highlight() {
    let index = index();
    let mut picker = PickerState::new();
    picker.search(&index, "town 1");
    picker.move_down();
    let rows = picker.rows(&index);
    let seen: Vec<(u32, &str, bool)> = rows
        .iter()
        .map(|row| (row.geonameid, row.label.as_str(), row.highlighted))
        .collect();
    assert_eq!(
        seen,
        [
            (1, "Town 1, Testland", false),
            (10, "Town 10, Testland", true),
            (11, "Town 11, Testland", false),
            (12, "Town 12, Testland", false),
        ]
    );
    // A result the index no longer knows gets no line.
    picker.results = vec![99, 2];
    picker.selected = 1;
    let rows = picker.rows(&index);
    assert_eq!(rows.len(), 1);
    assert_eq!(rows[0].geonameid, 2);
    assert!(rows[0].highlighted);
}
