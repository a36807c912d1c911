use elsewhere::search::{City, SearchIndex};
use elsewhere::window::{mono_face, zones_for, Elsewhere, Pin};
use jiff::tz::TimeZone;
use jiff::Zoned;

fn city(geonameid: u32, name: &str, admin1: &str, timezone: &str) -> City {
    City {
        geonameid,
        name: name.to_string(),
        asciiname: name.to_string(),
        country: "Testland".to_string(),
        admin1: admin1.to_string(),
        population: 1_000,
        timezone: timezone.to_string(),
    }
}

fn index() -> SearchIndex {
    SearchIndex::new(vec![
        city(1, "Tokyo", "Tokyo", "Asia/Tokyo"),
        city(2, "Springfield", "Illinois", "America/Chicago"),
        city(3, "Springfield", "Missouri", "America/Chicago"),
        city(4, "Olympus", "", "Mars/Olympus_Mons"),
        city(5, "Quito", "Pichincha", "America/Guayaquil"),
    ])
}

fn at(instant: &str) -> Zoned {
    instant
        .parse::<jiff::Timestamp>()
        .unwrap()
        .to_zoned(TimeZone::UTC)
}

#[test]
fn a_restored_list_drops_unknown_cities_and_looks_up_their_zones() {
    let window = Elsewhere::new(index(), vec![2, 99, 1, 3]);
    assert_eq!(window.saved, vec![2, 1, 3]);
    assert_eq!(window.zones.len(), 2);
    assert!(window.zones.get("Asia/Tokyo").unwrap().is_some());
    assert!(window.zones.get("America/Chicago").unwrap().is_some());
    assert!(window.zones.get("America/Guayaquil").is_none());
    assert!(window.drag.is_none() && window.editing.is_none() && window.pinned.is_none());
    assert!(!window.westward);
}

#[test]
fn zones_are_looked_up_once_each_and_kept_when_unknown() {
    let zones = zones_for(&index(), &vec![4, 2, 3, 4]);
    assert_eq!(zones.len(), 2);
    assert!(zones.get("Mars/Olympus_Mons").unwrap().is_none());
    assert!(zones.get("America/Chicago").unwrap().is_some());
}

#[test]
fn saving_adds_a_city_once_and_starts_the_search_over() {
    let mut window = Elsewhere::new(index(), vec![]);
    assert!(window.search("quit"));
    assert!(!window.search("quit"));
    assert_eq!(window.picker.results, vec![5]);
    assert!(window.save(5));
    assert_eq!(window.saved, vec![5]);
    assert!(window.zones.get("America/Guayaquil").unwrap().is_some());
    assert!(window.picker.query.is_empty() && window.picker.results.is_empty());
    assert!(!window.save(5));
    assert_eq!(window.saved, vec![5]);
    window.search("tok");
    window.dismiss();
    assert!(window.picker.results.is_empty());
    assert_eq!(window.picker.query, "tok");
}

#[test]
fn deleting_the_row_being_edited_closes_the_editor() {
    let mut window = Elsewhere::new(index(), vec![1, 2, 5]);
    window.edit(2);
    assert!(!window.delete(5));
    assert_eq!(window.editing, Some(2));
    assert!(window.delete(2));
    assert_eq!(window.editing, None);
    assert_eq!(window.saved, vec![1]);
}

#[test]
fn unpinning_goes_back_to_the_clock_and_closes_the_editor() {
    let mut window = Elsewhere::new(index(), vec![1]);
    let clock = at("2026-08-15T12:00:00Z");
    let pinned = at("2026-08-15T03:00:00Z");
    assert_eq!(window.instant(&clock), &clock);
    assert!(!window.repin(pinned.clone()));
    assert!(window.pinned.is_none());
    window.edit(1);
    assert!(window.repin(pinned.clone()));
    assert_eq!(window.pinned.as_ref().unwrap().anchor, 1);
    assert_eq!(window.instant(&clock), &pinned);
    window.close_editor();
    assert_eq!(window.editing, None);
    assert!(window.pinned.is_some());
    window.edit(1);
    window.unpin();
    assert!(window.pinned.is_none() && window.editing.is_none());
}

#[test]
fn the_frame_shows_what_the_state_calls_for() {
    let mut window = Elsewhere::new(index(), vec![1]);
    let frame = window.frame(false);
    assert!(!frame.results && !frame.toolbar && !frame.back_to_now);
    assert!(!frame.westward_button && !frame.drop_tail);

    window.save(2);
    window.start_drag(1);
    let frame = window.frame(true);
    assert!(frame.toolbar && frame.westward_button && frame.drop_tail && frame.bin);
    assert_eq!(window.drag, Some(1));

    window.toggle_westward();
    assert!(!window.frame(true).drop_tail);
    window.toggle_westward();

    // A drag that ended without a drop is forgotten on the next redraw.
    let frame = window.frame(false);
    assert!(!frame.drop_tail);
    assert_eq!(window.drag, None);

    window.pinned = Some(Pin {
        anchor: 1,
        at: at("2026-08-15T03:00:00Z"),
    });
    window.search("spring");
    let frame = window.frame(false);
    assert!(frame.results && frame.back_to_now && frame.toolbar);
}

#[test]
fn a_row_reads_its_zone_or_shows_the_placeholder() {
    let mut window = Elsewhere::new(index(), vec![1, 4, 2]);
    let now = at("2026-08-15T22:00:00Z");

    let tokyo = window.row(&now, 1, false).unwrap();
    assert_eq!(tokyo.label, "Tokyo, Testland");
    assert_eq!(tokyo.time, "07:00");
    assert_eq!(tokyo.day.as_deref(), Some("+1 day"));
    assert!(tokyo.known && tokyo.draggable && !tokyo.dimmed && !tokyo.editing && !tokyo.pinned);

    let mars = window.row(&now, 4, false).unwrap();
    assert_eq!(mars.time, "–:–");
    assert_eq!(mars.day, None);
    assert!(!mars.known);

    let springfield = window.row(&now, 2, false).unwrap();
    assert_eq!(springfield.label, "Springfield, Illinois, Testland");
    assert_eq!(springfield.time, "17:00");
    assert_eq!(springfield.day, None);

    assert!(window.row(&now, 99, false).is_none());

    window.start_drag(2);
    window.edit(1);
    window.toggle_westward();
    window.pinned = Some(Pin {
        anchor: 1,
        at: now.clone(),
    });
    assert!(window.row(&now, 2, true).unwrap().dimmed);
    assert!(!window.row(&now, 2, false).unwrap().dimmed);
    let tokyo = window.row(&now, 1, true).unwrap();
    assert!(tokyo.editing && tokyo.pinned && !tokyo.draggable && !tokyo.dimmed);
}

#[test]
fn the_time_column_takes_the_best_installed_mono_face() {
    let installed = |names: &[&str]| names.iter().map(|n| n.to_string()).collect::<Vec<_>>();
    assert_eq!(
        mono_face(&installed(&["Helvetica", "Menlo", "SF Mono"])),
        Some("SF Mono")
    );
    assert_eq!(
        mono_face(&installed(&["Liberation Mono", "DejaVu Sans Mono"])),
        Some("DejaVu Sans Mono")
    );
    assert_eq!(mono_face(&installed(&["menlo", "Arial"])), None);
    assert_eq!(mono_face(&installed(&[])), None);
}

#[test]
fn the_index_finds_a_city_by_geonameid() {
    let index = index();
    assert_eq!(index.city(3).unwrap().admin1, "Missouri");
    assert!(index.city(6).is_none());
}

#[test]
fn the_banner_names_the_anchor_and_its_time() {
    let mut window = Elsewhere::new(index(), vec![1, 4]);
    let now = at("2026-08-15T22:00:00Z");
    assert_eq!(window.banner(&now), None);
    window.edit(1);
    window.repin(now.clone());
    assert_eq!(window.banner(&now).unwrap(), "viewing 07:00 in Tokyo");
    window.edit(4);
    window.repin(now.clone());
    assert_eq!(window.banner(&now).unwrap(), "viewing –:– in Olympus");
    window.pinned.as_mut().unwrap().anchor = 99;
    assert_eq!(window.banner(&now), None);
}

#[test]
fn a_drop_ends_the_drag_and_reorders_the_list() {
    let mut window = Elsewhere::new(index(), vec![1, 2, 5]);
    window.start_drag(5);
    assert!(window.drop(5, Some(1)));
    assert_eq!(window.saved, vec![5, 1, 2]);
    assert_eq!(window.drag, None);
    window.start_drag(1);
    assert!(!window.drop(1, Some(2)));
    assert_eq!(window.drag, None);
    assert!(window.drop(5, None));
    assert_eq!(window.saved, vec![1, 2, 5]);
}
