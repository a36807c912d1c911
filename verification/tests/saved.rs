use std::path::PathBuf;

use elsewhere::saved::{dir, parse, render};

#[test]
fn parses_one_geonameid_per_line() {
    assert_eq!(
        parse("1850147\n2643743\n5128581\n"),
        [1850147, 2643743, 5128581]
    );
}

#[test]
fn skips_comments_blanks_and_garbage_lines() {
    let text = "# elsewhere saved cities\n1850147\n\nTokyo\n-1\n2643743\n";
    assert_eq!(parse(text), [1850147, 2643743]);
}

#[test]
fn drops_duplicates_keeping_the_first() {
    assert_eq!(parse("1850147\n2643743\n1850147\n"), [1850147, 2643743]);
}

#[test]
fn render_round_trips_through_parse() {
    let saved = [1850147, 2643743, 5128581];
    assert_eq!(parse(&render(&saved)), saved);
}

#[test]
fn resolves_the_dir_from_xdg_config_home() {
    assert_eq!(
        dir(Some("/xdg"), Some("/home/someone")).map(PathBuf::from),
        Some(PathBuf::from("/xdg/elsewhere"))
    );
}

#[test]
fn an_empty_xdg_variable_falls_back_to_home() {
    assert_eq!(
        dir(Some(""), Some("/home/someone")).map(PathBuf::from),
        Some(PathBuf::from("/home/someone/.config/elsewhere"))
    );
}

#[test]
fn yields_no_dir_without_home_or_xdg() {
    assert_eq!(dir(None, None), None);
}
