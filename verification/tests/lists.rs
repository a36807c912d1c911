use std::path::PathBuf;

use elsewhere::saved::{add, delete, parse, path, render, reorder, HEADER};
use elsewhere::saver::Saver;
use elsewhere::swapper::Swapper;

#[test]
fn the_file_opens_with_its_header() {
    assert_eq!(render(&[]), format!("{HEADER}\n"));
    assert_eq!(render(&[7, 42]), format!("{HEADER}\n7\n42\n"));
}

#[test]
fn lines_may_end_in_crlf_and_carry_a_plus_or_spaces() {
    assert_eq!(parse("1\r\n+2\r\n  3  \n\t4\n"), [1, 2, 3, 4]);
    assert_eq!(parse("5"), [5]);
    assert_eq!(parse("4294967296\n4294967295"), [4294967295]);
    assert_eq!(parse("   # 12\n12 13\n"), Vec::<u32>::new());
}

#[test]
fn the_file_sits_in_the_dir() {
    assert_eq!(
        path(Some("/xdg/"), None).map(PathBuf::from),
        Some(PathBuf::from("/xdg/elsewhere/saved"))
    );
    assert_eq!(
        path(None, Some("/home/someone")).map(PathBuf::from),
        Some(PathBuf::from("/home/someone/.config/elsewhere/saved"))
    );
    assert_eq!(path(Some(""), Some("")), None);
}

#[test]
fn saving_appends_once() {
    let mut saved = vec![3, 1];
    assert!(add(&mut saved, 2));
    assert!(!add(&mut saved, 3));
    assert_eq!(saved, [3, 1, 2]);
    delete(&mut saved, 1);
    assert_eq!(saved, [3, 2]);
    delete(&mut saved, 9);
    assert_eq!(saved, [3, 2]);
    let mut repeated = vec![5, 6, 5];
    delete(&mut repeated, 5);
    assert_eq!(repeated, [6]);
}

#[test]
fn the_saver_keeps_trimmed_entries() {
    let mut saver = Saver::new();
    assert!(!saver.save("   "));
    assert!(saver.save("  hello "));
    assert!(saver.save("world"));
    assert_eq!(saver.saved, ["hello", "world"]);
    saver.delete(0);
    assert_eq!(saver.saved, ["world"]);
}

#[test]
fn a_swap_always_lands_on_another_city() {
    let mut swapper = Swapper {
        swap_started: true,
        city_list: vec!["a".to_string(), "b".to_string(), "c".to_string()],
        city_index: 1,
    };
    let mut seen = [false; 3];
    for _ in 0..200 {
        let before = swapper.city_index;
        swapper.swap_city();
        assert_ne!(swapper.city_index, before);
        assert!(swapper.city_index < 3);
        seen[swapper.city_index] = true;
    }
    assert!(seen.iter().all(|s| *s));
    let two = Swapper {
        swap_started: false,
        city_list: vec!["a".to_string(), "b".to_string()],
        city_index: 0,
    };
    assert_eq!(two.landing(0), 1);
    let lost = Swapper {
        swap_started: false,
        city_list: vec!["a".to_string()],
        city_index: 5,
    };
    assert_eq!(lost.landing(0), 0);
}

#[test]
fn the_saver_lists_the_newest_first() {
    let mut saver = Saver::new();
    saver.save("first");
    saver.save(" second ");
    saver.save("third");
    assert_eq!(
        saver.listed(),
        [
            (2, "third".to_string()),
            (1, "second".to_string()),
            (0, "first".to_string())
        ]
    );
    saver.delete(saver.listed()[2].0);
    assert_eq!(saver.saved, ["second", "third"]);
}

#[test]
fn the_swapper_welcomes_then_swaps_on_each_click() {
    let mut swapper = Swapper {
        swap_started: false,
        city_list: vec!["Lima".to_string(), "Oslo".to_string()],
        city_index: 0,
    };
    assert_eq!(swapper.text(), "welcome");
    swapper.click();
    assert!(swapper.swap_started);
    assert_eq!(swapper.text(), "Lima");
    swapper.click();
    assert_eq!(swapper.text(), "Oslo");
    swapper.click();
    assert_eq!(swapper.text(), "Lima");
}

#[test]
fn deleting_what_was_just_added_restores_the_list() {
    let mut saved = vec![3, 1];
    assert!(add(&mut saved, 7));
    delete(&mut saved, 7);
    assert_eq!(saved, [3, 1]);
    delete(&mut saved, 1);
    delete(&mut saved, 1);
    assert_eq!(saved, [3]);
}

#[test]
fn a_list_with_repeats_reads_back_with_the_first_of_each() {
    assert_eq!(parse(&render(&[5, 3, 5, 7, 3])), [5, 3, 7]);
}

#[test]
fn a_dropped_row_lands_before_its_target_or_at_the_end() {
    let mut saved = vec![1, 2, 3, 4];
    assert!(reorder(&mut saved, 4, Some(2)));
    assert_eq!(saved, [1, 4, 2, 3]);
    assert!(reorder(&mut saved, 1, None));
    assert_eq!(saved, [4, 2, 3, 1]);
    assert!(reorder(&mut saved, 4, Some(1)));
    assert_eq!(saved, [2, 3, 4, 1]);
    // Already in place: nothing to write.
    assert!(!reorder(&mut saved, 3, Some(4)));
    assert!(!reorder(&mut saved, 1, None));
    // Onto itself, or naming a row the list does not hold: no change.
    assert!(!reorder(&mut saved, 2, Some(2)));
    assert!(!reorder(&mut saved, 9, Some(2)));
    assert!(!reorder(&mut saved, 2, Some(9)));
    assert_eq!(saved, [2, 3, 4, 1]);
}

#[test]
fn a_swap_draws_among_the_other_cities() {
    let three = |city_index| Swapper {
        swap_started: true,
        city_list: vec!["A".to_string(), "B".to_string(), "C".to_string()],
        city_index,
    };
    assert_eq!(three(1).draw_range(), 2);
    assert_eq!(three(7).draw_range(), 3);
    assert_eq!(three(1).landing(0), 0);
    assert_eq!(three(1).landing(1), 2);
    assert_eq!(three(7).landing(2), 2);
}
