use elsewhere::text::{
    chars_of, piece_bounds, is_whitespace, parse_u32, push_decimal, same_text, string_of,
    text_less, trimmed,
};

#[test]
fn white_space_is_what_std_calls_white_space() {
    for n in 0..=0x10FFFFu32 {
        if let Some(c) = char::from_u32(n) {
            assert_eq!(is_whitespace(c), c.is_whitespace(), "U+{n:04X}");
        }
    }
}

#[test]
fn trimming_matches_str_trim() {
    let samples = [
        "", " ", "  a ", "\t\n x y \r\n", "\u{3000}quito\u{a0}", "a", "a b", " \u{2028}",
        "\u{200b}zero width\u{200b}",
    ];
    for s in samples {
        assert_eq!(trimmed(s), s.trim(), "{s:?}");
    }
}

#[test]
fn characters_round_trip_through_a_string() {
    let s = "Sant Julià de Lòria, 東京";
    let chars = chars_of(s);
    assert_eq!(chars.len(), s.chars().count());
    assert_eq!(string_of(&chars), s);
}

#[test]
fn numbers_read_as_str_parse_reads_them() {
    let samples = [
        "", "+", "+0", "0", "007", "42", "+42", "++1", "-1", "-0", " 1", "1 ", "1a", "4294967295",
        "4294967296", "99999999999999999999", "00000000000000000000001", "\u{663}", "12\u{663}",
    ];
    for s in samples {
        let chars = chars_of(s);
        assert_eq!(parse_u32(&chars, 0, chars.len()), s.parse::<u32>().ok(), "{s:?}");
    }
}

#[test]
fn a_number_can_be_read_out_of_the_middle_of_a_line() {
    let chars = chars_of("ab123cd");
    assert_eq!(parse_u32(&chars, 2, 5), Some(123));
    assert_eq!(parse_u32(&chars, 2, 6), None);
    assert_eq!(parse_u32(&chars, 3, 3), None);
}

#[test]
fn decimals_are_written_as_to_string_writes_them() {
    for n in [0u64, 1, 9, 10, 99, 100, 1850147, u32::MAX as u64, u64::MAX] {
        let mut out = String::from("x");
        push_decimal(&mut out, n);
        assert_eq!(out, format!("x{n}"));
    }
}

#[test]
fn texts_order_as_strings_do() {
    let samples = ["", "a", "b", "ab", "aa", "PPLX", "PPLH", "STLMT", "é", "e", "Z"];
    for a in samples {
        for b in samples {
            assert_eq!(text_less(a, b), a < b, "{a:?} {b:?}");
            assert_eq!(same_text(a, b), a == b, "{a:?} {b:?}");
        }
    }
}

#[test]
fn fields_split_at_every_tab() {
    for s in ["", "a", "a\tb", "a\t\tb\t", "\t", "JP.40\tTokyo\tTokyo\t1850144"] {
        let chars = chars_of(s);
        let bounds = piece_bounds(&chars, 0, chars.len(), '\t');
        let got: Vec<String> = bounds.iter().map(|&(a, b)| string_of(&chars[a..b])).collect();
        let want: Vec<&str> = s.split('\t').collect();
        assert_eq!(got, want, "{s:?}");
    }
}
