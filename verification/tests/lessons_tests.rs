use superinstance_hdc_core::lessons::{
    is_lesson_extension, is_white_space_char, lesson_id_from_stem, parse_lesson_mapping,
};
use superinstance_hdc_core::simd::batch_judge_triples;

#[test]
fn lesson_id_from_numbered_stem() {
    assert_eq!(lesson_id_from_stem("lesson_001"), 1);
    assert_eq!(lesson_id_from_stem("a1b2c3"), 123);
    assert_eq!(lesson_id_from_stem("é7"), 7);
}

#[test]
fn lesson_id_without_digits_or_too_large_is_zero() {
    assert_eq!(lesson_id_from_stem("intro"), 0);
    assert_eq!(lesson_id_from_stem(""), 0);
    assert_eq!(lesson_id_from_stem("4294967295"), u32::MAX);
    assert_eq!(lesson_id_from_stem("4294967296"), 0);
    assert_eq!(lesson_id_from_stem("00000000000000000042"), 42);
}

#[test]
fn mapping_lines_are_parsed() {
    let content = "# lesson names\n1: Intro\n\n  2 :  Loops and more: details  \r\nbad line\nx: nope\n+3:Third\n-4: negative\n";
    let entries = parse_lesson_mapping(content);
    let got: Vec<(u32, &str)> = entries.iter().map(|(id, name)| (*id, name.as_str())).collect();
    assert_eq!(got, vec![(1, "Intro"), (2, "Loops and more: details"), (3, "Third")]);
}

#[test]
fn mapping_without_trailing_newline_and_unicode_space() {
    let entries = parse_lesson_mapping("\u{3000}7:\u{a0}Seven\u{2003}");
    assert_eq!(entries.len(), 1);
    assert_eq!(entries[0].0, 7);
    assert_eq!(entries[0].1, "Seven");
    assert!(parse_lesson_mapping("").is_empty());
    assert!(parse_lesson_mapping("99999999999: too big").is_empty());
}

#[test]
fn white_space_matches_std() {
    for code in 0u32..0x3100 {
        if let Some(c) = char::from_u32(code) {
            assert_eq!(is_white_space_char(c), c.is_whitespace(), "U+{:04X}", code);
        }
    }
}

#[test]
fn triples_flatten_matches_per_query() {
    let triples = batch_judge_triples(&[0x1111, 0x9999, 0x2222], &[0x1111, 0x2222, 0x1111], 0);
    assert_eq!(triples, vec![(0, 0, 0), (0, 2, 0), (2, 1, 0)]);
}

#[test]
fn lesson_file_extensions() {
    assert!(is_lesson_extension("txt"));
    assert!(is_lesson_extension("MD"));
    assert!(is_lesson_extension("Txt"));
    assert!(!is_lesson_extension("rs"));
    assert!(!is_lesson_extension("txt2"));
    assert!(!is_lesson_extension(""));
}
