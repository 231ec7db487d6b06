use bagr::bagit::chars::{
    contains_line_break, ends_with_space_or_tab, find_char, fold_char, is_line_break,
    is_space_or_tab, matches_ignore_case, same_text, skip_first, split_once,
    starts_with_space_or_tab, to_chars, CR, LF,
};
use bagr::bagit::order::is_text_before;

#[test]
fn space_and_tab_are_the_separators() {
    assert!(is_space_or_tab(' '));
    assert!(is_space_or_tab('\t'));
    assert!(!is_space_or_tab('\n'));
    assert!(!is_space_or_tab('\u{a0}'));
    assert!(!is_space_or_tab('a'));
}

#[test]
fn cr_and_lf_break_lines() {
    assert_eq!(CR, '\r');
    assert_eq!(LF, '\n');
    assert!(is_line_break('\r'));
    assert!(is_line_break('\n'));
    assert!(!is_line_break(' '));
    assert!(!is_line_break('\u{2028}'));
}

#[test]
fn folding_lowers_ascii_capitals_only() {
    assert_eq!(fold_char('A'), 'a' as u32);
    assert_eq!(fold_char('Z'), 'z' as u32);
    assert_eq!(fold_char('a'), 'a' as u32);
    assert_eq!(fold_char('@'), '@' as u32);
    assert_eq!(fold_char('['), '[' as u32);
    assert_eq!(fold_char('-'), '-' as u32);
    assert_eq!(fold_char('É'), 'É' as u32);
}

#[test]
fn to_chars_lists_scalar_values() {
    assert_eq!(to_chars("aé€😀"), vec!['a', 'é', '€', '😀']);
    assert!(to_chars("").is_empty());
}

#[test]
fn matching_ignores_ascii_case() {
    assert!(matches_ignore_case("Bagging-Date", &to_chars("bagging-DATE")));
    assert!(matches_ignore_case("", &to_chars("")));
    assert!(!matches_ignore_case("Bagging-Date", &to_chars("Bagging-Dat")));
    assert!(!matches_ignore_case("Bagging-Dat", &to_chars("Bagging-Date")));
    assert!(!matches_ignore_case("Bagging-Date", &to_chars("Bagging_Date")));
    assert!(!matches_ignore_case("é", &to_chars("É")));
    for (a, b) in [("Abc", "aBC"), ("x", "y"), ("É", "É"), ("k", "K")] {
        assert_eq!(matches_ignore_case(a, &to_chars(b)), a.eq_ignore_ascii_case(b));
    }
}

#[test]
fn same_text_is_equality() {
    assert!(same_text("UTF-8", "UTF-8"));
    assert!(same_text("", ""));
    assert!(!same_text("UTF-8", "utf-8"));
    assert!(!same_text("UTF-8", "UTF-8 "));
    assert!(!same_text("UTF-8 ", "UTF-8"));
}

#[test]
fn scanning_the_ends_of_a_text() {
    assert!(starts_with_space_or_tab(" a"));
    assert!(starts_with_space_or_tab("\ta"));
    assert!(!starts_with_space_or_tab("a "));
    assert!(!starts_with_space_or_tab(""));
    assert!(ends_with_space_or_tab("a "));
    assert!(ends_with_space_or_tab("a\t"));
    assert!(ends_with_space_or_tab(" "));
    assert!(!ends_with_space_or_tab(" a"));
    assert!(!ends_with_space_or_tab(""));
    assert!(contains_line_break("a\nb"));
    assert!(contains_line_break("\r"));
    assert!(!contains_line_break("a b\t"));
    assert!(!contains_line_break(""));
}

#[test]
fn find_char_counts_characters() {
    assert_eq!(find_char("abc:def:", ':'), Some(3));
    assert_eq!(find_char("é€:x", ':'), Some(2));
    assert_eq!(find_char(":", ':'), Some(0));
    assert_eq!(find_char("abc", ':'), None);
    assert_eq!(find_char("", ':'), None);
}

#[test]
fn split_once_splits_at_the_first_delimiter() {
    assert_eq!(split_once("a:b:c", ':'), Some(("a", "b:c")));
    assert_eq!(split_once(":b", ':'), Some(("", "b")));
    assert_eq!(split_once("a:", ':'), Some(("a", "")));
    assert_eq!(split_once("é€:ß", ':'), Some(("é€", "ß")));
    assert_eq!(split_once("abc", ':'), None);
    for text in ["a:b:c", "::", "no delimiter", "é:é", ""] {
        assert_eq!(split_once(text, ':'), text.split_once(':'));
    }
}

#[test]
fn skip_first_drops_one_character() {
    assert_eq!(skip_first(" value"), "value");
    assert_eq!(skip_first("é€"), "€");
    assert_eq!(skip_first("x"), "");
}

#[test]
fn paths_are_ordered_byte_by_byte() {
    assert!(is_text_before("a", "b"));
    assert!(!is_text_before("b", "a"));
    assert!(!is_text_before("a", "a"));
    assert!(is_text_before("", "a"));
    assert!(!is_text_before("a", ""));
    assert!(!is_text_before("", ""));
    assert!(is_text_before("data/a", "data/a.txt"));
    assert!(is_text_before("data/B", "data/a"));
    assert!(is_text_before("data/a-b", "data/a/b"));
    assert!(is_text_before("z", "é"));
    for (a, b) in [("abc", "abd"), ("abc", "ab"), ("é", "z"), ("a/b", "a-b"), ("x", "x")] {
        assert_eq!(is_text_before(a, b), a < b);
    }
}
