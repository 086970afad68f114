//! Tests for the text primitives: search, split, strip, trim.

use uvt::text::eq_chars;
use uvt::text::find_first;
use uvt::text::find_last;
use uvt::text::has;
use uvt::text::has_first;
use uvt::text::split;
use uvt::text::split_once;
use uvt::text::strip_first;
use uvt::text::strip_last;
use uvt::text::substring;
use uvt::text::trim;

fn chars(s: &str) -> Vec<char> {
    s.chars().collect()
}

#[test]
fn find_first_and_last_locate_occurrences() {
    assert_eq!(find_first(&chars("a:b:c"), ':'), Some(1));
    assert_eq!(find_last(&chars("a:b:c"), ':'), Some(3));
    assert_eq!(find_first(&chars("abc"), ':'), None);
    assert_eq!(find_last(&chars(""), ':'), None);
}

#[test]
fn has_and_has_first() {
    assert!(has(&chars("a=b"), '='));
    assert!(!has(&chars("ab"), '='));
    assert!(has_first(&chars("@x"), '@'));
    assert!(!has_first(&chars("x@"), '@'));
    assert!(!has_first(&chars(""), '@'));
}

#[test]
fn split_consumes_delimiters_and_drops_a_trailing_empty_piece() {
    assert_eq!(split(&chars("a:b"), ':'), vec![chars("a"), chars("b")]);
    assert_eq!(split(&chars("a:"), ':'), vec![chars("a")]);
    assert_eq!(split(&chars(":a"), ':'), vec![chars(""), chars("a")]);
    assert_eq!(split(&chars(":"), ':'), vec![chars("")]);
    assert_eq!(split(&chars("a::b"), ':'), vec![chars("a"), chars(""), chars("b")]);
    assert_eq!(split(&chars(""), ':'), Vec::<Vec<char>>::new());
    assert_eq!(split(&chars("abc"), ':'), vec![chars("abc")]);
}

#[test]
fn split_once_trims_both_sides() {
    assert_eq!(
        split_once(&chars("  X , Lang:0x00 "), ','),
        Some((chars("X"), chars("Lang:0x00")))
    );
    assert_eq!(split_once(&chars("no separator"), ','), None);
    // Only the first occurrence splits; the rest stays on the right.
    assert_eq!(split_once(&chars("a,b,c"), ','), Some((chars("a"), chars("b,c"))));
}

#[test]
fn strip_first_and_last_require_the_character() {
    assert_eq!(strip_first(&chars("@abc"), '@'), Some(chars("abc")));
    assert_eq!(strip_first(&chars("abc"), '@'), None);
    assert_eq!(strip_first(&chars(""), '@'), None);
    assert_eq!(strip_last(&chars("12)"), ')'), Some(chars("12")));
    assert_eq!(strip_last(&chars("12"), ')'), None);
    assert_eq!(strip_last(&chars(""), ')'), None);
}

#[test]
fn substring_is_inclusive_of_both_ends() {
    assert_eq!(substring(&chars("abcdef"), 1, 3), chars("bcd"));
    assert_eq!(substring(&chars("abcdef"), 0, 0), chars("a"));
}

#[test]
fn trim_removes_spaces_and_tabs_only() {
    assert_eq!(trim(&chars("  a b \t")), chars("a b"));
    assert_eq!(trim(&chars("\t \t")), chars(""));
    assert_eq!(trim(&chars("")), chars(""));
    assert_eq!(trim(&chars("x")), chars("x"));
}

#[test]
fn eq_chars_compares_text() {
    assert!(eq_chars(&chars("abc"), &chars("abc")));
    assert!(!eq_chars(&chars("abc"), &chars("abd")));
    assert!(!eq_chars(&chars("abc"), &chars("ab")));
}
