use ize_core::run_actions::RunCategory;
use ize_core::run_io::header_category;
use ize_core::text::{is_blank, parse_id};

#[test]
fn parse_id_reads_unsigned_decimal() {
    assert_eq!(parse_id("0"), Some(0));
    assert_eq!(parse_id("42"), Some(42));
    assert_eq!(parse_id("007"), Some(7));
    assert_eq!(parse_id("+9"), Some(9));
    assert_eq!(parse_id("18446744073709551615"), Some(usize::MAX));
}

#[test]
fn parse_id_rejects_what_usize_parse_rejects() {
    for s in ["", "+", "-1", " 1", "1 ", "1a", "++1", "18446744073709551616", "remaining", "١"] {
        assert_eq!(parse_id(s), None, "{s:?}");
        assert!(s.parse::<usize>().is_err());
    }
}

#[test]
fn is_blank_matches_trim() {
    for s in ["", " ", "\t \r", "\u{a0}\u{3000}", "x", " x ", "\u{200b}"] {
        assert_eq!(is_blank(s), s.trim().is_empty(), "{s:?}");
    }
}

#[test]
fn header_category_names_the_four_categories() {
    assert_eq!(header_category("remaining"), Some(RunCategory::Remaining));
    assert_eq!(header_category("working"), Some(RunCategory::Working));
    assert_eq!(header_category("incorrect"), Some(RunCategory::Incorrect));
    assert_eq!(header_category("memorized"), Some(RunCategory::Memorized));
    assert_eq!(header_category("Remaining"), None);
    assert_eq!(header_category("memorised"), None);
    assert_eq!(header_category(""), None);
}
