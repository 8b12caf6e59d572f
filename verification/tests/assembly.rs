use beancount_sort::assemble::find_entries;
use beancount_sort::date::Date;
use beancount_sort::entry::{EntryType, SortError};

fn lines(raw: &[&str]) -> Vec<String> {
    raw.iter().map(|s| s.to_string()).collect()
}

fn ymd(year: u32, month: u32, day: u32) -> Date {
    Date { year, month, day }
}

#[test]
fn transaction_absorbs_indented_lines() {
    let input = lines(&[
        "2021-03-14 * \"Bakery\" \"Bread\"",
        "  Assets:Cash -3 EUR",
        "  Expenses:Food 3 EUR",
    ]);
    let entries = find_entries(&input, 0).unwrap();
    assert_eq!(entries.len(), 1);
    assert_eq!(
        entries[0].content,
        "2021-03-14 * \"Bakery\" \"Bread\"\n  Assets:Cash -3 EUR\n  Expenses:Food 3 EUR"
    );
    assert_eq!(entries[0].entry_type, EntryType::Transaction);
    assert_eq!(entries[0].date, ymd(2021, 3, 14));
}

#[test]
fn commodity_absorbs_indented_lines() {
    let input = lines(&["2021-01-01 commodity EUR", "  name: \"Euro\""]);
    let entries = find_entries(&input, 0).unwrap();
    assert_eq!(entries.len(), 1);
    assert_eq!(
        entries[0].content,
        "2021-01-01 commodity EUR\n  name: \"Euro\""
    );
    assert_eq!(entries[0].entry_type, EntryType::Commodity);
}

#[test]
fn indent_on_first_line_is_misplaced() {
    let input = lines(&["  Assets:Cash -3 EUR"]);
    match find_entries(&input, 0) {
        Err(SortError::MisplacedIndent { line, content }) => {
            assert_eq!(line, 1);
            assert_eq!(content, None);
        },
        other => panic!("expected a misplaced-indent error, got {:?}", other),
    }
}

#[test]
fn indent_after_single_line_entry_is_misplaced() {
    let input = lines(&["option \"title\" \"x\"", "  stray continuation"]);
    match find_entries(&input, 0) {
        Err(SortError::MisplacedIndent { line, content }) => {
            assert_eq!(line, 2);
            assert_eq!(content, Some("  stray continuation".to_string()));
        },
        other => panic!("expected a misplaced-indent error, got {:?}", other),
    }
}

#[test]
fn comment_merges_into_following_transaction() {
    let input = lines(&["; bought bread", "2021-03-14 * \"Bakery\""]);
    let entries = find_entries(&input, 0).unwrap();
    assert_eq!(entries.len(), 1);
    assert_eq!(entries[0].content, "; bought bread\n2021-03-14 * \"Bakery\"");
    assert_eq!(entries[0].entry_type, EntryType::Transaction);
    assert_eq!(entries[0].date, ymd(2021, 3, 14));
}

#[test]
fn trailing_comment_stays_standalone() {
    let input = lines(&["2021-03-14 open Assets:Cash", "; the end"]);
    let entries = find_entries(&input, 0).unwrap();
    assert_eq!(entries.len(), 2);
    assert_eq!(entries[0].entry_type, EntryType::Account);
    assert_eq!(entries[1].content, "; the end");
    assert_eq!(entries[1].entry_type, EntryType::Comment);
}

#[test]
fn skipped_lines_become_headers_verbatim() {
    let input = lines(&["#!/usr/bin/env beancount", "garbage that never classifies", ""]);
    let entries = find_entries(&input, 2).unwrap();
    assert_eq!(entries.len(), 2);
    assert_eq!(entries[0].content, "#!/usr/bin/env beancount");
    assert_eq!(entries[0].entry_type, EntryType::Header);
    assert_eq!(entries[0].date, ymd(1990, 1, 1));
    assert_eq!(entries[1].content, "garbage that never classifies");
    assert_eq!(entries[1].entry_type, EntryType::Header);
}

#[test]
fn skip_count_beyond_file_fails() {
    let input = lines(&["option \"a\" \"b\""]);
    assert!(matches!(
        find_entries(&input, 2),
        Err(SortError::InsufficientLines)
    ));
}

#[test]
fn section_headings_and_blank_lines_are_dropped() {
    let input = lines(&[
        ";\u{20ac}\u{20ac}\u{20ac}\u{20ac}\u{20ac}\u{20ac}Options\u{20ac}\u{20ac}",
        "",
        "option \"title\" \"x\"",
        "",
    ]);
    let entries = find_entries(&input, 0).unwrap();
    assert_eq!(entries.len(), 1);
    assert_eq!(entries[0].content, "option \"title\" \"x\"");
    assert_eq!(entries[0].entry_type, EntryType::OptionEntry);
}

#[test]
fn missing_directive_surfaces_from_assembly() {
    let input = lines(&["2021-06-01"]);
    assert!(matches!(
        find_entries(&input, 0),
        Err(SortError::MissingDirective)
    ));
}

#[test]
fn comment_travels_into_indent_merge() {
    // A comment between continuation lines is carried into the directive.
    let input = lines(&[
        "2021-03-14 * \"Bakery\"",
        "  Assets:Cash -3 EUR",
        "; halfway note",
        "  Expenses:Food 3 EUR",
    ]);
    let entries = find_entries(&input, 0).unwrap();
    assert_eq!(entries.len(), 1);
    assert_eq!(
        entries[0].content,
        "2021-03-14 * \"Bakery\"\n  Assets:Cash -3 EUR\n; halfway note\n  Expenses:Food 3 EUR"
    );
}
