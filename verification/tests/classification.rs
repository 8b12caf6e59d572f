use beancount_sort::classify::{get_line_type, Line};
use beancount_sort::construct::construct_dated_entry;
use beancount_sort::date::Date;
use beancount_sort::entry::{Entry, EntryType, SortError};

fn ymd(year: u32, month: u32, day: u32) -> Date {
    Date { year, month, day }
}

#[test]
fn test_construct_dated_entry() {
    let good_line: &str = "2022-04-17 * \"Schlosspark Pankow\" \"Brezel \"";
    let good_date: Date = ymd(2022, 01, 01);
    let constructed_entry: Entry = construct_dated_entry(good_line, good_date).unwrap();
    let good_entry: Entry = Entry {
        content: good_line.to_string(),
        date: good_date,
        entry_type: EntryType::Transaction,
    };
    assert_eq!(constructed_entry, good_entry);
}

#[test]
fn valid_date_tokens_classify_as_their_date() {
    assert_eq!(
        get_line_type("2021-02-28 * \"x\"", 1).unwrap(),
        Line::Date(ymd(2021, 2, 28))
    );
    assert_eq!(
        get_line_type("2020-02-29 open A:B", 1).unwrap(),
        Line::Date(ymd(2020, 2, 29))
    );
    assert_eq!(
        get_line_type("0000-01-01 x", 1).unwrap(),
        Line::Date(ymd(0, 1, 1))
    );
    assert_eq!(
        get_line_type("9999-12-31 x", 1).unwrap(),
        Line::Date(ymd(9999, 12, 31))
    );
}

#[test]
fn date_shaped_but_invalid_dates_fail() {
    // Not a leap year.
    match get_line_type("2021-02-29 * \"x\"", 7) {
        Err(SortError::DateParse { line }) => assert_eq!(line, 7),
        other => panic!("expected a date-parse error, got {:?}", other),
    }
    assert!(matches!(
        get_line_type("2021-02-30 note", 1),
        Err(SortError::DateParse { .. })
    ));
    assert!(matches!(
        get_line_type("2021-00-01 note", 1),
        Err(SortError::DateParse { .. })
    ));
    assert!(matches!(
        get_line_type("2021-13-01 note", 1),
        Err(SortError::DateParse { .. })
    ));
    assert!(matches!(
        get_line_type("2021-04-31 note", 1),
        Err(SortError::DateParse { .. })
    ));
}

#[test]
fn section_marker_wins_over_comment() {
    assert_eq!(
        get_line_type(";\u{20ac}\u{20ac}\u{20ac}\u{20ac}Options\u{20ac}", 1).unwrap(),
        Line::Section
    );
    // Still a section heading when more semicolons follow the marker.
    assert_eq!(
        get_line_type(";\u{20ac}\u{20ac}\u{20ac}\u{20ac};;;", 1).unwrap(),
        Line::Section
    );
    // Fewer glyphs than the marker needs: an ordinary comment.
    assert_eq!(
        get_line_type(";\u{20ac}\u{20ac}\u{20ac} note", 1).unwrap(),
        Line::Comment
    );
    assert_eq!(get_line_type(";; plain comment", 1).unwrap(), Line::Comment);
}

#[test]
fn remaining_line_kinds() {
    assert_eq!(
        get_line_type("option \"title\" \"ledger\"", 1).unwrap(),
        Line::OptionLine
    );
    assert_eq!(get_line_type("  Assets:Cash 1 EUR", 1).unwrap(), Line::Indent);
    assert_eq!(get_line_type("", 1).unwrap(), Line::Empty);
    match get_line_type("garbage line", 12) {
        Err(SortError::UnclassifiableLine { line, text }) => {
            assert_eq!(line, 12);
            assert_eq!(text, "garbage line");
        },
        other => panic!("expected an unclassifiable-line error, got {:?}", other),
    }
    // Only spaces: no non-space follows, so the line is not a continuation.
    assert!(matches!(
        get_line_type("   ", 3),
        Err(SortError::UnclassifiableLine { line: 3, .. })
    ));
}

#[test]
fn directive_keywords_pick_the_kind() {
    let d = ymd(2021, 6, 1);
    let cases: Vec<(&str, EntryType)> = vec![
        ("2021-06-01 ! \"flagged\"", EntryType::Transaction),
        ("2021-06-01 commodity EUR", EntryType::Commodity),
        ("2021-06-01 price EUR 1 USD", EntryType::Price),
        ("2021-06-01 open Assets:Cash", EntryType::Account),
        ("2021-06-01 close Assets:Cash", EntryType::OtherEntry),
        ("2021-06-01 balance Assets:Cash 0 EUR", EntryType::OtherEntry),
    ];
    for (line, kind) in cases {
        let e = construct_dated_entry(line, d).unwrap();
        assert_eq!(e.entry_type, kind);
        assert_eq!(e.content, line);
        assert_eq!(e.date, d);
    }
}

#[test]
fn missing_directive_keyword_fails() {
    let d = ymd(2021, 6, 1);
    assert!(matches!(
        construct_dated_entry("2021-06-01", d),
        Err(SortError::MissingDirective)
    ));
    assert!(matches!(
        construct_dated_entry("2021-06-01 ", d),
        Err(SortError::MissingDirective)
    ));
    // Two spaces before the keyword: the keyword is not right after the date.
    assert!(matches!(
        construct_dated_entry("2021-06-01  open Assets", d),
        Err(SortError::MissingDirective)
    ));
    // Not a word character, star or bang.
    assert!(matches!(
        construct_dated_entry("2021-06-01 ?", d),
        Err(SortError::MissingDirective)
    ));
}
