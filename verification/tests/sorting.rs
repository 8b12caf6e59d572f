use std::mem;

use beancount_sort::date::Date;
use beancount_sort::entry::{Entry, EntryType, SortError};
use beancount_sort::sort::{get_section_variant, sort_by_date_vec, sort_entries};

fn entry(content: &str, date: Date, entry_type: EntryType) -> Entry {
    Entry { content: content.to_string(), date, entry_type }
}

fn ymd(year: u32, month: u32, day: u32) -> Date {
    Date { year, month, day }
}

#[test]
fn test_get_section_variant() {
    assert_eq!(
        mem::discriminant(&get_section_variant("Header").unwrap()),
        mem::discriminant(&EntryType::Header)
    );
    assert_eq!(
        mem::discriminant(&get_section_variant("Accounts").unwrap()),
        mem::discriminant(&EntryType::Account)
    );
    assert_eq!(
        mem::discriminant(&get_section_variant("Options").unwrap()),
        mem::discriminant(&EntryType::OptionEntry)
    );
    assert_eq!(
        mem::discriminant(&get_section_variant("Commodities").unwrap()),
        mem::discriminant(&EntryType::Commodity)
    );
    assert_eq!(
        mem::discriminant(&get_section_variant("Other Entries").unwrap()),
        mem::discriminant(&EntryType::OtherEntry)
    );
    assert_eq!(
        mem::discriminant(&get_section_variant("Prices").unwrap()),
        mem::discriminant(&EntryType::Price)
    );
    assert_eq!(
        mem::discriminant(&get_section_variant("Transactions").unwrap()),
        mem::discriminant(&EntryType::Transaction)
    );
    assert!(get_section_variant("abcdefg").is_err());
}

#[test]
fn test_sort_entries() {
    let entries = vec![
        entry("3", ymd(2021, 01, 01), EntryType::Transaction),
        entry("1", ymd(2021, 01, 02), EntryType::OptionEntry),
        entry("2", ymd(2021, 01, 03), EntryType::Account),
    ];
    let mut sorted_entries_function = sort_entries(entries).unwrap();
    let sorted_entries_manual = [
        entry("1", ymd(2021, 01, 02), EntryType::OptionEntry),
        entry("2", ymd(2021, 01, 03), EntryType::Account),
        entry("3", ymd(2021, 01, 01), EntryType::Transaction),
    ];
    let mut i = 0;
    while i < sorted_entries_function.len() {
        if mem::discriminant(&sorted_entries_function[i].entry_type)
            == mem::discriminant(&EntryType::Section)
        {
            sorted_entries_function.remove(i);
        } else {
            i += 1;
        }
    }
    assert_eq!(
        sorted_entries_function[0].content,
        sorted_entries_manual[0].content
    );
    assert_eq!(
        sorted_entries_function[1].content,
        sorted_entries_manual[1].content
    );
    assert_eq!(
        sorted_entries_function[2].content,
        sorted_entries_manual[2].content
    );
}

#[test]
fn unknown_section_reports_its_name() {
    match get_section_variant("abcdefg") {
        Err(SortError::UnknownSection { name }) => assert_eq!(name, "abcdefg"),
        other => panic!("expected an unknown-section error, got {:?}", other),
    }
}

#[test]
fn stable_sort_keeps_order_of_equal_dates() {
    let entries = vec![
        entry("first", ymd(2021, 5, 1), EntryType::Transaction),
        entry("second", ymd(2021, 5, 1), EntryType::Transaction),
        entry("earlier", ymd(2020, 12, 31), EntryType::Transaction),
        entry("third", ymd(2021, 5, 1), EntryType::Transaction),
    ];
    let sorted = sort_by_date_vec(entries);
    let contents: Vec<&str> = sorted.iter().map(|e| e.content.as_str()).collect();
    assert_eq!(contents, vec!["earlier", "first", "second", "third"]);
}

#[test]
fn heading_built_from_name_and_glyphs() {
    let sorted = sort_entries(Vec::new()).unwrap();
    // With no entries, the output is exactly the six headings after Header.
    assert_eq!(sorted.len(), 6);
    let options = &sorted[0];
    assert_eq!(options.entry_type, EntryType::Section);
    assert_eq!(
        options.content,
        ";\u{20ac}\u{20ac}\u{20ac}\u{20ac}\u{20ac}\u{20ac}\u{20ac}\u{20ac}\u{20ac}\u{20ac}\u{20ac}\u{20ac}\u{20ac}\u{20ac}\u{20ac}\n;\u{20ac}\u{20ac}\u{20ac}\u{20ac}Options\u{20ac}\u{20ac}\u{20ac}\u{20ac}\n;\u{20ac}\u{20ac}\u{20ac}\u{20ac}\u{20ac}\u{20ac}\u{20ac}\u{20ac}\u{20ac}\u{20ac}\u{20ac}\u{20ac}\u{20ac}\u{20ac}\u{20ac}"
    );
    assert_eq!(options.date, ymd(1990, 1, 1));
}

#[test]
fn sections_come_in_fixed_order() {
    let entries = vec![
        entry("2021-01-05 price X 1 EUR", ymd(2021, 1, 5), EntryType::Price),
        entry("2021-01-04 note A \"n\"", ymd(2021, 1, 4), EntryType::OtherEntry),
        entry("2021-01-03 commodity EUR", ymd(2021, 1, 3), EntryType::Commodity),
        entry("2021-01-02 open A:B", ymd(2021, 1, 2), EntryType::Account),
        entry("option \"t\" \"v\"", ymd(1990, 1, 1), EntryType::OptionEntry),
        entry("2021-01-01 * \"t\"", ymd(2021, 1, 1), EntryType::Transaction),
        entry("#!header", ymd(1990, 1, 1), EntryType::Header),
    ];
    let sorted = sort_entries(entries).unwrap();
    let non_heading: Vec<&str> = sorted
        .iter()
        .filter(|e| e.entry_type != EntryType::Section)
        .map(|e| e.content.as_str())
        .collect();
    assert_eq!(
        non_heading,
        vec![
            "#!header",
            "option \"t\" \"v\"",
            "2021-01-02 open A:B",
            "2021-01-03 commodity EUR",
            "2021-01-04 note A \"n\"",
            "2021-01-05 price X 1 EUR",
            "2021-01-01 * \"t\"",
        ]
    );
}
