use beancount_sort::assemble::find_entries;
use beancount_sort::entry::{Entry, EntryType};
use beancount_sort::sort::sort_entries;

/// What the writer produces: each entry's content, optionally separated by
/// one blank line, then split back into raw lines as a reader would see them.
fn render_lines(entries: &[Entry], spaces: bool) -> Vec<String> {
    let mut out: Vec<String> = Vec::new();
    for e in entries {
        for line in e.content.split('\n') {
            out.push(line.to_string());
        }
        if spaces {
            out.push(String::new());
        }
    }
    out
}

fn pipeline(lines: &Vec<String>, spaces: bool) -> Vec<String> {
    let entries = find_entries(lines, 0).unwrap();
    let sorted = sort_entries(entries).unwrap();
    render_lines(&sorted, spaces)
}

fn sample() -> Vec<String> {
    [
        "option \"title\" \"ledger\"",
        "; opening note",
        "2021-03-14 * \"Bakery\" \"Bread\"",
        "  Assets:Cash -3 EUR",
        "  Expenses:Food 3 EUR",
        "2021-01-02 open Assets:Cash",
        "",
        "2021-02-01 commodity EUR",
        "  name: \"Euro\"",
        "2021-01-05 price EUR 1.09 USD",
        "2020-12-31 * \"Fireworks\"",
        "  Assets:Cash -10 EUR",
        "2021-01-01 balance Assets:Cash 0 EUR",
    ]
    .iter()
    .map(|s| s.to_string())
    .collect()
}

#[test]
fn pipeline_is_idempotent() {
    for spaces in [false, true] {
        let once = pipeline(&sample(), spaces);
        let twice = pipeline(&once, spaces);
        assert_eq!(twice, once);
    }
}

#[test]
fn sorted_input_reproduces_itself() {
    // A file already in canonical order passes through byte-identical:
    // same section headers, every entry's content unchanged.
    let canonical = pipeline(&sample(), false);
    assert_eq!(pipeline(&canonical, false), canonical);
    let canonical_spaced = pipeline(&sample(), true);
    assert_eq!(pipeline(&canonical_spaced, true), canonical_spaced);
}

#[test]
fn sorting_preserves_entry_contents() {
    let entries = find_entries(&sample(), 0).unwrap();
    let mut original: Vec<String> = entries.iter().map(|e| e.content.clone()).collect();
    let sorted = sort_entries(entries).unwrap();
    let mut kept: Vec<String> = sorted
        .iter()
        .filter(|e| e.entry_type != EntryType::Section)
        .map(|e| e.content.clone())
        .collect();
    original.sort();
    kept.sort();
    assert_eq!(kept, original);
}

#[test]
fn grouped_by_section_then_by_date() {
    let output = pipeline(&sample(), false);
    let text = output.join("\n");
    // Sections appear in their fixed order.
    let opt = text.find("option \"title\"").unwrap();
    let acc = text.find("2021-01-02 open").unwrap();
    let com = text.find("2021-02-01 commodity").unwrap();
    let oth = text.find("2021-01-01 balance").unwrap();
    let pri = text.find("2021-01-05 price").unwrap();
    let txn = text.find("2020-12-31 * \"Fireworks\"").unwrap();
    assert!(opt < acc && acc < com && com < oth && oth < pri && pri < txn);
    // Within transactions, ascending date: the comment travels with its entry.
    let second = text.find("; opening note").unwrap();
    assert!(txn < second);
}
