//! Logical ledger entries: one directive's full rendered text, its effective
//! date, and its kind.

use vstd::prelude::*;

use crate::date::Date;

verus! {

/// The closed set of entry kinds. `Indented` and `Section` are transient:
/// they never survive into the assembler's output list.
#[derive(Clone, Copy, PartialEq, Eq, Structural, Debug)]
pub enum EntryType {
    Account,
    OptionEntry,
    Commodity,
    OtherEntry,
    Price,
    Transaction,
    Indented,
    Section,
    Header,
    Comment,
}

/// One logical entry: the exact rendered text (continuation lines joined by
/// `'\n'`), the effective date, and the kind.
#[derive(PartialEq, Eq, Debug)]
pub struct Entry {
    pub content: String,
    pub date: Date,
    pub entry_type: EntryType,
}

/// The mathematical value of an [`Entry`].
pub ghost struct EntrySpec {
    pub content: Seq<char>,
    pub date: Date,
    pub kind: EntryType,
}

impl View for Entry {
    type V = EntrySpec;

    open spec fn view(&self) -> EntrySpec {
        EntrySpec { content: self.content@, date: self.date, kind: self.entry_type }
    }
}

impl DeepView for Entry {
    type V = EntrySpec;

    open spec fn deep_view(&self) -> EntrySpec {
        self.view()
    }
}

impl Clone for Entry {
    fn clone(&self) -> (r: Self)
        ensures
            r@ == self@,
    {
        Entry { content: self.content.clone(), date: self.date, entry_type: self.entry_type }
    }
}

/// Why a run was aborted. Every error is fatal: the pipeline never recovers
/// locally, and no output is written unless the whole run succeeds.
#[derive(PartialEq, Eq, Debug)]
pub enum SortError {
    /// A date-shaped token failed calendar validation.
    DateParse { line: usize },
    /// A line matched none of the line-kind rules.
    UnclassifiableLine { line: usize, text: String },
    /// A date line lacked a directive keyword after the date.
    MissingDirective,
    /// The skip count exceeded the number of available lines.
    InsufficientLines,
    /// A continuation line had no preceding multi-line-capable entry.
    MisplacedIndent { line: usize, content: Option<String> },
    /// A section name outside the fixed section table; a programming error,
    /// never a runtime input error.
    UnknownSection { name: String },
}

/// The mathematical value of a [`SortError`].
pub ghost enum ErrorSpec {
    DateParse { line: nat },
    UnclassifiableLine { line: nat, text: Seq<char> },
    MissingDirective,
    InsufficientLines,
    MisplacedIndent { line: nat, content: Option<Seq<char>> },
    UnknownSection { name: Seq<char> },
}

impl View for SortError {
    type V = ErrorSpec;

    open spec fn view(&self) -> ErrorSpec {
        match self {
            SortError::DateParse { line } => ErrorSpec::DateParse { line: *line as nat },
            SortError::UnclassifiableLine { line, text } => ErrorSpec::UnclassifiableLine {
                line: *line as nat,
                text: text@,
            },
            SortError::MissingDirective => ErrorSpec::MissingDirective,
            SortError::InsufficientLines => ErrorSpec::InsufficientLines,
            SortError::MisplacedIndent { line, content } => ErrorSpec::MisplacedIndent {
                line: *line as nat,
                content: match content {
                    Some(t) => Some(t@),
                    None => None,
                },
            },
            SortError::UnknownSection { name } => ErrorSpec::UnknownSection { name: name@ },
        }
    }
}

} // verus!
