//! The entry constructor: for a line that starts with a date token, the
//! directive keyword right after the date picks the semantic entry kind.

use vstd::prelude::*;

use crate::classify::{is_date_shape, is_digit};
use crate::date::Date;
use crate::entry::{Entry, EntrySpec, EntryType, ErrorSpec, SortError};
use crate::text::str_eq;

verus! {

/// A word character: an ASCII letter, digit or underscore.
pub open spec fn is_word_char(c: char) -> bool {
    ||| is_digit(c)
    ||| ('a' as u32) <= (c as u32) && (c as u32) <= ('z' as u32)
    ||| ('A' as u32) <= (c as u32) && (c as u32) <= ('Z' as u32)
    ||| c == '_'
}

/// The end of the run of word characters that starts at position `i`.
pub open spec fn word_run_end(s: Seq<char>, i: int) -> int
    decreases s.len() - i,
{
    if 0 <= i < s.len() && is_word_char(s[i]) {
        word_run_end(s, i + 1)
    } else {
        i
    }
}

pub proof fn lemma_word_run_end(s: Seq<char>, i: int)
    requires
        0 <= i <= s.len(),
    ensures
        i <= word_run_end(s, i) <= s.len(),
        forall|j: int| i <= j < word_run_end(s, i) ==> is_word_char(s[j]),
        word_run_end(s, i) < s.len() ==> !is_word_char(s[word_run_end(s, i)]),
    decreases s.len() - i,
{
    if i < s.len() && is_word_char(s[i]) {
        lemma_word_run_end(s, i + 1);
    }
}

/// The directive keyword right after the date token: a run of word
/// characters, or the single character `*` or `!`, separated from the date
/// by exactly one space. `None` when the line carries no such keyword.
pub open spec fn directive_token(s: Seq<char>) -> Option<Seq<char>> {
    if !is_date_shape(s) {
        None
    } else if s.len() >= 12 && s[10] == ' ' {
        if s[11] == '*' || s[11] == '!' {
            Some(seq![s[11]])
        } else if is_word_char(s[11]) {
            Some(s.subrange(11, word_run_end(s, 11)))
        } else {
            None
        }
    } else {
        None
    }
}

/// The entry kind a directive keyword maps to.
pub open spec fn kind_for_token(t: Seq<char>) -> EntryType {
    if t == seq!['*'] || t == seq!['!'] {
        EntryType::Transaction
    } else if t == "commodity"@ {
        EntryType::Commodity
    } else if t == "price"@ {
        EntryType::Price
    } else if t == "open"@ {
        EntryType::Account
    } else {
        EntryType::OtherEntry
    }
}

/// The entry a date-prefixed line produces: its content is the verbatim
/// line, its date the supplied one, its kind picked by the keyword.
pub open spec fn dated_entry(s: Seq<char>, dt: Date) -> Result<EntrySpec, ErrorSpec> {
    match directive_token(s) {
        Option::None => Err(ErrorSpec::MissingDirective),
        Option::Some(t) => Ok(EntrySpec { content: s, date: dt, kind: kind_for_token(t) }),
    }
}

pub fn is_word_char_exec(c: char) -> (r: bool)
    ensures
        r == is_word_char(c),
{
    crate::classify::is_digit_exec(c) || (('a' as u32) <= (c as u32) && (c as u32) <= ('z' as u32))
        || (('A' as u32) <= (c as u32) && (c as u32) <= ('Z' as u32)) || c == '_'
}

/// Creates an [`Entry`] from a date-prefixed line and its parsed date.
pub fn construct_dated_entry(line: &str, date: Date) -> (r: Result<Entry, SortError>)
    ensures
        match dated_entry(line@, date) {
            Ok(e) => r matches Ok(en) && en@ == e,
            Err(er) => r matches Err(x) && x@ == er,
        },
{
    if date_shape_holds(line) {
        let len = line.unicode_len();
        if len >= 12 && line.get_char(10) == ' ' {
            let c = line.get_char(11);
            if c == '*' || c == '!' {
                Ok(Entry { content: line.to_owned(), date, entry_type: EntryType::Transaction })
            } else if is_word_char_exec(c) {
                let mut j: usize = 12;
                while j < len && is_word_char_exec(line.get_char(j))
                    invariant
                        12 <= j <= len,
                        len == line@.len(),
                        forall|k: int| 11 <= k < j ==> is_word_char(line@[k]),
                    decreases len - j,
                {
                    j += 1;
                }
                proof {
                    lemma_word_run_is(line@, 11, j as int);
                }
                let token = line.substring_char(11, j);
                let kind = if str_eq(token, "commodity") {
                    EntryType::Commodity
                } else if str_eq(token, "price") {
                    EntryType::Price
                } else if str_eq(token, "open") {
                    EntryType::Account
                } else {
                    EntryType::OtherEntry
                };
                proof {
                    let t = line@.subrange(11, word_run_end(line@, 11));
                    assert(t[0] == line@[11]);
                    assert(t != seq!['*'] && t != seq!['!']);
                }
                Ok(Entry { content: line.to_owned(), date, entry_type: kind })
            } else {
                Err(SortError::MissingDirective)
            }
        } else {
            Err(SortError::MissingDirective)
        }
    } else {
        Err(SortError::MissingDirective)
    }
}

/// The run of word characters from `i` ends exactly where the scan stopped.
proof fn lemma_word_run_is(s: Seq<char>, i: int, j: int)
    requires
        0 <= i <= j <= s.len(),
        forall|k: int| i <= k < j ==> is_word_char(s[k]),
        j == s.len() || !is_word_char(s[j]),
    ensures
        word_run_end(s, i) == j,
    decreases j - i,
{
    if i < j {
        lemma_word_run_is(s, i + 1, j);
    }
}

fn date_shape_holds(line: &str) -> (r: bool)
    ensures
        r == is_date_shape(line@),
{
    match crate::classify::date_shape(line) {
        Option::Some(_) => true,
        Option::None => false,
    }
}

} // verus!
