//! The line classifier: maps one raw text line to a line kind using ordered
//! pattern rules. The order of the rules is semantically required; in
//! particular, section headings are themselves comment-syntax lines and must
//! be recognised before plain comments.

use vstd::prelude::*;

use crate::date::{valid_date, Date};
use crate::entry::SortError;

verus! {

/// The decoration glyph used by section headings.
pub open spec fn deco_char() -> char {
    '\u{20ac}'
}

/// How many decoration glyphs a section-heading marker repeats.
pub open spec fn deco_count() -> int {
    4
}

pub open spec fn is_digit(c: char) -> bool {
    ('0' as u32) <= (c as u32) && (c as u32) <= ('9' as u32)
}

pub open spec fn digit_val(c: char) -> int {
    c as u32 - '0' as u32
}

/// The line starts with a date-shaped token: `YYYY-MM-DD` with the month's
/// tens digit 0 or 1 and the day's tens digit 0 to 3.
pub open spec fn is_date_shape(s: Seq<char>) -> bool {
    &&& s.len() >= 10
    &&& is_digit(s[0]) && is_digit(s[1]) && is_digit(s[2]) && is_digit(s[3])
    &&& s[4] == '-'
    &&& (s[5] == '0' || s[5] == '1') && is_digit(s[6])
    &&& s[7] == '-'
    &&& (s[8] == '0' || s[8] == '1' || s[8] == '2' || s[8] == '3') && is_digit(s[9])
}

pub open spec fn shape_year(s: Seq<char>) -> int {
    1000 * digit_val(s[0]) + 100 * digit_val(s[1]) + 10 * digit_val(s[2]) + digit_val(s[3])
}

pub open spec fn shape_month(s: Seq<char>) -> int {
    10 * digit_val(s[5]) + digit_val(s[6])
}

pub open spec fn shape_day(s: Seq<char>) -> int {
    10 * digit_val(s[8]) + digit_val(s[9])
}

/// The date written by a date-shaped token.
pub open spec fn shape_date(s: Seq<char>) -> Date {
    Date { year: shape_year(s) as u32, month: shape_month(s) as u32, day: shape_day(s) as u32 }
}

/// The line starts with the literal keyword `option`.
pub open spec fn is_option_prefix(s: Seq<char>) -> bool {
    &&& s.len() >= 6
    &&& s[0] == 'o' && s[1] == 'p' && s[2] == 't' && s[3] == 'i' && s[4] == 'o' && s[5] == 'n'
}

/// The line starts with the reserved section-heading marker: a semicolon
/// followed by the decoration glyph repeated [`deco_count`] times.
pub open spec fn is_section_prefix(s: Seq<char>) -> bool {
    &&& s.len() >= 1 + deco_count()
    &&& s[0] == ';'
    &&& forall|i: int| 1 <= i <= deco_count() ==> s[i] == deco_char()
}

/// The line starts with one or more semicolons.
pub open spec fn is_comment_prefix(s: Seq<char>) -> bool {
    s.len() >= 1 && s[0] == ';'
}

/// The line starts with one or more leading spaces followed by a non-space
/// character: a continuation line.
pub open spec fn is_indent_line(s: Seq<char>) -> bool {
    s.len() >= 1 && s[0] == ' ' && exists|i: int| 0 <= i < s.len() && s[i] != ' '
}

/// What the ordered classification rules say of one line; first match wins.
pub ghost enum LineClass {
    DateLine(Date),
    BadDate,
    OptionLine,
    SectionLine,
    CommentLine,
    IndentLine,
    EmptyLine,
    Unclassifiable,
}

/// The classification of a raw line, with the rules applied in their
/// required order.
pub open spec fn classify(s: Seq<char>) -> LineClass {
    if is_date_shape(s) {
        if valid_date(shape_year(s), shape_month(s), shape_day(s)) {
            LineClass::DateLine(shape_date(s))
        } else {
            LineClass::BadDate
        }
    } else if is_option_prefix(s) {
        LineClass::OptionLine
    } else if is_section_prefix(s) {
        LineClass::SectionLine
    } else if is_comment_prefix(s) {
        LineClass::CommentLine
    } else if is_indent_line(s) {
        LineClass::IndentLine
    } else if s.len() == 0 {
        LineClass::EmptyLine
    } else {
        LineClass::Unclassifiable
    }
}

/// The kind of one line, as the classifier reports it to the assembler.
#[derive(Clone, Copy, PartialEq, Eq, Structural, Debug)]
pub enum Line {
    Date(Date),
    OptionLine,
    Comment,
    Indent,
    Empty,
    Section,
}

pub fn is_digit_exec(c: char) -> (r: bool)
    ensures
        r == is_digit(c),
{
    ('0' as u32) <= (c as u32) && (c as u32) <= ('9' as u32)
}

fn digit_val_exec(c: char) -> (r: u32)
    requires
        is_digit(c),
    ensures
        r == digit_val(c),
{
    c as u32 - '0' as u32
}

/// Reads the date-shaped token at the head of the line, if there is one,
/// as plain year, month and day numbers (not yet calendar-validated).
pub fn date_shape(line: &str) -> (r: Option<(u32, u32, u32)>)
    ensures
        r is Some <==> is_date_shape(line@),
        r matches Some(t) ==> t.0 == shape_year(line@) && t.1 == shape_month(line@) && t.2
            == shape_day(line@),
{
    let len = line.unicode_len();
    if len < 10 {
        return None;
    }
    let c0 = line.get_char(0);
    let c1 = line.get_char(1);
    let c2 = line.get_char(2);
    let c3 = line.get_char(3);
    let c4 = line.get_char(4);
    let c5 = line.get_char(5);
    let c6 = line.get_char(6);
    let c7 = line.get_char(7);
    let c8 = line.get_char(8);
    let c9 = line.get_char(9);
    if is_digit_exec(c0) && is_digit_exec(c1) && is_digit_exec(c2) && is_digit_exec(c3) && c4 == '-'
        && (c5 == '0' || c5 == '1') && is_digit_exec(c6) && c7 == '-' && (c8 == '0' || c8 == '1'
        || c8 == '2' || c8 == '3') && is_digit_exec(c9) {
        let y = 1000 * digit_val_exec(c0) + 100 * digit_val_exec(c1) + 10 * digit_val_exec(c2)
            + digit_val_exec(c3);
        let m = 10 * digit_val_exec(c5) + digit_val_exec(c6);
        let d = 10 * digit_val_exec(c8) + digit_val_exec(c9);
        Some((y, m, d))
    } else {
        None
    }
}

/// Identifies the kind of a given line; `n` is its 1-based line number,
/// used to enrich errors.
pub fn get_line_type(line: &str, n: usize) -> (r: Result<Line, SortError>)
    ensures
        match classify(line@) {
            LineClass::DateLine(d) => r == Ok::<Line, SortError>(Line::Date(d)),
            LineClass::BadDate => (r matches Err(e) && e matches SortError::DateParse {
                line: eline,
            } && eline == n),
            LineClass::OptionLine => r == Ok::<Line, SortError>(Line::OptionLine),
            LineClass::SectionLine => r == Ok::<Line, SortError>(Line::Section),
            LineClass::CommentLine => r == Ok::<Line, SortError>(Line::Comment),
            LineClass::IndentLine => r == Ok::<Line, SortError>(Line::Indent),
            LineClass::EmptyLine => r == Ok::<Line, SortError>(Line::Empty),
            LineClass::Unclassifiable => (r matches Err(e) && e matches SortError::UnclassifiableLine {
                line: eline,
                text,
            } && eline == n && text@ == line@),
        },
{
    let len = line.unicode_len();
    match date_shape(line) {
        Some((y, m, d)) => {
            match Date::new(y, m, d) {
                Some(dt) => Ok(Line::Date(dt)),
                None => Err(SortError::DateParse { line: n }),
            }
        },
        None => {
            if len >= 6 && line.get_char(0) == 'o' && line.get_char(1) == 'p' && line.get_char(2)
                == 't' && line.get_char(3) == 'i' && line.get_char(4) == 'o' && line.get_char(5)
                == 'n' {
                Ok(Line::OptionLine)
            } else if len >= 1 && line.get_char(0) == ';' {
                if len >= 5 && line.get_char(1) == '\u{20ac}' && line.get_char(2) == '\u{20ac}'
                    && line.get_char(3) == '\u{20ac}' && line.get_char(4) == '\u{20ac}' {
                    Ok(Line::Section)
                } else {
                    Ok(Line::Comment)
                }
            } else if len >= 1 && line.get_char(0) == ' ' {
                let mut i: usize = 1;
                while i < len
                    invariant
                        1 <= i <= len,
                        len == line@.len(),
                        line@[0] == ' ',
                        forall|j: int| 0 <= j < i ==> line@[j] == ' ',
                    decreases len - i,
                {
                    if line.get_char(i) != ' ' {
                        return Ok(Line::Indent);
                    }
                    i += 1;
                }
                Err(SortError::UnclassifiableLine { line: n, text: line.to_owned() })
            } else if len == 0 {
                Ok(Line::Empty)
            } else {
                Err(SortError::UnclassifiableLine { line: n, text: line.to_owned() })
            }
        },
    }
}

} // verus!
