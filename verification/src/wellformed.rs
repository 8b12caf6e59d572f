//! The shape of an assembled entry's content: a run of absorbed comment
//! lines, one directive line carrying the entry's kind and date, and, for
//! multi-line directives, continuation and comment lines ending in a
//! continuation. Assembly establishes this shape for every entry it emits;
//! the round-trip laws consume it.

use vstd::prelude::*;

use crate::assemble::{absorb_comment, assemble, assemble_from, header_entries, step};
use crate::classify::{classify, LineClass};
use crate::construct::dated_entry;
use crate::date::Date;
use crate::entry::{EntrySpec, EntryType, ErrorSpec};
use crate::render::{lemma_split_concat, lemma_split_single, no_newline, no_newlines, split_lines};

verus! {

/// How many lines at the head all classify as comments.
pub open spec fn comment_run(ls: Seq<Seq<char>>) -> int
    decreases ls.len(),
{
    if ls.len() > 0 && classify(ls.first()) == LineClass::CommentLine {
        1 + comment_run(ls.drop_first())
    } else {
        0
    }
}

pub proof fn lemma_comment_run_facts(ls: Seq<Seq<char>>)
    ensures
        0 <= comment_run(ls) <= ls.len(),
        forall|i: int| 0 <= i < comment_run(ls) ==> classify(#[trigger] ls[i])
            == LineClass::CommentLine,
        comment_run(ls) < ls.len() ==> classify(ls[comment_run(ls)]) != LineClass::CommentLine,
    decreases ls.len(),
{
    if ls.len() > 0 && classify(ls.first()) == LineClass::CommentLine {
        lemma_comment_run_facts(ls.drop_first());
        assert forall|i: int| 0 <= i < comment_run(ls) implies classify(#[trigger] ls[i])
            == LineClass::CommentLine by {
            if i > 0 {
                assert(ls.drop_first()[i - 1] == ls[i]);
            }
        }
        if comment_run(ls) < ls.len() {
            assert(ls[comment_run(ls)] == ls.drop_first()[comment_run(ls.drop_first())]);
        }
    }
}

/// The head comment run is exactly `p` when the first `p` lines are comments
/// and line `p`, if present, is not.
pub proof fn lemma_comment_run_is(ls: Seq<Seq<char>>, p: int)
    requires
        0 <= p <= ls.len(),
        forall|i: int| 0 <= i < p ==> classify(#[trigger] ls[i]) == LineClass::CommentLine,
        p < ls.len() ==> classify(ls[p]) != LineClass::CommentLine,
    ensures
        comment_run(ls) == p,
    decreases ls.len(),
{
    if p == 0 {
        if ls.len() > 0 {
            assert(classify(ls.first()) != LineClass::CommentLine);
        }
    } else {
        assert(classify(ls.first()) == LineClass::CommentLine);
        assert forall|i: int| 0 <= i < p - 1 implies classify(#[trigger] ls.drop_first()[i])
            == LineClass::CommentLine by {
            assert(ls.drop_first()[i] == ls[i + 1]);
        }
        if p - 1 < ls.drop_first().len() {
            assert(ls.drop_first()[p - 1] == ls[p]);
        }
        lemma_comment_run_is(ls.drop_first(), p - 1);
    }
}

/// The kinds an entry can have once assembly is done. `Indented` and
/// `Section` are transient and never persist.
pub open spec fn storable_kind(k: EntryType) -> bool {
    ||| k == EntryType::Header
    ||| k == EntryType::OptionEntry
    ||| k == EntryType::Comment
    ||| k == EntryType::Account
    ||| k == EntryType::Commodity
    ||| k == EntryType::Price
    ||| k == EntryType::Transaction
    ||| k == EntryType::OtherEntry
}

/// A well-shaped entry: newline-free lines, a comment prefix, then lines as
/// the kind demands. Header entries carry one verbatim line with no further
/// structure.
pub open spec fn ws_entry(e: EntrySpec) -> bool {
    let ls = split_lines(e.content);
    let p = comment_run(ls);
    &&& no_newlines(ls)
    &&& match e.kind {
        EntryType::Comment => p == ls.len() && e.date == Date::spec_sentinel(),
        EntryType::OptionEntry => {
            &&& p == ls.len() - 1
            &&& classify(ls.last()) == LineClass::OptionLine
            &&& e.date == Date::spec_sentinel()
        },
        EntryType::Account | EntryType::Price | EntryType::OtherEntry => {
            &&& p == ls.len() - 1
            &&& classify(ls[p]) == LineClass::DateLine(e.date)
            &&& dated_entry(ls[p], e.date) == Ok::<EntrySpec, ErrorSpec>(
                EntrySpec { content: ls[p], date: e.date, kind: e.kind },
            )
        },
        EntryType::Transaction | EntryType::Commodity => {
            &&& 0 <= p < ls.len()
            &&& classify(ls[p]) == LineClass::DateLine(e.date)
            &&& dated_entry(ls[p], e.date) == Ok::<EntrySpec, ErrorSpec>(
                EntrySpec { content: ls[p], date: e.date, kind: e.kind },
            )
            &&& forall|i: int|
                p < i < ls.len() ==> (classify(#[trigger] ls[i]) == LineClass::IndentLine
                    || classify(ls[i]) == LineClass::CommentLine)
            &&& (ls.len() > p + 1 ==> classify(ls.last()) == LineClass::IndentLine)
        },
        EntryType::Header => e.date == Date::spec_sentinel() && no_newline(e.content),
        _ => false,
    }
}

/// Every entry of the list is well-shaped and of a storable kind.
pub open spec fn ws_entries(es: Seq<EntrySpec>) -> bool {
    forall|i: int| 0 <= i < es.len() ==> ws_entry(#[trigger] es[i]) && storable_kind(es[i].kind)
}

/// No entry of the list is a Header entry.
pub open spec fn no_header(es: Seq<EntrySpec>) -> bool {
    forall|i: int| 0 <= i < es.len() ==> (#[trigger] es[i]).kind != EntryType::Header
}

/// Dropping the last entry keeps both predicates.
proof fn lemma_ws_drop_last(es: Seq<EntrySpec>)
    requires
        ws_entries(es),
        es.len() > 0,
    ensures
        ws_entries(es.drop_last()),
        no_header(es) ==> no_header(es.drop_last()),
{
    assert forall|i: int| 0 <= i < es.drop_last().len() implies ws_entry(
        #[trigger] es.drop_last()[i],
    ) && storable_kind(es.drop_last()[i].kind) by {
        assert(es.drop_last()[i] == es[i]);
    }
    if no_header(es) {
        assert forall|i: int| 0 <= i < es.drop_last().len() implies (#[trigger] es.drop_last()[i]).kind
            != EntryType::Header by {
            assert(es.drop_last()[i] == es[i]);
        }
    }
}

/// Pushing a well-shaped entry keeps both predicates.
proof fn lemma_ws_push(es: Seq<EntrySpec>, e: EntrySpec)
    requires
        ws_entries(es),
        ws_entry(e),
        storable_kind(e.kind),
    ensures
        ws_entries(es.push(e)),
        no_header(es) && e.kind != EntryType::Header ==> no_header(es.push(e)),
{
    assert forall|i: int| 0 <= i < es.push(e).len() implies ws_entry(#[trigger] es.push(e)[i])
        && storable_kind(es.push(e)[i].kind) by {
        if i < es.len() {
            assert(es.push(e)[i] == es[i]);
        } else {
            assert(es.push(e)[i] == e);
        }
    }
    if no_header(es) && e.kind != EntryType::Header {
        assert forall|i: int| 0 <= i < es.push(e).len() implies (#[trigger] es.push(e)[i]).kind
            != EntryType::Header by {
            if i < es.len() {
                assert(es.push(e)[i] == es[i]);
            }
        }
    }
}

/// Prepending a run of comment lines to a candidate keeps its shape: the
/// comment run grows, everything after it stays.
proof fn lemma_ws_absorb(prev: EntrySpec, cand: EntrySpec)
    requires
        ws_entry(prev),
        prev.kind == EntryType::Comment,
        ws_entry(cand),
        storable_kind(cand.kind),
        cand.kind != EntryType::Header,
    ensures
        ws_entry(
            EntrySpec {
                content: prev.content + seq!['\n'] + cand.content,
                date: cand.date,
                kind: cand.kind,
            },
        ),
{
    let a = split_lines(prev.content);
    let b = split_lines(cand.content);
    lemma_split_concat(prev.content, cand.content);
    let merged = EntrySpec {
        content: prev.content + seq!['\n'] + cand.content,
        date: cand.date,
        kind: cand.kind,
    };
    let ls = split_lines(merged.content);
    assert(ls == a + b);
    lemma_comment_run_facts(a);
    lemma_comment_run_facts(b);
    assert(comment_run(a) == a.len());
    let p = comment_run(b);
    assert(no_newlines(ls)) by {
        assert forall|i: int| 0 <= i < ls.len() implies no_newline(#[trigger] ls[i]) by {
            if i < a.len() {
                assert(ls[i] == a[i]);
            } else {
                assert(ls[i] == b[i - a.len()]);
            }
        }
    }
    assert forall|i: int| 0 <= i < a.len() + p implies classify(#[trigger] ls[i])
        == LineClass::CommentLine by {
        if i < a.len() {
            assert(ls[i] == a[i]);
        } else {
            assert(ls[i] == b[i - a.len()]);
        }
    }
    match cand.kind {
        EntryType::Comment => {
            lemma_comment_run_is(ls, ls.len() as int);
        },
        EntryType::OptionEntry => {
            assert(ls[a.len() + p] == b[p]);
            lemma_comment_run_is(ls, a.len() + p);
            assert(ls.last() == b.last());
        },
        EntryType::Account | EntryType::Price | EntryType::OtherEntry => {
            assert(ls[a.len() + p] == b[p]);
            lemma_comment_run_is(ls, a.len() + p);
        },
        EntryType::Transaction | EntryType::Commodity => {
            assert(ls[a.len() + p] == b[p]);
            lemma_comment_run_is(ls, a.len() + p);
            let q = a.len() + p;
            assert(classify(ls[q]) == LineClass::DateLine(merged.date));
            assert forall|i: int| q < i < ls.len() implies (classify(#[trigger] ls[i])
                == LineClass::IndentLine || classify(ls[i]) == LineClass::CommentLine) by {
                assert(ls[i] == b[i - a.len()]);
            }
            if ls.len() > q + 1 {
                assert(ls.last() == b.last());
            }
        },
        _ => {
            assert(false);
        },
    }
}

/// One assembly step keeps every entry well-shaped, and creates no Header
/// entry.
proof fn lemma_step_ws(acc: Seq<EntrySpec>, line: Seq<char>, n: nat)
    requires
        ws_entries(acc),
        no_newline(line),
        step(acc, line, n) is Ok,
    ensures
        ws_entries(step(acc, line, n)->Ok_0),
        no_header(acc) ==> no_header(step(acc, line, n)->Ok_0),
{
    lemma_split_single(line);
    match classify(line) {
        LineClass::SectionLine => {},
        LineClass::EmptyLine => {},
        LineClass::CommentLine => {
            let cand = EntrySpec {
                content: line,
                date: Date::spec_sentinel(),
                kind: EntryType::Comment,
            };
            assert(ws_entry(cand)) by {
                lemma_comment_run_is(split_lines(line), 1);
            }
            lemma_step_ws_candidate(acc, cand, n);
        },
        LineClass::OptionLine => {
            let cand = EntrySpec {
                content: line,
                date: Date::spec_sentinel(),
                kind: EntryType::OptionEntry,
            };
            assert(ws_entry(cand)) by {
                lemma_comment_run_is(split_lines(line), 0);
            }
            lemma_step_ws_candidate(acc, cand, n);
        },
        LineClass::DateLine(dt) => {
            let cand = dated_entry(line, dt)->Ok_0;
            assert(cand.content == line && cand.date == dt);
            assert(ws_entry(cand)) by {
                lemma_comment_run_is(split_lines(line), 0);
            }
            lemma_step_ws_candidate(acc, cand, n);
        },
        LineClass::IndentLine => {
            let cand0 = EntrySpec {
                content: line,
                date: Date::spec_sentinel(),
                kind: EntryType::Indented,
            };
            let (acc1, cand) = absorb_comment(acc, cand0);
            let last = acc1.last();
            assert(last.kind == EntryType::Transaction || last.kind == EntryType::Commodity);
            assert(ws_entry(last) && acc1.len() > 0) by {
                if acc.len() > 0 && acc.last().kind == EntryType::Comment {
                    assert(acc1 == acc.drop_last());
                    assert(acc1.len() > 0);
                    assert(acc1.last() == acc[acc.len() - 2]);
                } else {
                    assert(acc1.last() == acc[acc.len() - 1]);
                }
            }
            // The candidate's lines: absorbed comments, then the one indent line.
            let b = split_lines(cand.content);
            assert({
                &&& b.len() >= 1
                &&& no_newlines(b)
                &&& comment_run(b) == b.len() - 1
                &&& classify(b.last()) == LineClass::IndentLine
            }) by {
                if acc.len() > 0 && acc.last().kind == EntryType::Comment {
                    let prev = acc.last();
                    assert(ws_entry(prev) && prev.kind == EntryType::Comment);
                    let a = split_lines(prev.content);
                    lemma_split_concat(prev.content, line);
                    assert(b == a + split_lines(line));
                    lemma_comment_run_facts(a);
                    assert forall|i: int| 0 <= i < b.len() - 1 implies classify(#[trigger] b[i])
                        == LineClass::CommentLine by {
                        assert(b[i] == a[i]);
                    }
                    assert(b.last() == line);
                    lemma_comment_run_is(b, b.len() - 1);
                    assert forall|i: int| 0 <= i < b.len() implies no_newline(#[trigger] b[i]) by {
                        if i < a.len() {
                            assert(b[i] == a[i]);
                        } else {
                            assert(b[i] == line);
                        }
                    }
                } else {
                    assert(cand.content == line);
                    assert(b == seq![line]);
                    lemma_comment_run_is(b, 0);
                }
            }
            let merged = EntrySpec {
                content: last.content + seq!['\n'] + cand.content,
                date: last.date,
                kind: last.kind,
            };
            assert(ws_entry(merged)) by {
                let a = split_lines(last.content);
                lemma_split_concat(last.content, cand.content);
                let ls = split_lines(merged.content);
                assert(ls == a + b);
                let p = comment_run(a);
                lemma_comment_run_facts(a);
                assert forall|i: int| 0 <= i < ls.len() implies no_newline(#[trigger] ls[i]) by {
                    if i < a.len() {
                        assert(ls[i] == a[i]);
                    } else {
                        assert(ls[i] == b[i - a.len()]);
                    }
                }
                assert forall|i: int| 0 <= i < p implies classify(#[trigger] ls[i])
                    == LineClass::CommentLine by {
                    assert(ls[i] == a[i]);
                }
                assert(ls[p] == a[p]);
                lemma_comment_run_is(ls, p);
                assert(classify(ls[p]) == LineClass::DateLine(merged.date));
                assert forall|i: int| p < i < ls.len() implies (classify(#[trigger] ls[i])
                    == LineClass::IndentLine || classify(ls[i]) == LineClass::CommentLine) by {
                    if i < a.len() {
                        assert(ls[i] == a[i]);
                    } else {
                        assert(ls[i] == b[i - a.len()]);
                        lemma_comment_run_facts(b);
                        if i - a.len() < b.len() - 1 {
                            assert(classify(b[i - a.len()]) == LineClass::CommentLine);
                        } else {
                            assert(b[i - a.len()] == b.last());
                        }
                    }
                }
                assert(ls.last() == b.last());
            }
            assert(ws_entries(acc1)) by {
                if acc.len() > 0 && acc.last().kind == EntryType::Comment {
                    lemma_ws_drop_last(acc);
                    assert(acc1 == acc.drop_last());
                }
            }
            lemma_ws_drop_last(acc1);
            lemma_ws_push(acc1.drop_last(), merged);
            if no_header(acc) {
                assert(no_header(acc1)) by {
                    if acc.len() > 0 && acc.last().kind == EntryType::Comment {
                        assert forall|i: int| 0 <= i < acc1.len() implies (#[trigger] acc1[i]).kind
                            != EntryType::Header by {
                            assert(acc1[i] == acc[i]);
                        }
                    }
                }
                assert forall|i: int| 0 <= i < acc1.drop_last().len() implies (#[trigger] acc1.drop_last()[i]).kind
                    != EntryType::Header by {
                    assert(acc1.drop_last()[i] == acc1[i]);
                }
            }
        },
        _ => {},
    }
}

/// A non-indent candidate lands, possibly swallowing a comment: the result
/// is well-shaped.
proof fn lemma_step_ws_candidate(acc: Seq<EntrySpec>, cand: EntrySpec, n: nat)
    requires
        ws_entries(acc),
        ws_entry(cand),
        storable_kind(cand.kind),
        cand.kind != EntryType::Indented,
        cand.kind != EntryType::Header,
        cand.kind != EntryType::Section,
    ensures
        crate::assemble::push_candidate(acc, cand, n) is Ok,
        ws_entries(crate::assemble::push_candidate(acc, cand, n)->Ok_0),
        no_header(acc) ==> no_header(crate::assemble::push_candidate(acc, cand, n)->Ok_0),
{
    if acc.len() > 0 && acc.last().kind == EntryType::Comment {
        let prev = acc.last();
        lemma_ws_absorb(prev, cand);
        let merged = EntrySpec {
            content: prev.content + seq!['\n'] + cand.content,
            date: cand.date,
            kind: cand.kind,
        };
        lemma_ws_drop_last(acc);
        lemma_ws_push(acc.drop_last(), merged);
    } else {
        lemma_ws_push(acc, cand);
    }
}

/// Folding lines preserves well-shapedness of the accumulated entries.
proof fn lemma_assemble_from_ws(acc: Seq<EntrySpec>, lines: Seq<Seq<char>>, n: nat)
    requires
        ws_entries(acc),
        no_newlines(lines),
        assemble_from(acc, lines, n) is Ok,
    ensures
        ws_entries(assemble_from(acc, lines, n)->Ok_0),
        no_header(acc) ==> no_header(assemble_from(acc, lines, n)->Ok_0),
    decreases lines.len(),
{
    if lines.len() > 0 {
        lemma_step_ws(acc, lines.first(), n);
        assert(no_newlines(lines.drop_first())) by {
            assert forall|i: int| 0 <= i < lines.drop_first().len() implies no_newline(
                #[trigger] lines.drop_first()[i],
            ) by {
                assert(lines.drop_first()[i] == lines[i + 1]);
            }
        }
        lemma_assemble_from_ws(step(acc, lines.first(), n)->Ok_0, lines.drop_first(), (n + 1) as nat);
    }
}

/// The assembler's output invariant: every emitted entry is well-shaped and
/// of a storable kind; with nothing skipped, none is a Header entry.
pub proof fn lemma_assembler_output_ws(lines: Seq<Seq<char>>, skip: nat)
    requires
        no_newlines(lines),
        assemble(lines, skip) is Ok,
    ensures
        ws_entries(assemble(lines, skip)->Ok_0),
        skip == 0 ==> no_header(assemble(lines, skip)->Ok_0),
{
    let hs = header_entries(lines, skip as int);
    assert(ws_entries(hs)) by {
        assert forall|i: int| 0 <= i < hs.len() implies ws_entry(#[trigger] hs[i]) && storable_kind(
            hs[i].kind,
        ) by {
            assert(hs[i] == crate::assemble::header_entry(lines.take(skip as int)[i]));
            assert(lines.take(skip as int)[i] == lines[i]);
            assert(no_newline(lines[i]));
            assert(hs[i].kind == EntryType::Header);
            assert(hs[i].content == lines[i]);
            assert(hs[i].date == Date::spec_sentinel());
            lemma_split_single(lines[i]);
            assert(no_newlines(seq![lines[i]])) by {
                assert(seq![lines[i]][0] == lines[i]);
            }
        }
    }
    assert(no_newlines(lines.skip(skip as int))) by {
        assert forall|i: int| 0 <= i < lines.skip(skip as int).len() implies no_newline(
            #[trigger] lines.skip(skip as int)[i],
        ) by {
            assert(lines.skip(skip as int)[i] == lines[i + skip]);
        }
    }
    lemma_assemble_from_ws(hs, lines.skip(skip as int), (skip + 1) as nat);
    if skip == 0 {
        assert(hs =~= Seq::<EntrySpec>::empty()) by {
            assert(lines.take(0) =~= Seq::<Seq<char>>::empty());
        }
    }
}

} // verus!
