//! Laws the library states about itself: classification precedence, how a
//! multi-line directive absorbs its continuation lines, and what the stable
//! sort preserves.

use vstd::prelude::*;

use crate::assemble::{absorb_comment, assemble, assemble_from, header_entries, push_candidate,
    step};
use crate::classify::{classify, is_comment_prefix, is_date_shape, is_section_prefix, shape_date,
    shape_day, shape_month, shape_year, LineClass};
use crate::construct::dated_entry;
use crate::date::{valid_date, Date};
use crate::entry::{EntrySpec, EntryType, ErrorSpec};
use crate::sort::{insert_sorted, sort_by_date, sorted_by_date};

verus! {

broadcast use vstd::seq_lib::group_to_multiset_ensures;

/// The predicate an entry dated `d` satisfies; named so that the same
/// closure value can be spoken of everywhere.
pub open spec fn with_date(d: Date) -> spec_fn(EntrySpec) -> bool {
    |e: EntrySpec| e.date == d
}

/// Every line that begins with a valid date token classifies as exactly
/// that date; a date-shaped token that fails calendar validation classifies
/// as a date error.
pub proof fn lemma_classifier_dates(s: Seq<char>)
    requires
        is_date_shape(s),
    ensures
        valid_date(shape_year(s), shape_month(s), shape_day(s)) ==> classify(s)
            == LineClass::DateLine(shape_date(s)),
        !valid_date(shape_year(s), shape_month(s), shape_day(s)) ==> classify(s)
            == LineClass::BadDate,
{
}

/// Every line that begins with the section-heading marker classifies as a
/// Section line, although it also begins with a semicolon like any comment:
/// the section rule is evaluated first.
pub proof fn lemma_section_beats_comment(s: Seq<char>)
    requires
        is_section_prefix(s),
    ensures
        is_comment_prefix(s),
        classify(s) == LineClass::SectionLine,
{
    assert(!is_date_shape(s));
}

/// The lines of an entry's multi-line content, joined back with newlines.
pub open spec fn join_lines(lines: Seq<Seq<char>>) -> Seq<char>
    decreases lines.len(),
{
    if lines.len() == 0 {
        Seq::empty()
    } else {
        lines.first() + join_tail(lines.drop_first())
    }
}

/// A newline before each further line.
pub open spec fn join_tail(lines: Seq<Seq<char>>) -> Seq<char>
    decreases lines.len(),
{
    if lines.len() == 0 {
        Seq::empty()
    } else {
        seq!['\n'] + lines.first() + join_tail(lines.drop_first())
    }
}

/// A run of continuation lines after a multi-line directive folds, line by
/// line, into that directive's content, leaving one merged entry.
proof fn lemma_indent_run(acc: Seq<EntrySpec>, e: EntrySpec, lines: Seq<Seq<char>>, n: nat)
    requires
        e.kind == EntryType::Transaction || e.kind == EntryType::Commodity,
        forall|i: int| 0 <= i < lines.len() ==> classify(#[trigger] lines[i])
            == LineClass::IndentLine,
    ensures
        assemble_from(acc.push(e), lines, n) == Ok::<Seq<EntrySpec>, ErrorSpec>(
            acc.push(
                EntrySpec { content: e.content + join_tail(lines), date: e.date, kind: e.kind },
            ),
        ),
    decreases lines.len(),
{
    if lines.len() == 0 {
        assert(e.content + join_tail(lines) =~= e.content);
        assert(acc.push(EntrySpec { content: e.content + join_tail(lines), date: e.date, kind: e.kind })
            =~= acc.push(e));
    } else {
        let line = lines.first();
        let cand = EntrySpec { content: line, date: Date::spec_sentinel(), kind: EntryType::Indented };
        let merged = EntrySpec {
            content: e.content + seq!['\n'] + line,
            date: e.date,
            kind: e.kind,
        };
        assert(acc.push(e).last() == e);
        assert(absorb_comment(acc.push(e), cand) == (acc.push(e), cand));
        assert(acc.push(e).drop_last() =~= acc);
        assert(step(acc.push(e), line, n) == Ok::<Seq<EntrySpec>, ErrorSpec>(acc.push(merged)));
        lemma_indent_run(acc, merged, lines.drop_first(), (n + 1) as nat);
        assert(merged.content + join_tail(lines.drop_first()) =~= e.content + join_tail(lines));
    }
}

/// A transaction directive followed by one or more indented lines produces
/// exactly one entry: the directive line, then each indented line, joined
/// by newlines, in original order, under the transaction's date and kind.
pub proof fn lemma_transaction_absorbs_indents(lines: Seq<Seq<char>>, dt: Date, e: EntrySpec)
    requires
        lines.len() >= 1,
        classify(lines.first()) == LineClass::DateLine(dt),
        dated_entry(lines.first(), dt) == Ok::<EntrySpec, ErrorSpec>(e),
        e.kind == EntryType::Transaction,
        forall|i: int| 1 <= i < lines.len() ==> classify(#[trigger] lines[i])
            == LineClass::IndentLine,
    ensures
        assemble(lines, 0) == Ok::<Seq<EntrySpec>, ErrorSpec>(
            seq![
                EntrySpec {
                    content: join_lines(lines),
                    date: dt,
                    kind: EntryType::Transaction,
                },
            ],
        ),
{
    let empty = Seq::<EntrySpec>::empty();
    assert(header_entries(lines, 0) =~= empty) by {
        assert(lines.take(0) =~= Seq::<Seq<char>>::empty());
    }
    assert(lines.skip(0) =~= lines);
    assert(push_candidate(empty, e, 1) == Ok::<Seq<EntrySpec>, ErrorSpec>(empty.push(e)));
    assert(step(empty, lines.first(), 1) == Ok::<Seq<EntrySpec>, ErrorSpec>(empty.push(e)));
    assert(e.content == lines.first());
    assert(e.date == dt);
    assert forall|i: int| 0 <= i < lines.drop_first().len() implies classify(
        #[trigger] lines.drop_first()[i],
    ) == LineClass::IndentLine by {
        assert(lines.drop_first()[i] == lines[i + 1]);
    }
    lemma_indent_run(empty, e, lines.drop_first(), 2);
    assert(e.content + join_tail(lines.drop_first()) =~= join_lines(lines));
}


/// An indented first line (nothing skipped) always aborts assembly with a
/// misplaced-indent error naming line 1.
pub proof fn lemma_first_line_indent_is_misplaced(lines: Seq<Seq<char>>)
    requires
        lines.len() >= 1,
        classify(lines.first()) == LineClass::IndentLine,
    ensures
        assemble(lines, 0) == Err::<Seq<EntrySpec>, ErrorSpec>(
            ErrorSpec::MisplacedIndent { line: 1, content: Option::None },
        ),
{
    let empty = Seq::<EntrySpec>::empty();
    assert(header_entries(lines, 0) =~= empty) by {
        assert(lines.take(0) =~= Seq::<Seq<char>>::empty());
    }
    assert(lines.skip(0) =~= lines);
    let cand = EntrySpec {
        content: lines.first(),
        date: Date::spec_sentinel(),
        kind: EntryType::Indented,
    };
    assert(absorb_comment(empty, cand) == (empty, cand));
    assert(step(empty, lines.first(), 1) == Err::<Seq<EntrySpec>, ErrorSpec>(
        ErrorSpec::MisplacedIndent { line: 1, content: Option::None },
    ));
}

/// A comment line immediately followed by a transaction merges into one
/// entry whose content is the comment, a newline, then the transaction
/// line; a trailing comment with no follower stays a standalone Comment
/// entry.
pub proof fn lemma_comment_travels_with_transaction(c: Seq<char>, t: Seq<char>, dt: Date, e: EntrySpec)
    requires
        classify(c) == LineClass::CommentLine,
        classify(t) == LineClass::DateLine(dt),
        dated_entry(t, dt) == Ok::<EntrySpec, ErrorSpec>(e),
        e.kind == EntryType::Transaction,
    ensures
        assemble(seq![c, t], 0) == Ok::<Seq<EntrySpec>, ErrorSpec>(
            seq![
                EntrySpec {
                    content: c + seq!['\n'] + t,
                    date: dt,
                    kind: EntryType::Transaction,
                },
            ],
        ),
        assemble(seq![t, c], 0) == Ok::<Seq<EntrySpec>, ErrorSpec>(
            seq![
                e,
                EntrySpec { content: c, date: Date::spec_sentinel(), kind: EntryType::Comment },
            ],
        ),
{
    let empty = Seq::<EntrySpec>::empty();
    let cmt = EntrySpec { content: c, date: Date::spec_sentinel(), kind: EntryType::Comment };

    // Comment first: the transaction candidate swallows it.
    let a = seq![c, t];
    assert(header_entries(a, 0) =~= empty) by {
        assert(a.take(0) =~= Seq::<Seq<char>>::empty());
    }
    assert(a.skip(0) =~= a);
    assert(a.first() == c);
    assert(step(empty, c, 1) == Ok::<Seq<EntrySpec>, ErrorSpec>(empty.push(cmt)));
    assert(a.drop_first() =~= seq![t]);
    assert(seq![t].first() == t);
    let merged = EntrySpec { content: c + seq!['\n'] + t, date: dt, kind: EntryType::Transaction };
    assert(empty.push(cmt).last() == cmt);
    assert(empty.push(cmt).drop_last() =~= empty);
    assert(step(empty.push(cmt), t, 2) == Ok::<Seq<EntrySpec>, ErrorSpec>(empty.push(merged)));
    assert(seq![t].drop_first() =~= Seq::<Seq<char>>::empty());
    assert(empty.push(merged) =~= seq![merged]);
    assert(assemble_from(empty.push(merged), Seq::<Seq<char>>::empty(), 3)
        == Ok::<Seq<EntrySpec>, ErrorSpec>(empty.push(merged)));
    assert(assemble_from(empty.push(cmt), seq![t], 2) == Ok::<Seq<EntrySpec>, ErrorSpec>(
        empty.push(merged),
    ));
    assert(assemble_from(empty, a, 1) == Ok::<Seq<EntrySpec>, ErrorSpec>(seq![merged]));

    // Transaction first: the trailing comment stays standalone.
    let b = seq![t, c];
    assert(header_entries(b, 0) =~= empty) by {
        assert(b.take(0) =~= Seq::<Seq<char>>::empty());
    }
    assert(b.skip(0) =~= b);
    assert(b.first() == t);
    assert(step(empty, t, 1) == Ok::<Seq<EntrySpec>, ErrorSpec>(empty.push(e)));
    assert(b.drop_first() =~= seq![c]);
    assert(seq![c].first() == c);
    assert(empty.push(e).last() == e);
    assert(step(empty.push(e), c, 2) == Ok::<Seq<EntrySpec>, ErrorSpec>(empty.push(e).push(cmt)));
    assert(seq![c].drop_first() =~= Seq::<Seq<char>>::empty());
    assert(empty.push(e).push(cmt) =~= seq![e, cmt]);
    assert(assemble_from(empty.push(e).push(cmt), Seq::<Seq<char>>::empty(), 3)
        == Ok::<Seq<EntrySpec>, ErrorSpec>(empty.push(e).push(cmt)));
    assert(assemble_from(empty.push(e), seq![c], 2) == Ok::<Seq<EntrySpec>, ErrorSpec>(
        empty.push(e).push(cmt),
    ));
    assert(assemble_from(empty, b, 1) == Ok::<Seq<EntrySpec>, ErrorSpec>(seq![e, cmt]));
}

/// Everything [`insert_sorted`] places is bounded by any bound on the list
/// and the new entry.
proof fn lemma_insert_sorted_bound(e: EntrySpec, t: Seq<EntrySpec>, b: Date)
    requires
        forall|i: int| 0 <= i < t.len() ==> (#[trigger] t[i]).date.spec_le(b),
        e.date.spec_le(b),
    ensures
        forall|i: int|
            0 <= i < insert_sorted(e, t).len() ==> (#[trigger] insert_sorted(e, t)[i]).date.spec_le(
                b,
            ),
    decreases t.len(),
{
    if t.len() == 0 {
    } else if t.last().date.spec_le(e.date) {
    } else {
        assert(forall|i: int|
            0 <= i < t.drop_last().len() ==> (#[trigger] t.drop_last()[i]).date.spec_le(b));
        lemma_insert_sorted_bound(e, t.drop_last(), b);
    }
}

/// Inserting into a date-sorted list keeps it date-sorted.
proof fn lemma_insert_sorted_sorted(e: EntrySpec, t: Seq<EntrySpec>)
    requires
        sorted_by_date(t),
    ensures
        sorted_by_date(insert_sorted(e, t)),
    decreases t.len(),
{
    if t.len() == 0 {
    } else if t.last().date.spec_le(e.date) {
        let out = t.push(e);
        assert forall|i: int, j: int|
            #![trigger out[i], out[j]]
            0 <= i <= j < out.len() implies out[i].date.spec_le(out[j].date) by {
            if j < out.len() - 1 {
                assert(t[i].date.spec_le(t[j].date));
            } else if i < out.len() - 1 {
                assert(t[i].date.spec_le(t.last().date));
            }
        }
    } else {
        let dl = t.drop_last();
        assert(forall|i: int, j: int|
            #![trigger dl[i], dl[j]]
            0 <= i <= j < dl.len() ==> dl[i].date.spec_le(dl[j].date));
        lemma_insert_sorted_sorted(e, dl);
        assert(!t.last().date.spec_le(e.date));
        assert(e.date.spec_le(t.last().date));
        assert(forall|i: int| 0 <= i < dl.len() ==> (#[trigger] dl[i]).date.spec_le(t.last().date));
        lemma_insert_sorted_bound(e, dl, t.last().date);
        let ins = insert_sorted(e, dl);
        let out = ins.push(t.last());
        assert forall|i: int, j: int|
            #![trigger out[i], out[j]]
            0 <= i <= j < out.len() implies out[i].date.spec_le(out[j].date) by {
            if j < out.len() - 1 {
                assert(ins[i].date.spec_le(ins[j].date));
            } else if i < out.len() - 1 {
                assert(ins[i].date.spec_le(t.last().date));
            }
        }
    }
}

/// The stable sort leaves a date-sorted list.
pub proof fn lemma_sort_by_date_sorted(s: Seq<EntrySpec>)
    ensures
        sorted_by_date(sort_by_date(s)),
    decreases s.len(),
{
    if s.len() > 0 {
        lemma_sort_by_date_sorted(s.drop_last());
        lemma_insert_sorted_sorted(s.last(), sort_by_date(s.drop_last()));
    }
}

/// What [`insert_sorted`] does to the entries of one date: the new entry
/// lands after every entry already carrying its date, and no other date's
/// entries move.
proof fn lemma_insert_sorted_filter_date(e: EntrySpec, t: Seq<EntrySpec>, d: Date)
    ensures
        insert_sorted(e, t).filter(with_date(d)) == if e.date == d {
            t.filter(with_date(d)).push(e)
        } else {
            t.filter(with_date(d))
        },
    decreases t.len(),
{
    reveal(Seq::filter);
    let p = with_date(d);
    if t.len() == 0 {
        assert(seq![e].drop_last() =~= t);
        assert(seq![e].last() == e);
    } else if t.last().date.spec_le(e.date) {
        assert(t.push(e).drop_last() =~= t);
    } else {
        let dl = t.drop_last();
        lemma_insert_sorted_filter_date(e, dl, d);
        let out = insert_sorted(e, dl).push(t.last());
        assert(out.drop_last() =~= insert_sorted(e, dl));
        if e.date == d && t.last().date == d {
            assert(t.last().date.spec_le(e.date));
            assert(false);
        }
    }
}

/// Stability: sorting never reorders the entries that share one date; for
/// every date, the sorted list carries exactly the same subsequence of
/// entries as the input.
pub proof fn lemma_sort_by_date_stable(s: Seq<EntrySpec>, d: Date)
    ensures
        sort_by_date(s).filter(with_date(d)) == s.filter(with_date(d)),
    decreases s.len(),
{
    reveal(Seq::filter);
    if s.len() > 0 {
        lemma_sort_by_date_stable(s.drop_last(), d);
        lemma_insert_sorted_filter_date(s.last(), sort_by_date(s.drop_last()), d);
    }
}

/// Inserting adds exactly the one entry to the list's contents.
proof fn lemma_insert_sorted_multiset(e: EntrySpec, t: Seq<EntrySpec>)
    ensures
        insert_sorted(e, t).to_multiset() == t.to_multiset().insert(e),
    decreases t.len(),
{
    if t.len() == 0 {
        assert(seq![e].drop_last() =~= Seq::<EntrySpec>::empty());
        assert(seq![e] =~= Seq::<EntrySpec>::empty().push(e));
    } else if t.last().date.spec_le(e.date) {
    } else {
        lemma_insert_sorted_multiset(e, t.drop_last());
        assert(t.drop_last().push(t.last()) =~= t);
        assert(t.drop_last().push(t.last()).to_multiset() == t.drop_last().to_multiset().insert(
            t.last(),
        ));
        assert(insert_sorted(e, t.drop_last()).push(t.last()).to_multiset() == insert_sorted(
            e,
            t.drop_last(),
        ).to_multiset().insert(t.last()));
        assert(t.drop_last().to_multiset().insert(e).insert(t.last()) =~= t.drop_last()
            .to_multiset().insert(t.last()).insert(e));
    }
}

/// The stable sort is a permutation: every entry of the input appears in
/// the output exactly as often, contents unchanged.
pub proof fn lemma_sort_by_date_permutes(s: Seq<EntrySpec>)
    ensures
        sort_by_date(s).to_multiset() == s.to_multiset(),
    decreases s.len(),
{
    if s.len() > 0 {
        lemma_sort_by_date_permutes(s.drop_last());
        lemma_insert_sorted_multiset(s.last(), sort_by_date(s.drop_last()));
        assert(s.drop_last().push(s.last()) =~= s);
        assert(s.drop_last().push(s.last()).to_multiset() == s.drop_last().to_multiset().insert(
            s.last(),
        ));
    }
}

} // verus!
