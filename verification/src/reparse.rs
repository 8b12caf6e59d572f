//! Reading back what the writer wrote: every rendered entry re-assembles to
//! itself, heading and blank lines vanish, and so a whole rendered file
//! re-assembles to exactly its non-heading entries.

use vstd::prelude::*;

use crate::assemble::{absorb_comment, assemble_from, step};
use crate::classify::{classify, LineClass};
use crate::construct::dated_entry;
use crate::date::Date;
use crate::entry::{EntrySpec, EntryType, ErrorSpec};
use crate::laws::{join_lines, join_tail};
use crate::render::{blank, lemma_join_split, lemma_join_tail_concat, lemma_split_lines_len,
    render_lines, split_lines};
use crate::wellformed::{comment_run, lemma_comment_run_facts, ws_entry};

verus! {

/// Joining distributes over concatenation of line blocks.
pub proof fn lemma_join_lines_concat(a: Seq<Seq<char>>, b: Seq<Seq<char>>)
    requires
        a.len() >= 1,
    ensures
        join_lines(a + b) == join_lines(a) + join_tail(b),
{
    assert((a + b).first() == a.first());
    assert((a + b).drop_first() =~= a.drop_first() + b);
    lemma_join_tail_concat(a.drop_first(), b);
    assert(join_lines(a + b) =~= join_lines(a) + join_tail(b));
}

/// Folding a concatenation of line chunks folds the first chunk, then the
/// second from where the first left off.
pub proof fn lemma_assemble_from_concat(
    acc: Seq<EntrySpec>,
    a: Seq<Seq<char>>,
    b: Seq<Seq<char>>,
    n: nat,
)
    ensures
        assemble_from(acc, a + b, n) == (match assemble_from(acc, a, n) {
            Ok(acc2) => assemble_from(acc2, b, (n + a.len()) as nat),
            Err(e) => Err(e),
        }),
    decreases a.len(),
{
    if a.len() == 0 {
        assert(a + b =~= b);
    } else {
        assert((a + b).first() == a.first());
        assert((a + b).drop_first() =~= a.drop_first() + b);
        match step(acc, a.first(), n) {
            Ok(acc2) => {
                lemma_assemble_from_concat(acc2, a.drop_first(), b, (n + 1) as nat);
            },
            Err(_) => {},
        }
    }
}


/// Folding no lines changes nothing.
proof fn lemma_assemble_from_nil(acc: Seq<EntrySpec>, n: nat)
    ensures
        assemble_from(acc, Seq::<Seq<char>>::empty(), n) == Ok::<Seq<EntrySpec>, ErrorSpec>(acc),
{
}

/// Folding one line is one step.
proof fn lemma_assemble_from_one(acc: Seq<EntrySpec>, line: Seq<char>, n: nat)
    ensures
        assemble_from(acc, seq![line], n) == (match step(acc, line, n) {
            Ok(a) => Ok::<Seq<EntrySpec>, ErrorSpec>(a),
            Err(e) => Err(e),
        }),
{
    assert(seq![line].first() == line);
    assert(seq![line].drop_first() =~= Seq::<Seq<char>>::empty());
    match step(acc, line, n) {
        Ok(a) => {
            lemma_assemble_from_nil(a, (n + 1) as nat);
        },
        Err(_) => {},
    }
}

/// Section-heading lines never touch the entry list.
proof fn lemma_sections_noop(acc: Seq<EntrySpec>, ls: Seq<Seq<char>>, n: nat)
    requires
        forall|i: int| 0 <= i < ls.len() ==> classify(#[trigger] ls[i]) == LineClass::SectionLine,
    ensures
        assemble_from(acc, ls, n) == Ok::<Seq<EntrySpec>, ErrorSpec>(acc),
    decreases ls.len(),
{
    if ls.len() > 0 {
        assert forall|i: int| 0 <= i < ls.drop_first().len() implies classify(
            #[trigger] ls.drop_first()[i],
        ) == LineClass::SectionLine by {
            assert(ls.drop_first()[i] == ls[i + 1]);
        }
        lemma_sections_noop(acc, ls.drop_first(), (n + 1) as nat);
    }
}

/// Comment lines keep merging into an open Comment entry.
proof fn lemma_comment_chunk_cont(acc: Seq<EntrySpec>, c: EntrySpec, ls: Seq<Seq<char>>, n: nat)
    requires
        c.kind == EntryType::Comment,
        c.date == Date::spec_sentinel(),
        forall|i: int| 0 <= i < ls.len() ==> classify(#[trigger] ls[i]) == LineClass::CommentLine,
    ensures
        assemble_from(acc.push(c), ls, n) == Ok::<Seq<EntrySpec>, ErrorSpec>(
            acc.push(
                EntrySpec {
                    content: c.content + join_tail(ls),
                    date: Date::spec_sentinel(),
                    kind: EntryType::Comment,
                },
            ),
        ),
    decreases ls.len(),
{
    if ls.len() == 0 {
        assert(c.content + join_tail(ls) =~= c.content);
        assert(EntrySpec {
            content: c.content + join_tail(ls),
            date: Date::spec_sentinel(),
            kind: EntryType::Comment,
        } =~= c);
    } else {
        let line = ls.first();
        let cand = EntrySpec { content: line, date: Date::spec_sentinel(), kind: EntryType::Comment };
        let merged = EntrySpec {
            content: c.content + seq!['\n'] + line,
            date: Date::spec_sentinel(),
            kind: EntryType::Comment,
        };
        assert(acc.push(c).last() == c);
        assert(acc.push(c).drop_last() =~= acc);
        assert(step(acc.push(c), line, n) == Ok::<Seq<EntrySpec>, ErrorSpec>(acc.push(merged)));
        assert forall|i: int| 0 <= i < ls.drop_first().len() implies classify(
            #[trigger] ls.drop_first()[i],
        ) == LineClass::CommentLine by {
            assert(ls.drop_first()[i] == ls[i + 1]);
        }
        lemma_comment_chunk_cont(acc, merged, ls.drop_first(), (n + 1) as nat);
        assert(merged.content + join_tail(ls.drop_first()) =~= c.content + join_tail(ls));
    }
}

/// A run of comment lines, met with no open Comment entry, becomes exactly
/// one Comment entry holding the run joined by newlines.
proof fn lemma_comment_chunk(acc: Seq<EntrySpec>, ls: Seq<Seq<char>>, n: nat)
    requires
        ls.len() >= 1,
        forall|i: int| 0 <= i < ls.len() ==> classify(#[trigger] ls[i]) == LineClass::CommentLine,
        acc.len() == 0 || acc.last().kind != EntryType::Comment,
    ensures
        assemble_from(acc, ls, n) == Ok::<Seq<EntrySpec>, ErrorSpec>(
            acc.push(
                EntrySpec {
                    content: join_lines(ls),
                    date: Date::spec_sentinel(),
                    kind: EntryType::Comment,
                },
            ),
        ),
{
    let line = ls.first();
    let c0 = EntrySpec { content: line, date: Date::spec_sentinel(), kind: EntryType::Comment };
    assert(step(acc, line, n) == Ok::<Seq<EntrySpec>, ErrorSpec>(acc.push(c0)));
    assert forall|i: int| 0 <= i < ls.drop_first().len() implies classify(
        #[trigger] ls.drop_first()[i],
    ) == LineClass::CommentLine by {
        assert(ls.drop_first()[i] == ls[i + 1]);
    }
    lemma_comment_chunk_cont(acc, c0, ls.drop_first(), (n + 1) as nat);
    assert(c0.content + join_tail(ls.drop_first()) =~= join_lines(ls));
}

/// A mixed run of continuation and comment lines that ends on a continuation
/// folds whole into the preceding multi-line directive.
#[verifier::rlimit(60)]
proof fn lemma_mixed_tail(acc: Seq<EntrySpec>, e: EntrySpec, ls: Seq<Seq<char>>, n: nat)
    requires
        e.kind == EntryType::Transaction || e.kind == EntryType::Commodity,
        forall|i: int|
            0 <= i < ls.len() ==> (classify(#[trigger] ls[i]) == LineClass::IndentLine || classify(
                ls[i],
            ) == LineClass::CommentLine),
        ls.len() > 0 ==> classify(ls.last()) == LineClass::IndentLine,
    ensures
        assemble_from(acc.push(e), ls, n) == Ok::<Seq<EntrySpec>, ErrorSpec>(
            acc.push(
                EntrySpec { content: e.content + join_tail(ls), date: e.date, kind: e.kind },
            ),
        ),
    decreases ls.len(),
{
    if ls.len() == 0 {
        assert(e.content + join_tail(ls) =~= e.content);
        assert(EntrySpec { content: e.content + join_tail(ls), date: e.date, kind: e.kind } =~= e);
    } else if classify(ls.first()) == LineClass::IndentLine {
        let line = ls.first();
        let merged = EntrySpec {
            content: e.content + seq!['\n'] + line,
            date: e.date,
            kind: e.kind,
        };
        assert(acc.push(e).last() == e);
        assert(acc.push(e).drop_last() =~= acc);
        assert(step(acc.push(e), line, n) == Ok::<Seq<EntrySpec>, ErrorSpec>(acc.push(merged)));
        assert forall|i: int|
            0 <= i < ls.drop_first().len() implies (classify(#[trigger] ls.drop_first()[i])
            == LineClass::IndentLine || classify(ls.drop_first()[i]) == LineClass::CommentLine) by {
            assert(ls.drop_first()[i] == ls[i + 1]);
        }
        if ls.drop_first().len() > 0 {
            assert(ls.drop_first().last() == ls.last());
        }
        lemma_mixed_tail(acc, merged, ls.drop_first(), (n + 1) as nat);
        assert(merged.content + join_tail(ls.drop_first()) =~= e.content + join_tail(ls));
    } else {
        let r = comment_run(ls);
        lemma_comment_run_facts(ls);
        assert(r >= 1);
        assert(r < ls.len()) by {
            if r == ls.len() {
                assert(classify(ls[ls.len() - 1]) == LineClass::CommentLine);
            }
        }
        assert(classify(ls[r]) == LineClass::IndentLine);
        let head = ls.take(r);
        let mid = ls[r];
        let rest = ls.skip(r + 1);
        assert(ls =~= head + (seq![mid] + rest));
        lemma_assemble_from_concat(acc.push(e), head, seq![mid] + rest, n);
        assert forall|i: int| 0 <= i < head.len() implies classify(#[trigger] head[i])
            == LineClass::CommentLine by {
            assert(head[i] == ls[i]);
        }
        lemma_comment_chunk(acc.push(e), head, n);
        let cmt = EntrySpec {
            content: join_lines(head),
            date: Date::spec_sentinel(),
            kind: EntryType::Comment,
        };
        let acc2 = acc.push(e).push(cmt);
        // The indent line absorbs the comment entry, then merges into `e`.
        let cand = EntrySpec {
            content: cmt.content + seq!['\n'] + mid,
            date: Date::spec_sentinel(),
            kind: EntryType::Indented,
        };
        assert(acc2.last() == cmt);
        assert(acc2.drop_last() =~= acc.push(e));
        assert(absorb_comment(
            acc2,
            EntrySpec { content: mid, date: Date::spec_sentinel(), kind: EntryType::Indented },
        ) == (acc.push(e), cand));
        let merged = EntrySpec {
            content: e.content + seq!['\n'] + cand.content,
            date: e.date,
            kind: e.kind,
        };
        assert(acc.push(e).last() == e);
        assert(acc.push(e).drop_last() =~= acc);
        assert(step(acc2, mid, (n + r) as nat) == Ok::<Seq<EntrySpec>, ErrorSpec>(
            acc.push(merged),
        ));
        lemma_assemble_from_concat(acc2, seq![mid], rest, (n + r) as nat);
        lemma_assemble_from_one(acc2, mid, (n + r) as nat);
        assert(assemble_from(acc2, seq![mid], (n + r) as nat) == Ok::<Seq<EntrySpec>, ErrorSpec>(
            acc.push(merged),
        ));
        assert forall|i: int|
            0 <= i < rest.len() implies (classify(#[trigger] rest[i]) == LineClass::IndentLine
            || classify(rest[i]) == LineClass::CommentLine) by {
            assert(rest[i] == ls[i + r + 1]);
        }
        if rest.len() > 0 {
            assert(rest.last() == ls.last());
        }
        lemma_mixed_tail(acc, merged, rest, (n + r + 1) as nat);
        // Content bookkeeping: the pieces joined in order are the whole tail.
        assert(join_tail(ls) == join_tail(head) + join_tail(seq![mid] + rest)) by {
            lemma_join_tail_concat(head, seq![mid] + rest);
        }
        assert(join_tail(seq![mid] + rest) == seq!['\n'] + mid + join_tail(rest)) by {
            assert((seq![mid] + rest).first() == mid);
            assert((seq![mid] + rest).drop_first() =~= rest);
        }
        assert(join_tail(head) == seq!['\n'] + join_lines(head));
        assert(merged.content + join_tail(rest) =~= e.content + join_tail(ls));
    }
}

/// The six entry kinds a rendered file contains whose text re-assembles to
/// exactly the entry it came from.
pub open spec fn reparse_exact_kind(k: EntryType) -> bool {
    ||| k == EntryType::OptionEntry
    ||| k == EntryType::Account
    ||| k == EntryType::Commodity
    ||| k == EntryType::Price
    ||| k == EntryType::Transaction
    ||| k == EntryType::OtherEntry
}

/// One well-shaped entry's rendered lines re-assemble to exactly that entry.
#[verifier::rlimit(60)]
proof fn lemma_entry_reparse(acc: Seq<EntrySpec>, e: EntrySpec, n: nat)
    requires
        ws_entry(e),
        reparse_exact_kind(e.kind),
        acc.len() == 0 || acc.last().kind != EntryType::Comment,
    ensures
        assemble_from(acc, split_lines(e.content), n) == Ok::<Seq<EntrySpec>, ErrorSpec>(
            acc.push(e),
        ),
{
    let ls = split_lines(e.content);
    let p = comment_run(ls);
    lemma_comment_run_facts(ls);
    lemma_split_lines_len(e.content);
    lemma_join_split(e.content);
    if p == 0 {
        let m = ls.first();
        let cand0: EntrySpec = if e.kind == EntryType::OptionEntry {
            EntrySpec { content: m, date: Date::spec_sentinel(), kind: EntryType::OptionEntry }
        } else {
            dated_entry(m, e.date)->Ok_0
        };
        assert(step(acc, m, n) == Ok::<Seq<EntrySpec>, ErrorSpec>(acc.push(cand0)));
        assert(cand0.content == m && cand0.date == e.date && cand0.kind == e.kind);
        if e.kind == EntryType::Transaction || e.kind == EntryType::Commodity {
            assert forall|i: int|
                0 <= i < ls.drop_first().len() implies (classify(#[trigger] ls.drop_first()[i])
                == LineClass::IndentLine || classify(ls.drop_first()[i]) == LineClass::CommentLine) by {
                assert(ls.drop_first()[i] == ls[i + 1]);
            }
            if ls.drop_first().len() > 0 {
                assert(ls.drop_first().last() == ls.last());
            }
            lemma_mixed_tail(acc, cand0, ls.drop_first(), (n + 1) as nat);
            assert(cand0.content + join_tail(ls.drop_first()) == join_lines(ls));
            assert(EntrySpec {
                content: cand0.content + join_tail(ls.drop_first()),
                date: cand0.date,
                kind: cand0.kind,
            } == e);
        } else {
            assert(ls.len() == 1);
            assert(ls.drop_first() =~= Seq::<Seq<char>>::empty());
            lemma_assemble_from_nil(acc.push(cand0), (n + 1) as nat);
            assert(join_lines(ls) == ls.first() + join_tail(ls.drop_first()));
            assert(join_lines(ls) =~= m);
            assert(cand0 == e);
        }
        assert(assemble_from(acc, ls, n) == Ok::<Seq<EntrySpec>, ErrorSpec>(acc.push(e)));
    } else {
        let head = ls.take(p);
        let m = ls[p];
        let rest = ls.skip(p + 1);
        assert(ls =~= head + (seq![m] + rest));
        lemma_assemble_from_concat(acc, head, seq![m] + rest, n);
        assert forall|i: int| 0 <= i < head.len() implies classify(#[trigger] head[i])
            == LineClass::CommentLine by {
            assert(head[i] == ls[i]);
        }
        lemma_comment_chunk(acc, head, n);
        let cmt = EntrySpec {
            content: join_lines(head),
            date: Date::spec_sentinel(),
            kind: EntryType::Comment,
        };
        let acc2 = acc.push(cmt);
        let cand0: EntrySpec = if e.kind == EntryType::OptionEntry {
            EntrySpec { content: m, date: Date::spec_sentinel(), kind: EntryType::OptionEntry }
        } else {
            dated_entry(m, e.date)->Ok_0
        };
        assert(cand0.content == m && cand0.date == e.date && cand0.kind == e.kind);
        let cand = EntrySpec {
            content: cmt.content + seq!['\n'] + m,
            date: e.date,
            kind: e.kind,
        };
        assert(acc2.last() == cmt);
        assert(acc2.drop_last() =~= acc);
        assert(absorb_comment(acc2, cand0) == (acc, cand));
        assert(step(acc2, m, (n + p) as nat) == Ok::<Seq<EntrySpec>, ErrorSpec>(acc.push(cand)));
        lemma_assemble_from_concat(acc2, seq![m], rest, (n + p) as nat);
        lemma_assemble_from_one(acc2, m, (n + p) as nat);
        // The joined content so far is the first p + 1 lines joined.
        lemma_join_lines_concat(head, seq![m] + rest);
        assert(join_tail(seq![m] + rest) == seq!['\n'] + m + join_tail(rest)) by {
            assert((seq![m] + rest).first() == m);
            assert((seq![m] + rest).drop_first() =~= rest);
        }
        assert(cand.content =~= join_lines(head) + seq!['\n'] + m);
        if e.kind == EntryType::Transaction || e.kind == EntryType::Commodity {
            assert forall|i: int|
                0 <= i < rest.len() implies (classify(#[trigger] rest[i]) == LineClass::IndentLine
                || classify(rest[i]) == LineClass::CommentLine) by {
                assert(rest[i] == ls[i + p + 1]);
            }
            if rest.len() > 0 {
                assert(rest.last() == ls.last());
            }
            lemma_mixed_tail(acc, cand, rest, (n + p + 1) as nat);
            assert(cand.content + join_tail(rest) =~= join_lines(ls));
            assert(EntrySpec {
                content: cand.content + join_tail(rest),
                date: cand.date,
                kind: cand.kind,
            } == e);
        } else {
            assert(p == ls.len() - 1);
            assert(rest =~= Seq::<Seq<char>>::empty());
            lemma_assemble_from_nil(acc.push(cand), (n + p + 1) as nat);
            assert(join_tail(rest) =~= Seq::<char>::empty());
            assert(cand.content =~= join_lines(ls));
            assert(cand == e);
        }
    }
}

/// Every line of a Section-kind entry classifies as a section heading line.
pub open spec fn all_section_lines(e: EntrySpec) -> bool {
    forall|i: int|
        0 <= i < split_lines(e.content).len() ==> classify(#[trigger] split_lines(e.content)[i])
            == LineClass::SectionLine
}

/// An entry a rendered file may contain: a heading whose lines all vanish,
/// or a well-shaped entry that re-assembles to itself.
pub open spec fn reparse_ok(e: EntrySpec) -> bool {
    if e.kind == EntryType::Section {
        all_section_lines(e)
    } else {
        ws_entry(e) && reparse_exact_kind(e.kind)
    }
}

/// The predicate the heading entries fail; what re-assembly keeps.
pub open spec fn non_section() -> spec_fn(EntrySpec) -> bool {
    |e: EntrySpec| e.kind != EntryType::Section
}

/// Re-assembling a rendered entry list gives back exactly its non-heading
/// entries: headings and blank separators vanish, everything else survives
/// unchanged.
#[verifier::rlimit(60)]
pub proof fn lemma_render_reparse(acc: Seq<EntrySpec>, es: Seq<EntrySpec>, spaces: bool, n: nat)
    requires
        forall|i: int| 0 <= i < es.len() ==> reparse_ok(#[trigger] es[i]),
        acc.len() == 0 || acc.last().kind != EntryType::Comment,
    ensures
        assemble_from(acc, render_lines(es, spaces), n) == Ok::<Seq<EntrySpec>, ErrorSpec>(
            acc + es.filter(non_section()),
        ),
    decreases es.len(),
{
    reveal(Seq::filter);
    if es.len() == 0 {
        assert(es.filter(non_section()) =~= Seq::<EntrySpec>::empty());
        assert(acc + es.filter(non_section()) =~= acc);
    } else {
        let e = es.first();
        let chunk = split_lines(e.content);
        let tail = blank(spaces) + render_lines(es.drop_first(), spaces);
        assert(render_lines(es, spaces) =~= chunk + tail);
        lemma_assemble_from_concat(acc, chunk, tail, n);
        assert forall|i: int| 0 <= i < es.drop_first().len() implies reparse_ok(
            #[trigger] es.drop_first()[i],
        ) by {
            assert(es.drop_first()[i] == es[i + 1]);
        }
        let acc2: Seq<EntrySpec> = if e.kind == EntryType::Section {
            lemma_sections_noop(acc, chunk, n);
            acc
        } else {
            lemma_entry_reparse(acc, e, n);
            acc.push(e)
        };
        assert(assemble_from(acc, chunk, n) == Ok::<Seq<EntrySpec>, ErrorSpec>(acc2));
        assert(acc2.len() == 0 || acc2.last().kind != EntryType::Comment);
        let m2 = (n + chunk.len()) as nat;
        lemma_assemble_from_concat(acc2, blank(spaces), render_lines(es.drop_first(), spaces), m2);
        if spaces {
            let bl = blank(spaces);
            assert(bl =~= seq![Seq::<char>::empty()]);
            assert(classify(Seq::<char>::empty()) == LineClass::EmptyLine);
            assert(step(acc2, Seq::<char>::empty(), m2) == Ok::<Seq<EntrySpec>, ErrorSpec>(acc2));
            lemma_assemble_from_one(acc2, Seq::<char>::empty(), m2);
        } else {
            lemma_assemble_from_nil(acc2, m2);
        }
        assert(assemble_from(acc2, blank(spaces), m2) == Ok::<Seq<EntrySpec>, ErrorSpec>(acc2));
        lemma_render_reparse(acc2, es.drop_first(), spaces, (m2 + blank(spaces).len()) as nat);
        // Filtering from the front: the first entry stays or goes, the rest
        // filter as before.
        assert(es =~= seq![e] + es.drop_first());
        Seq::filter_distributes_over_add(seq![e], es.drop_first(), non_section());
        assert(seq![e].drop_last() =~= Seq::<EntrySpec>::empty());
        assert(seq![e].last() == e);
        assert(Seq::<EntrySpec>::empty().filter(non_section()) =~= Seq::<EntrySpec>::empty());
        if e.kind == EntryType::Section {
            assert(seq![e].filter(non_section()) =~= Seq::<EntrySpec>::empty());
            assert(acc + es.filter(non_section()) =~= acc + es.drop_first().filter(non_section()));
        } else {
            assert(seq![e].filter(non_section()) =~= seq![e]);
            assert(acc + es.filter(non_section()) =~= acc.push(e) + es.drop_first().filter(
                non_section(),
            ));
        }
    }
}

} // verus!
