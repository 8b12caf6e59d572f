//! A model of the writer: how an entry list renders into raw text lines.
//! The writer itself is outside the library; these spec functions state what
//! a reader of its output sees, line by line, so that round-trip laws can be
//! proved about the whole pipeline.

use vstd::prelude::*;

use crate::entry::EntrySpec;
use crate::laws::{join_lines, join_tail};

verus! {

/// A raw line never contains a newline: the reader splits on them.
pub open spec fn no_newline(s: Seq<char>) -> bool {
    forall|i: int| 0 <= i < s.len() ==> s[i] != '\n'
}

/// Every line of a sequence of raw lines is newline-free.
pub open spec fn no_newlines(lines: Seq<Seq<char>>) -> bool {
    forall|i: int| 0 <= i < lines.len() ==> no_newline(#[trigger] lines[i])
}

/// The lines of a rendered text, split at each newline. Text without any
/// newline is one line; each newline ends a line.
pub open spec fn split_lines(s: Seq<char>) -> Seq<Seq<char>>
    decreases s.len(),
{
    if s.len() == 0 {
        seq![Seq::<char>::empty()]
    } else if s.first() == '\n' {
        seq![Seq::<char>::empty()] + split_lines(s.drop_first())
    } else {
        let rest = split_lines(s.drop_first());
        seq![seq![s.first()] + rest.first()] + rest.drop_first()
    }
}

/// Splitting always yields at least one line.
pub proof fn lemma_split_lines_len(s: Seq<char>)
    ensures
        split_lines(s).len() >= 1,
    decreases s.len(),
{
    if s.len() > 0 {
        lemma_split_lines_len(s.drop_first());
    }
}

/// A newline-free text is exactly one line.
pub proof fn lemma_split_single(s: Seq<char>)
    requires
        no_newline(s),
    ensures
        split_lines(s) == seq![s],
    decreases s.len(),
{
    if s.len() == 0 {
        assert(split_lines(s) =~~= seq![s]);
    } else {
        assert(s[0] != '\n');
        assert(no_newline(s.drop_first())) by {
            assert forall|i: int| 0 <= i < s.drop_first().len() implies s.drop_first()[i] != '\n' by {
                assert(s.drop_first()[i] == s[i + 1]);
            }
        }
        lemma_split_single(s.drop_first());
        assert(seq![s.first()] + s.drop_first() =~= s);
        assert(split_lines(s) =~= seq![s]);
    }
}

/// Splitting distributes over a newline: the text before it and the text
/// after it split independently.
pub proof fn lemma_split_concat(a: Seq<char>, b: Seq<char>)
    ensures
        split_lines(a + seq!['\n'] + b) == split_lines(a) + split_lines(b),
    decreases a.len(),
{
    let s = a + seq!['\n'] + b;
    if a.len() == 0 {
        assert(s.first() == '\n');
        assert(s.drop_first() =~= b);
        assert(split_lines(a) =~= seq![Seq::<char>::empty()]);
        assert(split_lines(s) =~= split_lines(a) + split_lines(b));
    } else {
        assert(s.first() == a.first());
        assert(s.drop_first() =~= a.drop_first() + seq!['\n'] + b);
        lemma_split_concat(a.drop_first(), b);
        lemma_split_lines_len(a.drop_first());
        let ra = split_lines(a.drop_first());
        let rest = split_lines(s.drop_first());
        assert(rest == ra + split_lines(b));
        assert(rest.first() == ra.first());
        assert(rest.drop_first() =~= ra.drop_first() + split_lines(b));
        if a.first() == '\n' {
            assert(split_lines(s) =~= split_lines(a) + split_lines(b));
        } else {
            assert(split_lines(a) == seq![seq![a.first()] + ra.first()] + ra.drop_first());
            assert(split_lines(s) =~= split_lines(a) + split_lines(b));
        }
    }
}

/// Joining the lines of a text gives the text back.
pub proof fn lemma_join_split(s: Seq<char>)
    ensures
        join_lines(split_lines(s)) == s,
    decreases s.len(),
{
    if s.len() == 0 {
        assert(join_lines(split_lines(s)) =~= s);
    } else if s.first() == '\n' {
        lemma_join_split(s.drop_first());
        lemma_split_lines_len(s.drop_first());
        let ls = split_lines(s);
        assert(ls.first() =~= Seq::<char>::empty());
        assert(ls.drop_first() =~= split_lines(s.drop_first()));
        assert(join_lines(ls) == ls.first() + join_tail(ls.drop_first()));
        assert(join_tail(split_lines(s.drop_first())) == seq!['\n'] + join_lines(
            split_lines(s.drop_first()),
        ));
        assert(join_lines(ls) =~= s);
    } else {
        lemma_join_split(s.drop_first());
        lemma_split_lines_len(s.drop_first());
        let ra = split_lines(s.drop_first());
        let ls = split_lines(s);
        assert(ls.first() == seq![s.first()] + ra.first());
        assert(ls.drop_first() =~= ra.drop_first());
        if ra.len() == 1 {
            assert(join_lines(ls) == ls.first() + join_tail(ls.drop_first()));
            assert(ls.drop_first() =~= Seq::<Seq<char>>::empty());
            assert(join_lines(ra) == ra.first() + join_tail(ra.drop_first()));
            assert(ra.drop_first() =~= Seq::<Seq<char>>::empty());
            assert(join_lines(ls) =~= s);
        } else {
            assert(join_lines(ra) == ra.first() + join_tail(ra.drop_first()));
            assert(join_lines(ls) == (seq![s.first()] + ra.first()) + join_tail(ra.drop_first()));
            assert(join_lines(ls) =~= seq![s.first()] + join_lines(ra));
            assert(join_lines(ls) =~= s);
        }
    }
}

/// The joined tail of a concatenation splits at the boundary.
pub proof fn lemma_join_tail_concat(a: Seq<Seq<char>>, b: Seq<Seq<char>>)
    ensures
        join_tail(a + b) == join_tail(a) + join_tail(b),
    decreases a.len(),
{
    if a.len() == 0 {
        assert(a + b =~= b);
        assert(join_tail(a) =~= Seq::<char>::empty());
        assert(join_tail(a) + join_tail(b) =~= join_tail(b));
    } else {
        assert((a + b).first() == a.first());
        assert((a + b).drop_first() =~= a.drop_first() + b);
        lemma_join_tail_concat(a.drop_first(), b);
        assert(join_tail(a + b) =~= join_tail(a) + join_tail(b));
    }
}

/// What a blank separator contributes: one empty line, or nothing.
pub open spec fn blank(spaces: bool) -> Seq<Seq<char>> {
    if spaces {
        seq![Seq::<char>::empty()]
    } else {
        Seq::<Seq<char>>::empty()
    }
}

/// The raw lines a reader of the written file sees: each entry's content
/// split into its lines, optionally followed by one blank line.
pub open spec fn render_lines(es: Seq<EntrySpec>, spaces: bool) -> Seq<Seq<char>>
    decreases es.len(),
{
    if es.len() == 0 {
        Seq::<Seq<char>>::empty()
    } else {
        split_lines(es.first().content) + blank(spaces) + render_lines(es.drop_first(), spaces)
    }
}

} // verus!
