//! The round-trip laws: a file assembled, sorted and rendered re-assembles
//! to entries whose sorted rendering is the same file, so running the whole
//! pipeline on its own output changes nothing; and sorting loses no entry's
//! content except unabsorbed trailing comments, which have no section.

use vstd::prelude::*;

use crate::assemble::assemble;
use crate::classify::{classify, LineClass};
use crate::date::Date;
use crate::entry::{EntrySpec, EntryType};
use crate::laws::{lemma_sort_by_date_permutes, lemma_sort_by_date_sorted, lemma_sort_by_date_stable,
    with_date};
use crate::render::{lemma_split_concat, lemma_split_single, no_newline, no_newlines, render_lines,
    split_lines};
use crate::reparse::{all_section_lines, lemma_render_reparse, non_section, reparse_exact_kind,
    reparse_ok};
use crate::sort::{bucket, heading_border, heading_content, heading_entry_for, heading_middle,
    sort_by_date, sort_output, sorted_by_date, with_kind};
use crate::wellformed::{lemma_assembler_output_ws, no_header, storable_kind, ws_entries, ws_entry};

verus! {

broadcast use vstd::seq_lib::group_to_multiset_ensures;

/// The predicate an entry of kind `k` dated `d` satisfies.
pub open spec fn with_kind_date(k: EntryType, d: Date) -> spec_fn(EntrySpec) -> bool {
    |e: EntrySpec| e.kind == k && e.date == d
}

/// Filtering a kind, then a date, filters both at once.
proof fn lemma_bucket_then_date(s: Seq<EntrySpec>, k: EntryType, d: Date)
    ensures
        bucket(s, k).filter(with_date(d)) == s.filter(with_kind_date(k, d)),
    decreases s.len(),
{
    reveal(Seq::filter);
    if s.len() == 0 {
    } else {
        lemma_bucket_then_date(s.drop_last(), k, d);
        let e = s.last();
        if e.kind == k {
            assert(bucket(s, k) == bucket(s.drop_last(), k).push(e));
            assert(bucket(s.drop_last(), k).push(e).drop_last() =~= bucket(s.drop_last(), k));
        }
    }
}

/// Filtering a date, then a kind, filters both at once.
proof fn lemma_date_then_kind(s: Seq<EntrySpec>, k: EntryType, d: Date)
    ensures
        s.filter(with_date(d)).filter(with_kind(k)) == s.filter(with_kind_date(k, d)),
    decreases s.len(),
{
    reveal(Seq::filter);
    if s.len() == 0 {
    } else {
        lemma_date_then_kind(s.drop_last(), k, d);
        let e = s.last();
        if e.date == d {
            assert(s.filter(with_date(d)) == s.drop_last().filter(with_date(d)).push(e));
            assert(s.drop_last().filter(with_date(d)).push(e).drop_last() =~= s.drop_last().filter(
                with_date(d),
            ));
        }
    }
}

/// On a list whose entries all have kind `k`, asking for the kind again
/// filters nothing away.
proof fn lemma_kind_redundant(s: Seq<EntrySpec>, k: EntryType, d: Date)
    requires
        forall|i: int| 0 <= i < s.len() ==> (#[trigger] s[i]).kind == k,
    ensures
        s.filter(with_kind_date(k, d)) == s.filter(with_date(d)),
    decreases s.len(),
{
    reveal(Seq::filter);
    if s.len() > 0 {
        assert forall|i: int| 0 <= i < s.drop_last().len() implies (#[trigger] s.drop_last()[i]).kind
            == k by {
            assert(s.drop_last()[i] == s[i]);
        }
        lemma_kind_redundant(s.drop_last(), k, d);
    }
}

/// A filter keeps only elements of the list.
proof fn lemma_filter_contained(s: Seq<EntrySpec>, pred: spec_fn(EntrySpec) -> bool, j: int)
    requires
        0 <= j < s.filter(pred).len(),
    ensures
        s.contains(s.filter(pred)[j]),
    decreases s.len(),
{
    reveal(Seq::filter);
    if s.len() > 0 {
        let f = s.filter(pred);
        let fd = s.drop_last().filter(pred);
        if pred(s.last()) {
            if j < f.len() - 1 {
                assert(f[j] == fd[j]);
                lemma_filter_contained(s.drop_last(), pred, j);
                let w = choose|w: int|
                    0 <= w < s.drop_last().len() && s.drop_last()[w] == fd[j];
                assert(s[w] == fd[j]);
            } else {
                assert(f[j] == s.last());
            }
        } else {
            assert(f[j] == fd[j]);
            lemma_filter_contained(s.drop_last(), pred, j);
            let w = choose|w: int| 0 <= w < s.drop_last().len() && s.drop_last()[w] == fd[j];
            assert(s[w] == fd[j]);
        }
    }
}

/// A filter of an all-matching list is the list.
proof fn lemma_all_pos_filter_id(s: Seq<EntrySpec>, pred: spec_fn(EntrySpec) -> bool)
    requires
        forall|i: int| 0 <= i < s.len() ==> pred(#[trigger] s[i]),
    ensures
        s.filter(pred) == s,
    decreases s.len(),
{
    reveal(Seq::filter);
    if s.len() > 0 {
        assert forall|i: int| 0 <= i < s.drop_last().len() implies pred(#[trigger] s.drop_last()[i]) by {
            assert(s.drop_last()[i] == s[i]);
        }
        lemma_all_pos_filter_id(s.drop_last(), pred);
        assert(s.drop_last().push(s.last()) =~= s);
    }
}

/// Every date in a filtered list is bounded by a bound on the whole list.
proof fn lemma_filter_date_bound(s: Seq<EntrySpec>, pred: spec_fn(EntrySpec) -> bool, b: Date)
    requires
        forall|i: int| 0 <= i < s.len() ==> (#[trigger] s[i]).date.spec_le(b),
    ensures
        forall|i: int|
            0 <= i < s.filter(pred).len() ==> (#[trigger] s.filter(pred)[i]).date.spec_le(b),
    decreases s.len(),
{
    reveal(Seq::filter);
    if s.len() > 0 {
        assert forall|i: int| 0 <= i < s.drop_last().len() implies (#[trigger] s.drop_last()[i]).date.spec_le(
            b,
        ) by {
            assert(s.drop_last()[i] == s[i]);
        }
        lemma_filter_date_bound(s.drop_last(), pred, b);
        let f = s.filter(pred);
        let fd = s.drop_last().filter(pred);
        assert forall|i: int| 0 <= i < f.len() implies (#[trigger] f[i]).date.spec_le(b) by {
            if pred(s.last()) {
                if i < f.len() - 1 {
                    assert(f[i] == fd[i]);
                } else {
                    assert(f[i] == s.last());
                }
            } else {
                assert(f[i] == fd[i]);
            }
        }
    }
}

/// A filter of a date-sorted list is date-sorted.
proof fn lemma_filter_sorted(s: Seq<EntrySpec>, pred: spec_fn(EntrySpec) -> bool)
    requires
        sorted_by_date(s),
    ensures
        sorted_by_date(s.filter(pred)),
    decreases s.len(),
{
    reveal(Seq::filter);
    if s.len() > 0 {
        let dl = s.drop_last();
        assert(forall|i: int, j: int|
            #![trigger dl[i], dl[j]]
            0 <= i <= j < dl.len() ==> dl[i].date.spec_le(dl[j].date));
        lemma_filter_sorted(dl, pred);
        assert(forall|i: int| 0 <= i < dl.len() ==> (#[trigger] dl[i]).date.spec_le(s.last().date));
        lemma_filter_date_bound(dl, pred, s.last().date);
        let f = s.filter(pred);
        let fd = dl.filter(pred);
        if pred(s.last()) {
            assert(f == fd.push(s.last()));
            assert forall|i: int, j: int|
                #![trigger f[i], f[j]]
                0 <= i <= j < f.len() implies f[i].date.spec_le(f[j].date) by {
                if j < f.len() - 1 {
                    assert(f[i] == fd[i] && f[j] == fd[j]);
                } else if i < f.len() - 1 {
                    assert(f[i] == fd[i]);
                }
            }
        }
    }
}

/// Two date-sorted lists that agree on the entries of every date are equal.
proof fn lemma_sorted_unique(a: Seq<EntrySpec>, b: Seq<EntrySpec>)
    requires
        sorted_by_date(a),
        sorted_by_date(b),
        forall|d: Date| #![trigger with_date(d)] a.filter(with_date(d)) == b.filter(with_date(d)),
    ensures
        a == b,
    decreases a.len() + b.len(),
{
    reveal(Seq::filter);
    if a.len() == 0 {
        if b.len() > 0 {
            let db = b.last().date;
            assert(b.filter(with_date(db)) == b.drop_last().filter(with_date(db)).push(b.last()));
            assert(a.filter(with_date(db)).len() == 0);
            assert(false);
        }
        assert(a =~= b);
    } else if b.len() == 0 {
        let da = a.last().date;
        assert(a.filter(with_date(da)) == a.drop_last().filter(with_date(da)).push(a.last()));
        assert(b.filter(with_date(da)).len() == 0);
        assert(false);
    } else {
        let da = a.last().date;
        let db = b.last().date;
        assert(a.filter(with_date(da)) == a.drop_last().filter(with_date(da)).push(a.last()));
        assert(b.filter(with_date(db)) == b.drop_last().filter(with_date(db)).push(b.last()));
        if !db.spec_le(da) {
            // Every date in `a` is at most `da`, strictly below `db`.
            assert forall|i: int| 0 <= i < a.len() implies !(with_date(db)(#[trigger] a[i])) by {
                assert(a[i].date.spec_le(a.last().date));
            }
            a.lemma_all_neg_filter_empty(with_date(db));
            assert(b.filter(with_date(db)).len() >= 1);
            assert(false);
        }
        if !da.spec_le(db) {
            assert forall|i: int| 0 <= i < b.len() implies !(with_date(da)(#[trigger] b[i])) by {
                assert(b[i].date.spec_le(b.last().date));
            }
            b.lemma_all_neg_filter_empty(with_date(da));
            assert(a.filter(with_date(da)).len() >= 1);
            assert(false);
        }
        assert(da == db);
        // The last elements agree: each is the last of the same filtered list.
        assert(a.filter(with_date(da)).last() == a.last());
        assert(b.filter(with_date(da)).last() == b.last());
        assert(a.last() == b.last());
        // Dropping the lasts keeps every per-date filter equal.
        assert forall|d: Date| #![trigger with_date(d)] a.drop_last().filter(with_date(d))
            == b.drop_last().filter(with_date(d)) by {
            if d == da {
                assert(a.filter(with_date(d)) == a.drop_last().filter(with_date(d)).push(a.last()));
                assert(b.filter(with_date(d)) == b.drop_last().filter(with_date(d)).push(b.last()));
                assert(a.drop_last().filter(with_date(d)).push(a.last()).drop_last() =~= a.drop_last().filter(
                    with_date(d),
                ));
                assert(b.drop_last().filter(with_date(d)).push(b.last()).drop_last() =~= b.drop_last().filter(
                    with_date(d),
                ));
            } else {
                assert(!(with_date(d)(a.last())));
                assert(!(with_date(d)(b.last())));
            }
        }
        assert(sorted_by_date(a.drop_last())) by {
            assert(forall|i: int, j: int|
                #![trigger a.drop_last()[i], a.drop_last()[j]]
                0 <= i <= j < a.drop_last().len() ==> a.drop_last()[i].date.spec_le(
                    a.drop_last()[j].date,
                ));
        }
        assert(sorted_by_date(b.drop_last())) by {
            assert(forall|i: int, j: int|
                #![trigger b.drop_last()[i], b.drop_last()[j]]
                0 <= i <= j < b.drop_last().len() ==> b.drop_last()[i].date.spec_le(
                    b.drop_last()[j].date,
                ));
        }
        lemma_sorted_unique(a.drop_last(), b.drop_last());
        assert(a =~= a.drop_last().push(a.last()));
        assert(b =~= b.drop_last().push(b.last()));
    }
}

/// The decorated heading lines all classify as Section lines, so a heading
/// entry's rendering vanishes on re-assembly.
proof fn lemma_heading_reparse_ok(name: Seq<char>)
    requires
        name.len() >= 1,
        no_newline(name),
    ensures
        reparse_ok(heading_entry_for(name)),
{
    let border = heading_border(name);
    let middle = heading_middle(name);
    let content = heading_content(name);
    assert(no_newline(border)) by {
        assert forall|i: int| 0 <= i < border.len() implies border[i] != '\n' by {
            if i == 0 {
                assert(border[i] == ';');
            } else {
                assert(border[i] == crate::classify::deco_char());
            }
        }
    }
    assert(no_newline(middle)) by {
        assert forall|i: int| 0 <= i < middle.len() implies middle[i] != '\n' by {
            if i == 0 {
                assert(middle[i] == ';');
            } else if i <= 4 {
                assert(middle[i] == crate::classify::deco_char());
            } else if i <= 4 + name.len() {
                assert(middle[i] == name[i - 5]);
            } else {
                assert(middle[i] == crate::classify::deco_char());
            }
        }
    }
    assert(content =~= border + seq!['\n'] + (middle + seq!['\n'] + border));
    lemma_split_concat(border, middle + seq!['\n'] + border);
    lemma_split_concat(middle, border);
    lemma_split_single(border);
    lemma_split_single(middle);
    let ls = split_lines(content);
    assert(ls =~= seq![border, middle, border]);
    assert(classify(border) == LineClass::SectionLine) by {
        assert(border[0] == ';');
        assert(border[1] == crate::classify::deco_char());
        assert(border[2] == crate::classify::deco_char());
        assert(border[3] == crate::classify::deco_char());
        assert(border[4] == crate::classify::deco_char());
        assert(!crate::classify::is_date_shape(border));
        assert(!crate::classify::is_option_prefix(border));
        assert(crate::classify::is_section_prefix(border));
    }
    assert(classify(middle) == LineClass::SectionLine) by {
        assert(middle[0] == ';');
        assert(middle[1] == crate::classify::deco_char());
        assert(middle[2] == crate::classify::deco_char());
        assert(middle[3] == crate::classify::deco_char());
        assert(middle[4] == crate::classify::deco_char());
        assert(!crate::classify::is_date_shape(middle));
        assert(!crate::classify::is_option_prefix(middle));
        assert(crate::classify::is_section_prefix(middle));
    }
    assert(all_section_lines(heading_entry_for(name))) by {
        assert forall|i: int| 0 <= i < ls.len() implies classify(#[trigger] ls[i])
            == LineClass::SectionLine by {
            if i == 0 || i == 2 {
                assert(ls[i] == border);
            } else {
                assert(ls[i] == middle);
            }
        }
    }
}

/// Every entry of a well-shaped, header-free list is fit for re-assembly
/// after bucketing: the filtered entries are well-shaped and their kinds
/// re-assemble exactly.
proof fn lemma_bucket_reparse_ok(t: Seq<EntrySpec>, k: EntryType)
    requires
        ws_entries(t),
        reparse_exact_kind(k),
    ensures
        forall|i: int| 0 <= i < bucket(t, k).len() ==> reparse_ok(#[trigger] bucket(t, k)[i]),
{
    assert forall|i: int| 0 <= i < bucket(t, k).len() implies reparse_ok(#[trigger] bucket(t, k)[i]) by {
        Seq::lemma_filter_pred(t, with_kind(k), i);
        lemma_filter_contained(t, with_kind(k), i);
        let e = bucket(t, k)[i];
        let w = choose|w: int| 0 <= w < t.len() && t[w] == e;
        assert(ws_entry(t[w]));
    }
}

/// Sorting keeps the list well-shaped and header-free: it only permutes.
proof fn lemma_sort_ws(es: Seq<EntrySpec>)
    requires
        ws_entries(es),
        no_header(es),
    ensures
        ws_entries(sort_by_date(es)),
        no_header(sort_by_date(es)),
{
    lemma_sort_by_date_permutes(es);
    let t = sort_by_date(es);
    assert forall|i: int| 0 <= i < t.len() implies ws_entry(#[trigger] t[i]) && storable_kind(
        t[i].kind,
    ) && t[i].kind != EntryType::Header by {
        assert(t.contains(t[i]));
        assert(t.to_multiset().contains(t[i]));
        assert(es.to_multiset().contains(t[i]));
        assert(es.contains(t[i]));
        let w = choose|w: int| 0 <= w < es.len() && es[w] == t[i];
        assert(ws_entry(es[w]));
    }
}

/// What re-assembling the rendered output yields: the date-sorted entries,
/// kind bucket by kind bucket, headings gone.
spec fn rebucketed(es: Seq<EntrySpec>) -> Seq<EntrySpec> {
    let t = sort_by_date(es);
    bucket(t, EntryType::Header) + bucket(t, EntryType::OptionEntry) + bucket(t, EntryType::Account)
        + bucket(t, EntryType::Commodity) + bucket(t, EntryType::OtherEntry) + bucket(
        t,
        EntryType::Price,
    ) + bucket(t, EntryType::Transaction)
}

/// The rendered output's non-heading entries are exactly the buckets.
proof fn lemma_sort_output_filter(es: Seq<EntrySpec>)
    requires
        ws_entries(sort_by_date(es)),
    ensures
        sort_output(es).filter(non_section()) == rebucketed(es),
{
    broadcast use Seq::filter_distributes_over_add;

    let t = sort_by_date(es);
    assert forall|k: EntryType| reparse_exact_kind(k) || k == EntryType::Header implies #[trigger] bucket(
        t,
        k,
    ).filter(non_section()) == bucket(t, k) by {
        assert forall|i: int| 0 <= i < bucket(t, k).len() implies non_section()(
            #[trigger] bucket(t, k)[i],
        ) by {
            Seq::lemma_filter_pred(t, with_kind(k), i);
        }
        lemma_all_pos_filter_id(bucket(t, k), non_section());
    }
    assert forall|name: Seq<char>| true implies #[trigger] seq![heading_entry_for(name)].filter(
        non_section(),
    ) == Seq::<EntrySpec>::empty() by {
        reveal(Seq::filter);
        assert(seq![heading_entry_for(name)].drop_last() =~= Seq::<EntrySpec>::empty());
        assert(seq![heading_entry_for(name)].last() == heading_entry_for(name));
        assert(Seq::<EntrySpec>::empty().filter(non_section()) =~= Seq::<EntrySpec>::empty());
        assert(heading_entry_for(name).kind == EntryType::Section);
        assert(seq![heading_entry_for(name)].filter(non_section()) =~= Seq::<EntrySpec>::empty());
    }
    assert(sort_output(es).filter(non_section()) =~= rebucketed(es));
}

/// For every section kind, the entries of that kind and one date are the
/// same in the re-assembled output as in the original list.
proof fn lemma_rebucketed_kind_date(es: Seq<EntrySpec>, k: EntryType, d: Date)
    requires
        reparse_exact_kind(k) || k == EntryType::Header,
    ensures
        rebucketed(es).filter(with_kind_date(k, d)) == es.filter(with_kind_date(k, d)),
{
    broadcast use Seq::filter_distributes_over_add;

    let t = sort_by_date(es);
    let es2 = rebucketed(es);
    // Buckets of other kinds contribute nothing.
    assert forall|j: EntryType| j != k implies #[trigger] bucket(t, j).filter(with_kind_date(k, d))
        == Seq::<EntrySpec>::empty() by {
        assert forall|i: int| 0 <= i < bucket(t, j).len() implies !(with_kind_date(k, d)(
            #[trigger] bucket(t, j)[i],
        )) by {
            Seq::lemma_filter_pred(t, with_kind(j), i);
        }
        bucket(t, j).lemma_all_neg_filter_empty(with_kind_date(k, d));
    }
    // The bucket of `k` contributes exactly the dated entries of kind `k`.
    assert forall|i: int| 0 <= i < bucket(t, k).len() implies (#[trigger] bucket(t, k)[i]).kind
        == k by {
        Seq::lemma_filter_pred(t, with_kind(k), i);
    }
    lemma_kind_redundant(bucket(t, k), k, d);
    lemma_bucket_then_date(t, k, d);
    // Stability carries the per-date entries back to the unsorted list.
    lemma_sort_by_date_stable(es, d);
    lemma_date_then_kind(t, k, d);
    lemma_date_then_kind(es, k, d);
    assert(bucket(t, k).filter(with_kind_date(k, d)) == es.filter(with_kind_date(k, d)));
    assert(es2.filter(with_kind_date(k, d)) =~= bucket(t, k).filter(with_kind_date(k, d)));
}

/// Re-sorting the re-assembled output rebuilds every bucket unchanged.
proof fn lemma_rebucket_fixed(es: Seq<EntrySpec>, k: EntryType)
    requires
        reparse_exact_kind(k) || k == EntryType::Header,
    ensures
        bucket(sort_by_date(rebucketed(es)), k) == bucket(sort_by_date(es), k),
{
    let t = sort_by_date(es);
    let es2 = rebucketed(es);
    let t2 = sort_by_date(es2);
    lemma_sort_by_date_sorted(es);
    lemma_sort_by_date_sorted(es2);
    lemma_filter_sorted(t, with_kind(k));
    lemma_filter_sorted(t2, with_kind(k));
    assert forall|d: Date| #![trigger with_date(d)] bucket(t2, k).filter(with_date(d)) == bucket(
        t,
        k,
    ).filter(with_date(d)) by {
        lemma_bucket_then_date(t2, k, d);
        lemma_bucket_then_date(t, k, d);
        lemma_sort_by_date_stable(es2, d);
        lemma_sort_by_date_stable(es, d);
        lemma_date_then_kind(t2, k, d);
        lemma_date_then_kind(es2, k, d);
        lemma_date_then_kind(t, k, d);
        lemma_date_then_kind(es, k, d);
        lemma_rebucketed_kind_date(es, k, d);
    }
    lemma_sorted_unique(bucket(t2, k), bucket(t, k));
}

/// Idempotence of the pipeline: assembling a rendered output and sorting it
/// again reproduces the same canonical output, byte for byte. A file already
/// in canonical order therefore passes through unchanged: identical section
/// headers, every entry's content preserved.
pub proof fn lemma_pipeline_idempotent(lines: Seq<Seq<char>>, spaces: bool)
    requires
        no_newlines(lines),
        assemble(lines, 0) is Ok,
    ensures
        ({
            let es = assemble(lines, 0)->Ok_0;
            let out = render_lines(sort_output(es), spaces);
            &&& assemble(out, 0) is Ok
            &&& sort_output(assemble(out, 0)->Ok_0) == sort_output(es)
            &&& render_lines(sort_output(assemble(out, 0)->Ok_0), spaces) == out
        }),
{
    let es = assemble(lines, 0)->Ok_0;
    let out = render_lines(sort_output(es), spaces);
    lemma_assembler_output_ws(lines, 0);
    lemma_sort_ws(es);
    let t = sort_by_date(es);
    // Every rendered entry re-assembles cleanly: headings vanish, buckets
    // reproduce their entries.
    assert forall|i: int| 0 <= i < sort_output(es).len() implies reparse_ok(
        #[trigger] sort_output(es)[i],
    ) by {
        lemma_sort_output_reparse_ok(es, i);
    }
    let empty = Seq::<EntrySpec>::empty();
    lemma_render_reparse(empty, sort_output(es), spaces, 1);
    let es2 = sort_output(es).filter(non_section());
    assert(assemble(out, 0) == Ok::<Seq<EntrySpec>, crate::entry::ErrorSpec>(es2)) by {
        assert(crate::assemble::header_entries(out, 0) =~= empty) by {
            assert(out.take(0) =~= Seq::<Seq<char>>::empty());
        }
        assert(out.skip(0) =~= out);
        assert(empty + es2 =~= es2);
    }
    lemma_sort_output_filter(es);
    assert(es2 == rebucketed(es));
    // Each of the seven buckets is rebuilt unchanged, so the whole canonical
    // output is.
    lemma_rebucket_fixed(es, EntryType::Header);
    lemma_rebucket_fixed(es, EntryType::OptionEntry);
    lemma_rebucket_fixed(es, EntryType::Account);
    lemma_rebucket_fixed(es, EntryType::Commodity);
    lemma_rebucket_fixed(es, EntryType::OtherEntry);
    lemma_rebucket_fixed(es, EntryType::Price);
    lemma_rebucket_fixed(es, EntryType::Transaction);
    assert(sort_output(es2) == sort_output(es));
}

/// Round trip: a file whose content is already correctly sectioned and
/// sorted — the rendering of some canonical output — reproduces itself when
/// assembled, sorted and rendered again: byte-identical section headers,
/// every entry's content unchanged.
pub proof fn lemma_canonical_file_round_trips(lines0: Seq<Seq<char>>, spaces: bool)
    requires
        no_newlines(lines0),
        assemble(lines0, 0) is Ok,
    ensures
        ({
            let canonical = render_lines(sort_output(assemble(lines0, 0)->Ok_0), spaces);
            &&& assemble(canonical, 0) is Ok
            &&& render_lines(sort_output(assemble(canonical, 0)->Ok_0), spaces) == canonical
        }),
{
    lemma_pipeline_idempotent(lines0, spaces);
}

/// Every entry of the canonical output is fit for re-assembly.
proof fn lemma_sort_output_reparse_ok(es: Seq<EntrySpec>, i: int)
    requires
        ws_entries(sort_by_date(es)),
        no_header(sort_by_date(es)),
        0 <= i < sort_output(es).len(),
    ensures
        reparse_ok(sort_output(es)[i]),
{
    let t = sort_by_date(es);
    lemma_heading_names();
    lemma_bucket_reparse_ok(t, EntryType::OptionEntry);
    lemma_bucket_reparse_ok(t, EntryType::Account);
    lemma_bucket_reparse_ok(t, EntryType::Commodity);
    lemma_bucket_reparse_ok(t, EntryType::OtherEntry);
    lemma_bucket_reparse_ok(t, EntryType::Price);
    lemma_bucket_reparse_ok(t, EntryType::Transaction);
    assert forall|j: int| 0 <= j < bucket(t, EntryType::Header).len() implies reparse_ok(
        #[trigger] bucket(t, EntryType::Header)[j],
    ) by {
        Seq::lemma_filter_pred(t, with_kind(EntryType::Header), j);
        lemma_filter_contained(t, with_kind(EntryType::Header), j);
        let e = bucket(t, EntryType::Header)[j];
        let w = choose|w: int| 0 <= w < t.len() && t[w] == e;
        assert(t[w].kind != EntryType::Header);
        assert(false);
    }
}

/// The seven heading entries all re-assemble to nothing.
proof fn lemma_heading_names()
    ensures
        reparse_ok(heading_entry_for("Options"@)),
        reparse_ok(heading_entry_for("Accounts"@)),
        reparse_ok(heading_entry_for("Commodities"@)),
        reparse_ok(heading_entry_for("Other Entries"@)),
        reparse_ok(heading_entry_for("Prices"@)),
        reparse_ok(heading_entry_for("Transactions"@)),
{
    reveal_strlit("Options");
    reveal_strlit("Accounts");
    reveal_strlit("Commodities");
    reveal_strlit("Other Entries");
    reveal_strlit("Prices");
    reveal_strlit("Transactions");
    lemma_heading_reparse_ok("Options"@);
    lemma_heading_reparse_ok("Accounts"@);
    lemma_heading_reparse_ok("Commodities"@);
    lemma_heading_reparse_ok("Other Entries"@);
    lemma_heading_reparse_ok("Prices"@);
    lemma_heading_reparse_ok("Transactions"@);
}


/// Within every section of the canonical output the entries come in
/// ascending date order; together with stability, a section lists its
/// entries by date, ties in original file order.
pub proof fn lemma_buckets_date_sorted(es: Seq<EntrySpec>, k: EntryType)
    ensures
        sorted_by_date(bucket(sort_by_date(es), k)),
{
    lemma_sort_by_date_sorted(es);
    lemma_filter_sorted(sort_by_date(es), with_kind(k));
}

/// Sorting loses no entry's text: every non-heading entry of the canonical
/// output is an entry of the input, and every input entry whose kind has a
/// section appears in the output. Unabsorbed Comment entries have no
/// section and are the one thing dropped.
pub proof fn lemma_sort_output_preserves_entries(es: Seq<EntrySpec>)
    ensures
        forall|i: int|
            0 <= i < sort_output(es).len() ==> ((#[trigger] sort_output(es)[i]).kind
                == EntryType::Section || es.contains(sort_output(es)[i])),
        forall|e: EntrySpec| #[trigger]
            es.contains(e) && (reparse_exact_kind(e.kind) || e.kind == EntryType::Header)
                ==> sort_output(es).contains(e),
{
    broadcast use vstd::seq_lib::group_to_multiset_ensures;

    let t = sort_by_date(es);
    lemma_sort_by_date_permutes(es);
    assert forall|i: int|
        0 <= i < sort_output(es).len() implies ((#[trigger] sort_output(es)[i]).kind
        == EntryType::Section || es.contains(sort_output(es)[i])) by {
        let e = sort_output(es)[i];
        if e.kind != EntryType::Section {
            lemma_sort_output_member(es, i);
            assert(t.contains(e));
            assert(t.to_multiset().contains(e));
            assert(es.to_multiset().contains(e));
        }
    }
    assert forall|e: EntrySpec| #[trigger]
        es.contains(e) && (reparse_exact_kind(e.kind) || e.kind == EntryType::Header) implies sort_output(
        es,
    ).contains(e) by {
        assert(es.to_multiset().contains(e));
        assert(t.to_multiset().contains(e));
        assert(t.contains(e));
        let w = choose|w: int| 0 <= w < t.len() && t[w] == e;
        Seq::lemma_filter_contains(t, with_kind(e.kind), w);
        assert(bucket(t, e.kind).contains(e));
        lemma_sort_output_segment(es, e);
    }
}

/// A non-heading member of the canonical output lies in one of the buckets.
proof fn lemma_sort_output_member(es: Seq<EntrySpec>, i: int)
    requires
        0 <= i < sort_output(es).len(),
        sort_output(es)[i].kind != EntryType::Section,
    ensures
        sort_by_date(es).contains(sort_output(es)[i]),
{
    broadcast use vstd::seq_lib::lemma_seq_concat_contains_all_elements;

    let t = sort_by_date(es);
    let e = sort_output(es)[i];
    assert(sort_output(es).contains(e));
    // Headings are Section entries, so `e` can only sit in a bucket.
    assert forall|name: Seq<char>| #[trigger] seq![heading_entry_for(name)].contains(e) implies false by {
        let w = choose|w: int| 0 <= w < 1 && seq![heading_entry_for(name)][w] == e;
        assert(e == heading_entry_for(name));
    }
    assert(bucket(t, EntryType::Header).contains(e) || bucket(t, EntryType::OptionEntry).contains(e)
        || bucket(t, EntryType::Account).contains(e) || bucket(t, EntryType::Commodity).contains(e)
        || bucket(t, EntryType::OtherEntry).contains(e) || bucket(t, EntryType::Price).contains(e)
        || bucket(t, EntryType::Transaction).contains(e));
    assert forall|k: EntryType| #[trigger] bucket(t, k).contains(e) implies t.contains(e) by {
        let j = choose|j: int| 0 <= j < bucket(t, k).len() && bucket(t, k)[j] == e;
        lemma_filter_contained(t, with_kind(k), j);
    }
}

/// An entry of a bucket is a member of the canonical output.
proof fn lemma_sort_output_segment(es: Seq<EntrySpec>, e: EntrySpec)
    requires
        reparse_exact_kind(e.kind) || e.kind == EntryType::Header,
        bucket(sort_by_date(es), e.kind).contains(e),
    ensures
        sort_output(es).contains(e),
{
    broadcast use vstd::seq_lib::lemma_seq_concat_contains_all_elements;

    let t = sort_by_date(es);
    assert(bucket(t, EntryType::Header).contains(e) || bucket(t, EntryType::OptionEntry).contains(e)
        || bucket(t, EntryType::Account).contains(e) || bucket(t, EntryType::Commodity).contains(e)
        || bucket(t, EntryType::OtherEntry).contains(e) || bucket(t, EntryType::Price).contains(e)
        || bucket(t, EntryType::Transaction).contains(e));
}

} // verus!
