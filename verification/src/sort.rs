//! The section sorter: stable-sorts the assembled entries by date, then
//! re-emits them bucketed into a fixed section order, inserting decorative
//! section headings.

use vstd::prelude::*;

use crate::classify::{deco_char, deco_count};
use crate::date::Date;
use crate::entry::{Entry, EntrySpec, EntryType, SortError};
use crate::text::str_eq;

verus! {

/// The predicate an entry of kind `k` satisfies; named so that the same
/// closure value can be spoken of everywhere.
pub open spec fn with_kind(k: EntryType) -> spec_fn(EntrySpec) -> bool {
    |e: EntrySpec| e.kind == k
}

/// The entries of one kind, in their current relative order.
pub open spec fn bucket(s: Seq<EntrySpec>, k: EntryType) -> Seq<EntrySpec> {
    s.filter(with_kind(k))
}

/// Inserts an entry after every entry whose date is not later: the insertion
/// step of a stable insertion sort.
pub open spec fn insert_sorted(e: EntrySpec, s: Seq<EntrySpec>) -> Seq<EntrySpec>
    decreases s.len(),
{
    if s.len() == 0 {
        seq![e]
    } else if s.last().date.spec_le(e.date) {
        s.push(e)
    } else {
        insert_sorted(e, s.drop_last()).push(s.last())
    }
}

/// Stable sort by ascending date: entries sharing a date keep their original
/// relative order.
pub open spec fn sort_by_date(s: Seq<EntrySpec>) -> Seq<EntrySpec>
    decreases s.len(),
{
    if s.len() == 0 {
        s
    } else {
        insert_sorted(s.last(), sort_by_date(s.drop_last()))
    }
}

pub open spec fn sorted_by_date(s: Seq<EntrySpec>) -> bool {
    forall|i: int, j: int|
        #![trigger s[i], s[j]]
        0 <= i <= j < s.len() ==> s[i].date.spec_le(s[j].date)
}

/// Where the backward scan stops is exactly where [`insert_sorted`] puts
/// the new entry.
proof fn lemma_insert_sorted_at(e: EntrySpec, t: Seq<EntrySpec>, j: int)
    requires
        0 <= j <= t.len(),
        forall|k: int| #![trigger t[k]] j <= k < t.len() ==> !t[k].date.spec_le(e.date),
        j > 0 ==> t[j - 1].date.spec_le(e.date),
    ensures
        insert_sorted(e, t) == t.subrange(0, j) + seq![e] + t.subrange(j, t.len() as int),
    decreases t.len(),
{
    if t.len() == 0 {
        assert(insert_sorted(e, t) =~= t.subrange(0, j) + seq![e] + t.subrange(j, t.len() as int));
    } else if j == t.len() {
        assert(insert_sorted(e, t) =~= t.subrange(0, j) + seq![e] + t.subrange(j, t.len() as int));
    } else {
        assert(!t[t.len() - 1].date.spec_le(e.date));
        lemma_insert_sorted_at(e, t.drop_last(), j);
        assert(t.drop_last().subrange(0, j) =~= t.subrange(0, j));
        assert(t.drop_last().subrange(j, t.len() - 1) =~= t.subrange(j, t.len() - 1));
        assert((t.subrange(0, j) + seq![e] + t.subrange(j, t.len() - 1)).push(t.last()) =~= t.subrange(
            0,
            j,
        ) + seq![e] + t.subrange(j, t.len() as int));
    }
}

/// Stable-sorts a vector of entries by ascending date.
pub fn sort_by_date_vec(entries: Vec<Entry>) -> (r: Vec<Entry>)
    ensures
        r.deep_view() == sort_by_date(entries.deep_view()),
{
    let ghost orig = entries.deep_view();
    let mut input = entries;
    let mut out: Vec<Entry> = Vec::new();
    let ghost mut done = Seq::<EntrySpec>::empty();
    proof {
        assert(done + input.deep_view() =~= orig);
        assert(sort_by_date(done) =~= out.deep_view());
    }
    while input.len() > 0
        invariant
            orig == done + input.deep_view(),
            out.deep_view() == sort_by_date(done),
        decreases input.len(),
    {
        let ghost pre_input = input.deep_view();
        let e = input.remove(0);
        proof {
            assert(input.deep_view() =~= pre_input.drop_first());
            assert(e@ == pre_input.first());
        }
        let ghost t = out.deep_view();
        let mut j: usize = out.len();
        while j > 0 && !out[j - 1].date.le(&e.date)
            invariant
                j <= t.len(),
                t == out.deep_view(),
                t.len() == out.len(),
                forall|k: int| #![trigger t[k]] j <= k < t.len() ==> !t[k].date.spec_le(e@.date),
            decreases j,
        {
            j -= 1;
        }
        proof {
            lemma_insert_sorted_at(e@, t, j as int);
        }
        out.insert(j, e);
        proof {
            assert(out.deep_view() =~= t.subrange(0, j as int) + seq![e@] + t.subrange(
                j as int,
                t.len() as int,
            ));
            let done2 = done.push(e@);
            assert(done2.drop_last() =~= done);
            assert(sort_by_date(done2) == insert_sorted(e@, sort_by_date(done)));
            assert(done2 + input.deep_view() =~= orig);
        }
        proof {
            done = done.push(e@);
        }
    }
    proof {
        assert(done =~= orig);
    }
    out
}

/// The fixed, total mapping from a section name to the entry kind that
/// section collects.
pub open spec fn section_kind(name: Seq<char>) -> Option<EntryType> {
    if name == "Accounts"@ {
        Option::Some(EntryType::Account)
    } else if name == "Options"@ {
        Option::Some(EntryType::OptionEntry)
    } else if name == "Commodities"@ {
        Option::Some(EntryType::Commodity)
    } else if name == "Other Entries"@ {
        Option::Some(EntryType::OtherEntry)
    } else if name == "Prices"@ {
        Option::Some(EntryType::Price)
    } else if name == "Transactions"@ {
        Option::Some(EntryType::Transaction)
    } else if name == "Header"@ {
        Option::Some(EntryType::Header)
    } else {
        Option::None
    }
}

/// Maps a section name to its entry kind; any name outside the fixed table
/// is a programming error, not an input error.
pub fn get_section_variant(entry: &str) -> (r: Result<EntryType, SortError>)
    ensures
        match section_kind(entry@) {
            Option::Some(k) => r == Ok::<EntryType, SortError>(k),
            Option::None => r matches Err(e) && e matches SortError::UnknownSection { name }
                && name@ == entry@,
        },
{
    if str_eq(entry, "Accounts") {
        Ok(EntryType::Account)
    } else if str_eq(entry, "Options") {
        Ok(EntryType::OptionEntry)
    } else if str_eq(entry, "Commodities") {
        Ok(EntryType::Commodity)
    } else if str_eq(entry, "Other Entries") {
        Ok(EntryType::OtherEntry)
    } else if str_eq(entry, "Prices") {
        Ok(EntryType::Price)
    } else if str_eq(entry, "Transactions") {
        Ok(EntryType::Transaction)
    } else if str_eq(entry, "Header") {
        Ok(EntryType::Header)
    } else {
        Err(SortError::UnknownSection { name: entry.to_owned() })
    }
}

/// The decoration glyph repeated `n` times.
pub open spec fn repeat_char(c: char, n: nat) -> Seq<char> {
    Seq::new(n, |i: int| c)
}

/// One border line of a section heading: a semicolon, then the decoration
/// glyph repeated to span the name plus the marker on both sides.
pub open spec fn heading_border(name: Seq<char>) -> Seq<char> {
    seq![';'] + repeat_char(deco_char(), (name.len() + 2 * deco_count()) as nat)
}

/// The middle line of a section heading: the name flanked by the marker.
pub open spec fn heading_middle(name: Seq<char>) -> Seq<char> {
    seq![';'] + repeat_char(deco_char(), deco_count() as nat) + name + repeat_char(
        deco_char(),
        deco_count() as nat,
    )
}

/// The three-line decorative heading rendered before a section.
pub open spec fn heading_content(name: Seq<char>) -> Seq<char> {
    heading_border(name) + seq!['\n'] + heading_middle(name) + seq!['\n'] + heading_border(name)
}

/// The transient Section-kind entry that carries a heading.
pub open spec fn heading_entry_for(name: Seq<char>) -> EntrySpec {
    EntrySpec {
        content: heading_content(name),
        date: Date::spec_sentinel(),
        kind: EntryType::Section,
    }
}

/// Appends the decoration glyph `n` times.
fn push_deco(s: &mut String, n: usize)
    requires
        old(s)@.len() + n <= usize::MAX,
    ensures
        final(s)@ == old(s)@ + repeat_char(deco_char(), n as nat),
{
    let mut i: usize = 0;
    while i < n
        invariant
            i <= n,
            s@ == old(s)@ + repeat_char(deco_char(), i as nat),
        decreases n - i,
    {
        s.append("\u{20ac}");
        proof {
            reveal_strlit("\u{20ac}");
            assert("\u{20ac}"@ =~= seq![deco_char()]);
            assert(old(s)@ + repeat_char(deco_char(), i as nat) + seq![deco_char()] =~= old(s)@
                + repeat_char(deco_char(), (i + 1) as nat));
        }
        i += 1;
    }
    proof {
        assert(s@ =~= old(s)@ + repeat_char(deco_char(), n as nat));
    }
}

/// Builds the decorative heading entry for one section name.
fn make_heading(name: &str) -> (r: Entry)
    requires
        name@.len() <= 100,
    ensures
        r@ == heading_entry_for(name@),
{
    proof {
        reveal_strlit(";");
        reveal_strlit("\n;");
        assert(";"@ =~= seq![';']);
        assert("\n;"@ =~= seq!['\n', ';']);
    }
    let len = name.unicode_len();
    let mut s = String::new();
    s.append(";");
    push_deco(&mut s, len + 8);
    s.append("\n;");
    push_deco(&mut s, 4);
    s.append(name);
    push_deco(&mut s, 4);
    s.append("\n;");
    push_deco(&mut s, len + 8);
    proof {
        assert(s@ =~= heading_content(name@));
    }
    Entry { content: s, date: Date::sentinel(), entry_type: EntryType::Section }
}

/// One step of filtering a prefix: the bucket of `take(i + 1)` extends the
/// bucket of `take(i)` by the `i`-th entry exactly when its kind matches.
proof fn lemma_bucket_take_step(t: Seq<EntrySpec>, kind: EntryType, i: int)
    requires
        0 <= i < t.len(),
    ensures
        bucket(t.take(i + 1), kind) == if t[i].kind == kind {
            bucket(t.take(i as int), kind).push(t[i])
        } else {
            bucket(t.take(i as int), kind)
        },
{
    reveal(Seq::filter);
    assert(t.take(i + 1).drop_last() =~= t.take(i as int));
    assert(t.take(i + 1).last() == t[i]);
}

/// Appends every entry of the given kind, in order, cloning from the sorted
/// list.
fn push_matching(out: &mut Vec<Entry>, sorted: &Vec<Entry>, kind: EntryType)
    ensures
        final(out).deep_view() == old(out).deep_view() + bucket(sorted.deep_view(), kind),
{
    let ghost t = sorted.deep_view();
    proof {
        assert(out.deep_view() + bucket(t.take(0), kind) =~= out.deep_view()) by {
            reveal(Seq::filter);
            assert(t.take(0) =~= Seq::<EntrySpec>::empty());
        }
    }
    let mut i: usize = 0;
    while i < sorted.len()
        invariant
            i <= sorted.len(),
            t == sorted.deep_view(),
            t.len() == sorted.len(),
            out.deep_view() == old(out).deep_view() + bucket(t.take(i as int), kind),
        decreases sorted.len() - i,
    {
        proof {
            lemma_bucket_take_step(t, kind, i as int);
        }
        if sorted[i].entry_type == kind {
            let ghost pre = out.deep_view();
            out.push(sorted[i].clone());
            proof {
                assert(out.deep_view() =~= pre.push(t[i as int]));
                assert(pre.push(t[i as int]) =~= old(out).deep_view() + bucket(
                    t.take(i + 1),
                    kind,
                ));
            }
        }
        i += 1;
    }
    proof {
        assert(t.take(sorted.len() as int) =~= t);
    }
}

/// The canonical rendering order: the date-sorted entries bucketed into the
/// fixed section sequence, each section except Header preceded by its
/// decorative heading.
pub open spec fn sort_output(s: Seq<EntrySpec>) -> Seq<EntrySpec> {
    let t = sort_by_date(s);
    bucket(t, EntryType::Header) + seq![heading_entry_for("Options"@)] + bucket(
        t,
        EntryType::OptionEntry,
    ) + seq![heading_entry_for("Accounts"@)] + bucket(t, EntryType::Account) + seq![
        heading_entry_for("Commodities"@),
    ] + bucket(t, EntryType::Commodity) + seq![heading_entry_for("Other Entries"@)] + bucket(
        t,
        EntryType::OtherEntry,
    ) + seq![heading_entry_for("Prices"@)] + bucket(t, EntryType::Price) + seq![
        heading_entry_for("Transactions"@),
    ] + bucket(t, EntryType::Transaction)
}

/// Sorts the assembled entries by date and groups them into the fixed
/// section order, synthesizing one heading entry per section after Header.
pub fn sort_entries(entries: Vec<Entry>) -> (r: Result<Vec<Entry>, SortError>)
    ensures
        r matches Ok(v) && v.deep_view() == sort_output(entries.deep_view()),
{
    let ghost orig = entries.deep_view();
    let sorted = sort_by_date_vec(entries);
    let ghost t = sorted.deep_view();
    let mut out: Vec<Entry> = Vec::new();

    let kind = match get_section_variant("Header") {
        Ok(k) => k,
        Err(e) => {
            proof {
                lemma_section_names();
            }
            return Err(e);
        },
    };
    proof {
        lemma_section_names();
    }
    push_matching(&mut out, &sorted, kind);

    let h = make_heading("Options");
    let ghost pre = out.deep_view();
    out.push(h);
    proof {
        assert(out.deep_view() =~= pre.push(h@));
    }
    let kind = match get_section_variant("Options") {
        Ok(k) => k,
        Err(e) => {
            proof {
                lemma_section_names();
            }
            return Err(e);
        },
    };
    push_matching(&mut out, &sorted, kind);

    let h = make_heading("Accounts");
    let ghost pre = out.deep_view();
    out.push(h);
    proof {
        assert(out.deep_view() =~= pre.push(h@));
    }
    let kind = match get_section_variant("Accounts") {
        Ok(k) => k,
        Err(e) => {
            proof {
                lemma_section_names();
            }
            return Err(e);
        },
    };
    push_matching(&mut out, &sorted, kind);

    let h = make_heading("Commodities");
    let ghost pre = out.deep_view();
    out.push(h);
    proof {
        assert(out.deep_view() =~= pre.push(h@));
    }
    let kind = match get_section_variant("Commodities") {
        Ok(k) => k,
        Err(e) => {
            proof {
                lemma_section_names();
            }
            return Err(e);
        },
    };
    push_matching(&mut out, &sorted, kind);

    let h = make_heading("Other Entries");
    let ghost pre = out.deep_view();
    out.push(h);
    proof {
        assert(out.deep_view() =~= pre.push(h@));
    }
    let kind = match get_section_variant("Other Entries") {
        Ok(k) => k,
        Err(e) => {
            proof {
                lemma_section_names();
            }
            return Err(e);
        },
    };
    push_matching(&mut out, &sorted, kind);

    let h = make_heading("Prices");
    let ghost pre = out.deep_view();
    out.push(h);
    proof {
        assert(out.deep_view() =~= pre.push(h@));
    }
    let kind = match get_section_variant("Prices") {
        Ok(k) => k,
        Err(e) => {
            proof {
                lemma_section_names();
            }
            return Err(e);
        },
    };
    push_matching(&mut out, &sorted, kind);

    let h = make_heading("Transactions");
    let ghost pre = out.deep_view();
    out.push(h);
    proof {
        assert(out.deep_view() =~= pre.push(h@));
    }
    let kind = match get_section_variant("Transactions") {
        Ok(k) => k,
        Err(e) => {
            proof {
                lemma_section_names();
            }
            return Err(e);
        },
    };
    push_matching(&mut out, &sorted, kind);

    proof {
        lemma_section_names();
        assert(out.deep_view() =~= sort_output(orig));
    }
    Ok(out)
}

/// Pins down the section table on the seven fixed names.
proof fn lemma_section_names()
    ensures
        section_kind("Header"@) == Option::Some(EntryType::Header),
        section_kind("Options"@) == Option::Some(EntryType::OptionEntry),
        section_kind("Accounts"@) == Option::Some(EntryType::Account),
        section_kind("Commodities"@) == Option::Some(EntryType::Commodity),
        section_kind("Other Entries"@) == Option::Some(EntryType::OtherEntry),
        section_kind("Prices"@) == Option::Some(EntryType::Price),
        section_kind("Transactions"@) == Option::Some(EntryType::Transaction),
        "Header"@.len() == 6,
        "Options"@.len() == 7,
        "Accounts"@.len() == 8,
        "Commodities"@.len() == 11,
        "Other Entries"@.len() == 13,
        "Prices"@.len() == 6,
        "Transactions"@.len() == 12,
{
    reveal_strlit("Header");
    reveal_strlit("Options");
    reveal_strlit("Accounts");
    reveal_strlit("Commodities");
    reveal_strlit("Other Entries");
    reveal_strlit("Prices");
    reveal_strlit("Transactions");
    assert("Header"@.len() == 6);
    assert("Options"@.len() == 7);
    assert("Accounts"@.len() == 8);
    assert("Commodities"@.len() == 11);
    assert("Other Entries"@.len() == 13);
    assert("Prices"@.len() == 6);
    assert("Transactions"@.len() == 12);
    assert("Header"@[0] == 'H' && "Prices"@[0] == 'P');
}

} // verus!
