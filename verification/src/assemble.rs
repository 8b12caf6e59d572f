//! The entry assembler: consumes the line stream in order, classifies each
//! line, and folds continuation and comment lines into the preceding logical
//! entry, producing the final ordered entry list.

use vstd::prelude::*;

use crate::classify::{classify, get_line_type, Line, LineClass};
use crate::construct::{construct_dated_entry, dated_entry};
use crate::date::Date;
use crate::entry::{Entry, EntrySpec, EntryType, ErrorSpec, SortError};

verus! {

/// A skipped line wrapped verbatim as a Header-kind entry.
pub open spec fn header_entry(line: Seq<char>) -> EntrySpec {
    EntrySpec { content: line, date: Date::spec_sentinel(), kind: EntryType::Header }
}

/// The first `k` lines wrapped as Header-kind entries, in order.
pub open spec fn header_entries(lines: Seq<Seq<char>>, k: int) -> Seq<EntrySpec> {
    lines.take(k).map_values(|l: Seq<char>| header_entry(l))
}

/// Comment absorption: a candidate entry swallows an immediately preceding
/// Comment entry, prepending its content plus a newline to its own.
pub open spec fn absorb_comment(acc: Seq<EntrySpec>, cand: EntrySpec) -> (Seq<EntrySpec>,
    EntrySpec) {
    if acc.len() > 0 && acc.last().kind == EntryType::Comment {
        (
            acc.drop_last(),
            EntrySpec {
                content: acc.last().content + seq!['\n'] + cand.content,
                date: cand.date,
                kind: cand.kind,
            },
        )
    } else {
        (acc, cand)
    }
}

/// How one candidate entry lands in the output list: comments are absorbed
/// first; an Indented candidate then merges into a preceding multi-line
/// directive, or the line is misplaced.
pub open spec fn push_candidate(acc: Seq<EntrySpec>, cand0: EntrySpec, n: nat) -> Result<
    Seq<EntrySpec>,
    ErrorSpec,
> {
    let (acc1, cand) = absorb_comment(acc, cand0);
    if cand.kind == EntryType::Indented {
        if acc1.len() == 0 {
            Err(ErrorSpec::MisplacedIndent { line: n, content: Option::None })
        } else if acc1.last().kind == EntryType::Transaction || acc1.last().kind
            == EntryType::Commodity {
            Ok(
                acc1.drop_last().push(
                    EntrySpec {
                        content: acc1.last().content + seq!['\n'] + cand.content,
                        date: acc1.last().date,
                        kind: acc1.last().kind,
                    },
                ),
            )
        } else {
            Err(ErrorSpec::MisplacedIndent { line: n, content: Option::Some(cand.content) })
        }
    } else {
        Ok(acc1.push(cand))
    }
}

/// What processing one classified line (1-based number `n`) does to the
/// entry list.
pub open spec fn step(acc: Seq<EntrySpec>, line: Seq<char>, n: nat) -> Result<
    Seq<EntrySpec>,
    ErrorSpec,
> {
    match classify(line) {
        LineClass::BadDate => Err(ErrorSpec::DateParse { line: n }),
        LineClass::Unclassifiable => Err(ErrorSpec::UnclassifiableLine { line: n, text: line }),
        LineClass::SectionLine => Ok(acc),
        LineClass::EmptyLine => Ok(acc),
        LineClass::DateLine(dt) => match dated_entry(line, dt) {
            Err(e) => Err(e),
            Ok(cand) => push_candidate(acc, cand, n),
        },
        LineClass::OptionLine => push_candidate(
            acc,
            EntrySpec { content: line, date: Date::spec_sentinel(), kind: EntryType::OptionEntry },
            n,
        ),
        LineClass::CommentLine => push_candidate(
            acc,
            EntrySpec { content: line, date: Date::spec_sentinel(), kind: EntryType::Comment },
            n,
        ),
        LineClass::IndentLine => push_candidate(
            acc,
            EntrySpec { content: line, date: Date::spec_sentinel(), kind: EntryType::Indented },
            n,
        ),
    }
}

/// Folds [`step`] over the remaining lines, numbering them from `n`.
pub open spec fn assemble_from(acc: Seq<EntrySpec>, lines: Seq<Seq<char>>, n: nat) -> Result<
    Seq<EntrySpec>,
    ErrorSpec,
>
    decreases lines.len(),
{
    if lines.len() == 0 {
        Ok(acc)
    } else {
        match step(acc, lines.first(), n) {
            Ok(acc2) => assemble_from(acc2, lines.drop_first(), (n + 1) as nat),
            Err(e) => Err(e),
        }
    }
}

/// The assembler's whole contract: the first `skip` lines pass through
/// verbatim as Header entries, every later line is classified and folded in.
pub open spec fn assemble(lines: Seq<Seq<char>>, skip: nat) -> Result<Seq<EntrySpec>, ErrorSpec> {
    if lines.len() < skip {
        Err(ErrorSpec::InsufficientLines)
    } else {
        assemble_from(header_entries(lines, skip as int), lines.skip(skip as int), (skip + 1) as nat)
    }
}

/// Given the full line sequence and a skip count, produces the ordered
/// entry list, or the first error met.
pub fn find_entries(lines: &Vec<String>, n_skip: usize) -> (r: Result<Vec<Entry>, SortError>)
    ensures
        match assemble(lines.deep_view(), n_skip as nat) {
            Ok(es) => r matches Ok(v) && v.deep_view() == es,
            Err(e) => r matches Err(x) && x@ == e,
        },
{
    let ghost ldv = lines.deep_view();
    if lines.len() < n_skip {
        return Err(SortError::InsufficientLines);
    }
    let mut entries: Vec<Entry> = Vec::new();
    let mut i: usize = 0;
    while i < n_skip
        invariant
            i <= n_skip <= ldv.len(),
            ldv == lines.deep_view(),
            entries.deep_view() == header_entries(ldv, i as int),
        decreases n_skip - i,
    {
        let e = Entry {
            content: lines[i].clone(),
            date: Date::sentinel(),
            entry_type: EntryType::Header,
        };
        entries.push(e);
        proof {
            let dv_new = entries.deep_view();
            let he = header_entries(ldv, i + 1);
            assert(header_entries(ldv, i as int).len() == i as int);
            assert(dv_new.len() == i + 1);
            assert(he.len() == i + 1);
            assert(e@ == header_entry(ldv[i as int]));
            assert forall|j: int| 0 <= j < dv_new.len() implies dv_new[j] == he[j] by {
                assert(ldv.take(i + 1)[j] == ldv[j]);
                if j < i {
                    assert(dv_new[j] == header_entries(ldv, i as int)[j]);
                    assert(ldv.take(i as int)[j] == ldv[j]);
                } else {
                    assert(dv_new[j] == e@);
                }
            }
            assert(dv_new =~= he);
        }
        i += 1;
    }
    let total = lines.len();
    let mut k: usize = n_skip;
    while k < total
        invariant
            n_skip <= k <= total,
            total == ldv.len(),
            ldv == lines.deep_view(),
            assemble(ldv, n_skip as nat) == assemble_from(
                entries.deep_view(),
                ldv.skip(k as int),
                (k + 1) as nat,
            ),
        decreases total - k,
    {
        let ghost acc0 = entries.deep_view();
        let ghost rest = ldv.skip(k as int);
        proof {
            assert(rest.first() == ldv[k as int]);
            assert(rest.drop_first() =~= ldv.skip(k + 1));
        }
        let line: &String = &lines[k];
        let n = k + 1;
        let lt = match get_line_type(line.as_str(), n) {
            Ok(lt) => lt,
            Err(e) => {
                proof {
                    assert(step(acc0, rest.first(), n as nat) == Err::<Seq<EntrySpec>, ErrorSpec>(
                        e@,
                    ));
                }
                return Err(e);
            },
        };
        let mut cand: Entry = match lt {
            Line::Date(d) => match construct_dated_entry(line.as_str(), d) {
                Ok(en) => en,
                Err(e) => {
                    proof {
                        assert(step(acc0, rest.first(), n as nat) == Err::<
                            Seq<EntrySpec>,
                            ErrorSpec,
                        >(e@));
                    }
                    return Err(e);
                },
            },
            Line::OptionLine => Entry {
                content: line.clone(),
                date: Date::sentinel(),
                entry_type: EntryType::OptionEntry,
            },
            Line::Comment => Entry {
                content: line.clone(),
                date: Date::sentinel(),
                entry_type: EntryType::Comment,
            },
            Line::Indent => Entry {
                content: line.clone(),
                date: Date::sentinel(),
                entry_type: EntryType::Indented,
            },
            Line::Section => {
                proof {
                    assert(step(acc0, rest.first(), n as nat) == Ok::<Seq<EntrySpec>, ErrorSpec>(
                        acc0,
                    ));
                }
                k += 1;
                continue ;
            },
            Line::Empty => {
                proof {
                    assert(step(acc0, rest.first(), n as nat) == Ok::<Seq<EntrySpec>, ErrorSpec>(
                        acc0,
                    ));
                }
                k += 1;
                continue ;
            },
        };
        let ghost cand0 = cand@;
        // Comment absorption: the candidate swallows a preceding Comment entry.
        if entries.len() > 0 && entries[entries.len() - 1].entry_type == EntryType::Comment {
            let prev = entries.pop().unwrap();
            let mut c = prev.content;
            c.append("\n");
            c.append(cand.content.as_str());
            proof {
                reveal_strlit("\n");
                assert("\n"@ =~= seq!['\n']);
            }
            cand.content = c;
            proof {
                assert(entries.deep_view() =~= acc0.drop_last());
                assert(prev@ == acc0.last());
            }
        }
        proof {
            assert((entries.deep_view(), cand@) == absorb_comment(acc0, cand0));
        }
        let ghost cand1 = cand@;
        if cand.entry_type == EntryType::Indented {
            let ghost acc1 = entries.deep_view();
            match entries.pop() {
                None => {
                    proof {
                        assert(step(acc0, rest.first(), n as nat) == Err::<
                            Seq<EntrySpec>,
                            ErrorSpec,
                        >(ErrorSpec::MisplacedIndent { line: n as nat, content: Option::None }));
                    }
                    return Err(SortError::MisplacedIndent { line: n, content: Option::None });
                },
                Some(last) => {
                    proof {
                        assert(entries.deep_view() =~= acc1.drop_last());
                        assert(last@ == acc1.last());
                    }
                    if last.entry_type == EntryType::Transaction || last.entry_type
                        == EntryType::Commodity {
                        let mut c = last.content;
                        c.append("\n");
                        c.append(cand.content.as_str());
                        proof {
                            reveal_strlit("\n");
                            assert("\n"@ =~= seq!['\n']);
                        }
                        let merged = Entry { content: c, date: last.date, entry_type: last.entry_type };
                        entries.push(merged);
                        proof {
                            assert(entries.deep_view() =~= acc1.drop_last().push(merged@));
                            assert(step(acc0, rest.first(), n as nat) == Ok::<
                                Seq<EntrySpec>,
                                ErrorSpec,
                            >(entries.deep_view()));
                        }
                    } else {
                        proof {
                            assert(step(acc0, rest.first(), n as nat) == Err::<
                                Seq<EntrySpec>,
                                ErrorSpec,
                            >(
                                ErrorSpec::MisplacedIndent {
                                    line: n as nat,
                                    content: Option::Some(cand1.content),
                                },
                            ));
                        }
                        return Err(
                            SortError::MisplacedIndent { line: n, content: Option::Some(cand.content) },
                        );
                    }
                },
            }
        } else {
            entries.push(cand);
            proof {
                let (a1, c1) = absorb_comment(acc0, cand0);
                assert(entries.deep_view() =~= a1.push(c1));
                assert(step(acc0, rest.first(), n as nat) == Ok::<Seq<EntrySpec>, ErrorSpec>(
                    entries.deep_view(),
                ));
            }
        }
        k += 1;
    }
    proof {
        assert(ldv.skip(total as int) =~= Seq::<Seq<char>>::empty());
    }
    Ok(entries)
}

} // verus!
