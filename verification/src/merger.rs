//! Manifest parsing.  The manifest is line-oriented text: a header line
//! that is always skipped, then one line per sample in the form
//! `identifier:directory`.  Every data line must split into exactly two
//! fields on `:`; anything else aborts the whole parse.  Duplicate
//! identifiers keep the first occurrence.

use vstd::prelude::*;
use crate::finder::contains_id;
use crate::finder::has_id;
use crate::order::pair_views;
use crate::order::views_of;
use crate::text::find_from;
use crate::text::lemma_first_sep_is;
use crate::text::lemma_split_on_len;
use crate::text::split_on;
use crate::text::trimmed;
use crate::text::trimmed_str;

verus! {

/// A data line is well-formed when it splits into exactly two fields
/// on `:`.
pub open spec fn line_ok(l: Seq<char>) -> bool {
    split_on(l, ':').len() == 2
}

/// The entry a well-formed data line denotes: both fields, trimmed.
pub open spec fn line_entry(l: Seq<char>) -> (Seq<char>, Seq<char>) {
    (trimmed(split_on(l, ':')[0]), trimmed(split_on(l, ':')[1]))
}

/// The data lines of a manifest: everything after the header line.
pub open spec fn data_lines(lines: Seq<Seq<char>>) -> Seq<Seq<char>> {
    if lines.len() == 0 {
        Seq::empty()
    } else {
        lines.skip(1)
    }
}

/// The entries the data lines denote, in line order, first occurrence
/// of each identifier winning.
pub open spec fn parsed_entries(lines: Seq<Seq<char>>) -> Seq<(Seq<char>, Seq<char>)>
    decreases lines.len(),
{
    if lines.len() == 0 {
        Seq::empty()
    } else {
        let prev = parsed_entries(lines.drop_last());
        let l = lines.last();
        if !has_id(prev, line_entry(l).0) {
            prev.push(line_entry(l))
        } else {
            prev
        }
    }
}

/// A parse never yields two entries with the same identifier: when
/// several lines carry one identifier, only the first is kept.
pub proof fn lemma_parsed_ids_unique(lines: Seq<Seq<char>>)
    ensures
        forall|a: int, b: int|
            0 <= a < b < parsed_entries(lines).len() ==> parsed_entries(lines)[a].0
                != parsed_entries(lines)[b].0,
    decreases lines.len(),
{
    if lines.len() > 0 {
        lemma_parsed_ids_unique(lines.drop_last());
        let prev = parsed_entries(lines.drop_last());
        let e = line_entry(lines.last());
        let now = parsed_entries(lines);
        if !has_id(prev, e.0) {
            assert forall|a: int, b: int|
                0 <= a < b < now.len() implies now[a].0 != now[b].0 by {
                if b == prev.len() {
                    assert(now[a] == prev[a]);
                    if prev[a].0 == e.0 {
                        assert(has_id(prev, e.0));
                    }
                } else {
                    assert(now[a] == prev[a] && now[b] == prev[b]);
                }
            }
        }
    }
}

/// A manifest line that does not split into exactly an identifier and
/// a directory on `:`.  `line` is its position among the input lines.
#[derive(Debug)]
pub struct MalformedLine {
    pub line: usize,
}

/// Parses manifest lines into (identifier, directory) entries.  The
/// first line is the header and is skipped.  Every later line must
/// split into exactly two fields on `:`, which are trimmed; the first
/// ill-formed line aborts the parse.  Duplicate identifiers keep the
/// entry of the first line that carried them.
pub fn parse_input_file(lines: &Vec<String>) -> (r: Result<
    Vec<(String, String)>,
    MalformedLine,
>)
    ensures
        match r {
            Ok(entries) => {
                &&& forall|j: int|
                    #![trigger views_of(lines@)[j]]
                    1 <= j < lines@.len() ==> line_ok(views_of(lines@)[j])
                &&& pair_views(entries@) == parsed_entries(data_lines(views_of(lines@)))
            },
            Err(e) => {
                &&& 1 <= e.line < lines@.len()
                &&& !line_ok(views_of(lines@)[e.line as int])
                &&& forall|j: int|
                    #![trigger views_of(lines@)[j]]
                    1 <= j < e.line ==> line_ok(views_of(lines@)[j])
            },
        },
{
    let ghost lviews = views_of(lines@);
    let mut entries: Vec<(String, String)> = Vec::new();
    if lines.len() == 0 {
        proof {
            assert(pair_views(entries@) =~= Seq::<(Seq<char>, Seq<char>)>::empty());
            assert(parsed_entries(data_lines(lviews)) =~= Seq::<(Seq<char>, Seq<char>)>::empty());
        }
        return Ok(entries);
    }
    let ghost dl = lviews.skip(1);
    let mut idx: usize = 1;
    proof {
        assert(dl.take(0) =~= Seq::<Seq<char>>::empty());
        assert(pair_views(entries@) =~= Seq::<(Seq<char>, Seq<char>)>::empty());
    }
    while idx < lines.len()
        invariant
            1 <= idx <= lines@.len(),
            lviews == views_of(lines@),
            lviews.len() == lines@.len(),
            dl == lviews.skip(1),
            forall|j: int| #![trigger lviews[j]] 1 <= j < idx ==> line_ok(lviews[j]),
            pair_views(entries@) == parsed_entries(dl.take(idx - 1)),
        decreases lines@.len() - idx,
    {
        let l = &lines[idx];
        let n = l.as_str().unicode_len();
        let c1 = find_from(l.as_str(), 0, ':');
        if c1 == n {
            proof {
                lemma_first_sep_is(l@, ':', n as int);
                assert(split_on(l@, ':') == seq![l@]);
                assert(lviews[idx as int] == l@);
            }
            return Err(MalformedLine { line: idx });
        }
        let c2 = find_from(l.as_str(), c1 + 1, ':');
        if c2 < n {
            proof {
                lemma_first_sep_is(l@, ':', c1 as int);
                assert(split_on(l@, ':') == seq![l@.take(c1 as int)] + split_on(
                    l@.skip(c1 as int + 1),
                    ':',
                ));
                let suffix = l@.skip(c1 as int + 1);
                assert(suffix[c2 - c1 - 1] == l@[c2 as int]);
                assert(crate::text::first_sep(suffix, ':') < suffix.len()) by {
                    crate::text::lemma_first_sep_bounds(suffix, ':');
                    if crate::text::first_sep(suffix, ':') == suffix.len() {
                        assert(suffix[c2 - c1 - 1] != ':');
                    }
                }
                lemma_split_on_len(suffix, ':');
                crate::text::lemma_sep_count_split(suffix, ':');
                assert(split_on(suffix, ':').len() >= 2);
                assert(lviews[idx as int] == l@);
            }
            return Err(MalformedLine { line: idx });
        }
        proof {
            lemma_first_sep_is(l@, ':', c1 as int);
            let suffix = l@.skip(c1 as int + 1);
            assert forall|t: int| 0 <= t < suffix.len() implies suffix[t] != ':' by {
                assert(suffix[t] == l@[c1 + 1 + t]);
            }
            lemma_first_sep_is(suffix, ':', suffix.len() as int);
            assert(split_on(suffix, ':') == seq![suffix]);
            assert(split_on(l@, ':') =~= seq![l@.take(c1 as int), suffix]);
            assert(line_ok(l@));
            assert(split_on(l@, ':')[0] == l@.take(c1 as int));
            assert(split_on(l@, ':')[1] == suffix);
            assert(l@.take(c1 as int) =~= l@.subrange(0, c1 as int));
            assert(suffix =~= l@.subrange(c1 as int + 1, n as int));
        }
        let id_part = trimmed_str(l.as_str().substring_char(0, c1));
        let dir_part = trimmed_str(l.as_str().substring_char(c1 + 1, n));
        let id = String::from_str(id_part);
        let dir = String::from_str(dir_part);
        proof {
            assert((id@, dir@) == line_entry(l@));
        }
        if !contains_id(&entries, &id) {
            let ghost before = pair_views(entries@);
            entries.push((id, dir));
            proof {
                assert(pair_views(entries@) =~= before.push(line_entry(l@)));
            }
        }
        proof {
            assert(dl.take(idx as int).drop_last() =~= dl.take(idx - 1));
            assert(dl.take(idx as int).last() == dl[idx - 1]);
            assert(dl[idx - 1] == lviews[idx as int]);
            assert(lviews[idx as int] == l@);
        }
        idx += 1;
    }
    proof {
        assert(dl.take(lines@.len() - 1) =~= dl);
        assert(data_lines(lviews) == dl);
    }
    Ok(entries)
}

} // verus!
