//! The sample registry builder.  Given the filenames found under a root
//! directory (with the directory each one sits in), it keeps those the
//! discovery filter accepts, derives each sample's identifier from the
//! leading filename tokens, records one row per identifier with
//! first-discovery-wins semantics, and renders the manifest text.

use vstd::prelude::*;
use crate::classify::matches_discovery;
use crate::classify::matches_lane_read;
use crate::order::lemma_ordered_by_path_props;
use crate::order::ordered_by_path;
use crate::order::pair_views;
use crate::order::sort_files_by_path;
use crate::order::sort_pairs;
use crate::order::sorted_by_first;
use crate::text::find_from;
use crate::text::first_sep;
use crate::text::join;
use crate::text::lemma_first_sep_bounds;
use crate::text::lemma_first_sep_is;
use crate::text::lemma_join_push;
use crate::text::push_char;
use crate::text::push_decimal;
use crate::text::split_on;
use crate::text::tokens_exceed;
use crate::text::dec_digits;

verus! {

/// The identifier derived from a filename: its first `len` tokens,
/// split on `sep` and re-joined with `sep`.
pub open spec fn id_of(f: Seq<char>, sep: char, len: int) -> Seq<char> {
    join(split_on(f, sep).take(len), sep)
}

/// Some row already carries this identifier.
pub open spec fn has_id(rows: Seq<(Seq<char>, Seq<char>)>, id: Seq<char>) -> bool {
    exists|j: int| 0 <= j < rows.len() && rows[j].0 == id
}

/// The registry rows a scan produces, in first-discovery order: one row
/// per new identifier among the filenames the discovery filter accepts.
/// Later files with an already-recorded identifier are ignored, so the
/// first-discovered directory wins.
pub open spec fn registry_rows(
    files: Seq<(Seq<char>, Seq<char>)>,
    sep: char,
    len: int,
) -> Seq<(Seq<char>, Seq<char>)>
    decreases files.len(),
{
    if files.len() == 0 {
        Seq::empty()
    } else {
        let prev = registry_rows(files.drop_last(), sep, len);
        let f = files.last();
        if matches_discovery(f.0) && !has_id(prev, id_of(f.0, sep, len)) {
            prev.push((id_of(f.0, sep, len), f.1))
        } else {
            prev
        }
    }
}

/// A scan never records two rows with the same identifier: when several
/// files map to one identifier, only the first-discovered row is kept.
pub proof fn lemma_registry_ids_unique(files: Seq<(Seq<char>, Seq<char>)>, sep: char, len: int)
    ensures
        forall|a: int, b: int|
            0 <= a < b < registry_rows(files, sep, len).len() ==> registry_rows(files, sep, len)[a].0
                != registry_rows(files, sep, len)[b].0,
    decreases files.len(),
{
    if files.len() > 0 {
        lemma_registry_ids_unique(files.drop_last(), sep, len);
        let prev = registry_rows(files.drop_last(), sep, len);
        let f = files.last();
        let now = registry_rows(files, sep, len);
        if matches_discovery(f.0) && !has_id(prev, id_of(f.0, sep, len)) {
            assert forall|a: int, b: int|
                0 <= a < b < now.len() implies now[a].0 != now[b].0 by {
                if b == prev.len() {
                    assert(now[a] == prev[a]);
                    if prev[a].0 == id_of(f.0, sep, len) {
                        assert(has_id(prev, id_of(f.0, sep, len)));
                    }
                } else {
                    assert(now[a] == prev[a] && now[b] == prev[b]);
                }
            }
        }
    }
}

/// Some discovery-matching filename has too few tokens for the
/// configured word length: identifier construction must fail loudly.
pub open spec fn any_short_name(files: Seq<(Seq<char>, Seq<char>)>, sep: char, len: int) -> bool {
    exists|j: int|
        #![trigger files[j]]
        0 <= j < files.len() && matches_discovery(files[j].0) && split_on(files[j].0, sep).len()
            <= len
}

/// A discovery-matching filename did not split into more tokens than
/// the configured word length, so no identifier could be derived.
#[derive(Debug)]
pub struct ShortNameError {
    pub fname: String,
}

/// Discovers samples: configured with the root directory to scan, the
/// number of leading tokens that form an identifier, and the token
/// separator.  `fname` is the well-known manifest filename.
pub struct Finder {
    pub path: String,
    pub len: usize,
    pub sep: char,
    pub fname: String,
}

impl Finder {
    /// A registry builder for the given root, word length and separator.
    pub fn new(path: &str, len: usize, sep: char) -> (r: Self)
        ensures
            r.path@ == path@,
            r.len == len,
            r.sep == sep,
            r.fname@ == "cafq-input.conf"@,
    {
        Finder { path: String::from_str(path), len, sep, fname: String::from_str(
            "cafq-input.conf",
        ) }
    }

    /// The sample identifier for `names`: the first `self.len` tokens,
    /// re-joined with the separator.  The filename must have more
    /// tokens than are taken, so that the identifier never swallows
    /// the whole name.
    pub fn construct_id(&self, names: &str) -> (r: String)
        requires
            1 <= self.len,
            split_on(names@, self.sep).len() > self.len as int,
        ensures
            r@ == id_of(names@, self.sep, self.len as int),
    {
        let ghost parts = split_on(names@, self.sep);
        let n = names.unicode_len();
        let mut out = String::new();
        let mut start: usize = 0;
        let mut k: usize = 0;
        proof {
            assert(names@.skip(0) =~= names@);
            assert(parts.skip(0) =~= parts);
        }
        while k < self.len
            invariant
                1 <= self.len,
                0 <= k <= self.len,
                parts == split_on(names@, self.sep),
                parts.len() > self.len,
                start <= n,
                n == names@.len(),
                split_on(names@.skip(start as int), self.sep) == parts.skip(k as int),
                out@ == join(parts.take(k as int), self.sep),
            decreases self.len - k,
        {
            if k > 0 {
                push_char(&mut out, self.sep);
            }
            let end = find_from(names, start, self.sep);
            proof {
                let suffix = names@.skip(start as int);
                assert(parts.skip(k as int).len() == parts.len() - k);
                lemma_first_sep_bounds(suffix, self.sep);
                assert forall|j: int| 0 <= j < end - start implies suffix[j] != self.sep by {
                    assert(suffix[j] == names@[start + j]);
                }
                if end < n {
                    assert(suffix[end - start] == names@[end as int]);
                }
                lemma_first_sep_is(suffix, self.sep, end as int - start as int);
                if end == n {
                    // no separator is left, yet at least two tokens remain
                    assert(first_sep(suffix, self.sep) == suffix.len());
                    assert(split_on(suffix, self.sep) == seq![suffix]);
                    assert(false);
                }
                assert(split_on(suffix, self.sep) == seq![
                    suffix.take(end - start),
                ] + split_on(suffix.skip(end - start + 1), self.sep));
                assert(suffix.take(end - start) =~= names@.subrange(start as int, end as int));
                assert(parts.skip(k as int)[0] == parts[k as int]);
                assert(parts[k as int] == names@.subrange(start as int, end as int));
                assert(suffix.skip(end - start + 1) =~= names@.skip(end + 1));
                assert(split_on(suffix, self.sep).drop_first() == split_on(
                    names@.skip(end + 1),
                    self.sep,
                ));
                assert(parts.skip(k as int).drop_first() =~= parts.skip(k as int + 1));
            }
            let token = names.substring_char(start, end);
            out.append(token);
            proof {
                if k == 0 {
                    assert(join(parts.take(1), self.sep) == parts.take(1)[0]);
                    assert(parts.take(1)[0] == parts[0]);
                } else {
                    lemma_join_push(parts.take(k as int), self.sep, parts[k as int]);
                    assert(parts.take(k as int).push(parts[k as int]) =~= parts.take(k as int + 1));
                }
            }
            start = end + 1;
            k += 1;
        }
        out
    }

    /// Whether the discovery filter accepts the filename: a lane marker
    /// directly followed by a read marker with digit 1 or 2, and `gz`
    /// somewhere after.
    pub fn is_lane_file(&self, fname: &str) -> (r: bool)
        ensures
            r == matches_discovery(fname@),
    {
        matches_lane_read(fname)
    }

    /// The sample identifier for `names`, or nothing when the filename
    /// has too few tokens (or the configured word length is zero).
    pub fn try_construct_id(&self, names: &str) -> (r: Option<String>)
        ensures
            r is Some <==> (1 <= self.len && split_on(names@, self.sep).len() > self.len as int),
            r matches Some(id) ==> id@ == id_of(names@, self.sep, self.len as int),
    {
        if self.len == 0 {
            return None;
        }
        if !tokens_exceed(names, self.sep, self.len) {
            return None;
        }
        Some(self.construct_id(names))
    }

    /// Builds the registry from the scanned files, given as (filename,
    /// containing directory) pairs.  Filenames the discovery filter
    /// rejects are ignored; the rest are taken in ascending full-path
    /// order, so the outcome does not depend on traversal order, and
    /// one row per identifier is kept, the first file in that order
    /// winning.  The rows come back sorted by identifier.  A
    /// discovery-matching filename with too few tokens aborts the build.
    pub fn build_registry(&self, files: &Vec<(String, String)>) -> (r: Result<
        Vec<(String, String)>,
        ShortNameError,
    >)
        requires
            1 <= self.len,
        ensures
            match r {
                Ok(rows) => {
                    &&& !any_short_name(pair_views(files@), self.sep, self.len as int)
                    &&& sorted_by_first(pair_views(rows@))
                    &&& pair_views(rows@).to_multiset() == registry_rows(
                        ordered_by_path(pair_views(files@)),
                        self.sep,
                        self.len as int,
                    ).to_multiset()
                },
                Err(e) => {
                    &&& any_short_name(pair_views(files@), self.sep, self.len as int)
                    &&& matches_discovery(e.fname@)
                    &&& split_on(e.fname@, self.sep).len() <= self.len as int
                },
            },
    {
        let ghost pv = pair_views(files@);
        // every discovery-matching filename must yield an identifier
        let mut idx: usize = 0;
        while idx < files.len()
            invariant
                1 <= self.len,
                0 <= idx <= files.len(),
                pv == pair_views(files@),
                pv.len() == files@.len(),
                forall|j: int|
                    #![trigger pv[j]]
                    0 <= j < idx ==> !(matches_discovery(pv[j].0) && split_on(
                        pv[j].0,
                        self.sep,
                    ).len() <= self.len as int),
            decreases files.len() - idx,
        {
            let fname = &files[idx].0;
            proof {
                assert(pv[idx as int] == (fname@, files@[idx as int].1@));
            }
            if matches_lane_read(fname.as_str()) && !tokens_exceed(
                fname.as_str(),
                self.sep,
                self.len,
            ) {
                proof {
                    assert(matches_discovery(pv[idx as int].0) && split_on(
                        pv[idx as int].0,
                        self.sep,
                    ).len() <= self.len as int);
                    assert(any_short_name(pv, self.sep, self.len as int));
                }
                return Err(ShortNameError { fname: fname.clone() });
            }
            idx += 1;
        }
        proof {
            assert(!any_short_name(pv, self.sep, self.len as int));
        }
        // take the files in ascending full-path order, so that the
        // first-wins choice below does not depend on traversal order
        let mut ordered: Vec<(String, String)> = Vec::new();
        let mut c: usize = 0;
        proof {
            assert(pair_views(ordered@) =~= pv.take(0));
        }
        while c < files.len()
            invariant
                0 <= c <= files.len(),
                pv == pair_views(files@),
                pv.len() == files@.len(),
                pair_views(ordered@) == pv.take(c as int),
            decreases files.len() - c,
        {
            let f = &files[c];
            let ghost before = pair_views(ordered@);
            ordered.push((f.0.clone(), f.1.clone()));
            proof {
                assert(pv[c as int] == (f.0@, f.1@));
                assert(pair_views(ordered@) =~= before.push((f.0@, f.1@)));
                assert(pair_views(ordered@) =~= pv.take(c as int + 1));
            }
            c += 1;
        }
        proof {
            assert(pv.take(files@.len() as int) =~= pv);
        }
        sort_files_by_path(&mut ordered);
        let ghost op = pair_views(ordered@);
        proof {
            lemma_ordered_by_path_props(pv);
            // the no-short-name fact carries over to the reordered scan
            assert forall|j: int|
                #![trigger op[j]]
                0 <= j < op.len() implies !(matches_discovery(op[j].0) && split_on(
                op[j].0,
                self.sep,
            ).len() <= self.len as int) by {
                assert(op.contains(op[j]));
                vstd::seq_lib::to_multiset_contains(op, op[j]);
                vstd::seq_lib::to_multiset_contains(pv, op[j]);
                assert(pv.contains(op[j]));
                let k = choose|k: int| 0 <= k < pv.len() && pv[k] == op[j];
                assert(!(matches_discovery(pv[k].0) && split_on(pv[k].0, self.sep).len()
                    <= self.len as int));
            }
        }
        // first-wins fold over the path-ordered files
        let mut rows: Vec<(String, String)> = Vec::new();
        let mut idx2: usize = 0;
        proof {
            assert(op.take(0) =~= Seq::<(Seq<char>, Seq<char>)>::empty());
            assert(pair_views(rows@) =~= Seq::<(Seq<char>, Seq<char>)>::empty());
        }
        while idx2 < ordered.len()
            invariant
                1 <= self.len,
                0 <= idx2 <= ordered.len(),
                op == pair_views(ordered@),
                op.len() == ordered@.len(),
                pair_views(rows@) == registry_rows(op.take(idx2 as int), self.sep, self.len as int),
                forall|j: int|
                    #![trigger op[j]]
                    0 <= j < op.len() ==> !(matches_discovery(op[j].0) && split_on(
                        op[j].0,
                        self.sep,
                    ).len() <= self.len as int),
            decreases ordered.len() - idx2,
        {
            let fname = &ordered[idx2].0;
            let dir = &ordered[idx2].1;
            proof {
                assert(op[idx2 as int] == (fname@, dir@));
            }
            if matches_lane_read(fname.as_str()) {
                proof {
                    assert(!(matches_discovery(op[idx2 as int].0) && split_on(
                        op[idx2 as int].0,
                        self.sep,
                    ).len() <= self.len as int));
                    assert(split_on(fname@, self.sep).len() > self.len as int);
                }
                let id = self.construct_id(fname.as_str());
                if !contains_id(&rows, &id) {
                    let ghost before = pair_views(rows@);
                    rows.push((id, dir.clone()));
                    proof {
                        assert(pair_views(rows@) =~= before.push(
                            (id_of(fname@, self.sep, self.len as int), dir@),
                        ));
                    }
                }
            }
            proof {
                assert(op.take(idx2 as int + 1).drop_last() =~= op.take(idx2 as int));
                assert(op.take(idx2 as int + 1).last() == op[idx2 as int]);
            }
            idx2 += 1;
        }
        proof {
            assert(op.take(ordered@.len() as int) =~= op);
            assert(op == ordered_by_path(pv));
        }
        sort_pairs(&mut rows);
        Ok(rows)
    }

    /// Appends the manifest header line, recording the sample count.
    pub fn write_header(&self, out: &mut String, count: usize)
        ensures
            final(out)@ == old(out)@ + header_text(count as int),
    {
        out.append("[seqs_id, path] Total samples: ");
        push_decimal(out, count as u64);
        push_char(out, '\n');
        proof {
            let prefix = old(out)@;
            assert(prefix + "[seqs_id, path] Total samples: "@ + dec_digits(count as int) + seq![
                '\n',
            ] =~= prefix + header_text(count as int));
        }
    }

    /// Appends one manifest row: the identifier, a colon, the
    /// directory, and a trailing slash.
    pub fn write_content(&self, out: &mut String, id: &str, full_path: &str)
        ensures
            final(out)@ == old(out)@ + entry_line(id@, full_path@),
    {
        out.append(id);
        push_char(out, ':');
        out.append(full_path);
        push_char(out, '/');
        push_char(out, '\n');
        proof {
            let prefix = old(out)@;
            assert(prefix + id@ + seq![':'] + full_path@ + seq!['/'] + seq!['\n'] =~= prefix
                + entry_line(id@, full_path@));
        }
    }

    /// The whole manifest: the header with the row count, then one
    /// line per registry row.
    pub fn manifest_text(&self, rows: &Vec<(String, String)>) -> (r: String)
        ensures
            r@ == header_text(rows@.len() as int) + entries_text(pair_views(rows@)),
    {
        let ghost pv = pair_views(rows@);
        let mut out = String::new();
        self.write_header(&mut out, rows.len());
        let mut i: usize = 0;
        proof {
            assert(pv.take(0) =~= Seq::<(Seq<char>, Seq<char>)>::empty());
            assert(out@ =~= header_text(rows@.len() as int) + entries_text(pv.take(0)));
        }
        while i < rows.len()
            invariant
                0 <= i <= rows.len(),
                pv == pair_views(rows@),
                pv.len() == rows@.len(),
                out@ == header_text(rows@.len() as int) + entries_text(pv.take(i as int)),
            decreases rows.len() - i,
        {
            let row = &rows[i];
            self.write_content(&mut out, row.0.as_str(), row.1.as_str());
            proof {
                assert(pv.take(i as int + 1).drop_last() =~= pv.take(i as int));
                assert(pv.take(i as int + 1).last() == pv[i as int]);
                assert(pv[i as int] == (row.0@, row.1@));
                let head = header_text(rows@.len() as int);
                assert(head + entries_text(pv.take(i as int)) + entry_line(row.0@, row.1@) =~= head
                    + entries_text(pv.take(i as int + 1)));
            }
            i += 1;
        }
        proof {
            assert(pv.take(rows@.len() as int) =~= pv);
        }
        out
    }
}

/// One manifest row as text: `identifier:directory/` and a line break.
pub open spec fn entry_line(id: Seq<char>, dir: Seq<char>) -> Seq<char> {
    id + seq![':'] + dir + seq!['/', '\n']
}

/// All manifest rows as text, in order.
pub open spec fn entries_text(rows: Seq<(Seq<char>, Seq<char>)>) -> Seq<char>
    decreases rows.len(),
{
    if rows.len() == 0 {
        Seq::empty()
    } else {
        entries_text(rows.drop_last()) + entry_line(rows.last().0, rows.last().1)
    }
}

/// The manifest header line as text, with the sample count.
pub open spec fn header_text(count: int) -> Seq<char> {
    "[seqs_id, path] Total samples: "@ + dec_digits(count) + seq!['\n']
}

/// Whether some row already carries this identifier.
pub(crate) fn contains_id(rows: &Vec<(String, String)>, id: &String) -> (r: bool)
    ensures
        r == has_id(pair_views(rows@), id@),
{
    let mut j: usize = 0;
    while j < rows.len()
        invariant
            0 <= j <= rows.len(),
            forall|t: int| 0 <= t < j ==> pair_views(rows@)[t].0 != id@,
        decreases rows.len() - j,
    {
        let row = &rows[j];
        if row.0 == *id {
            proof {
                assert(pair_views(rows@)[j as int].0 == id@);
            }
            return true;
        }
        j += 1;
    }
    false
}

} // verus!
