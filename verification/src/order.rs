//! Deterministic ordering: lane files are concatenated in ascending
//! lexicographic order of their full paths, and registry rows are
//! written in ascending identifier order.

use vstd::prelude::*;
use crate::text::full_path_of;
use crate::text::lex_le;
use crate::text::lemma_lex_total;
use crate::text::lemma_lex_trans;
use crate::text::make_full_path;

verus! {

/// The views of a list of strings.
pub open spec fn views_of(v: Seq<String>) -> Seq<Seq<char>> {
    v.map_values(|s: String| s@)
}

/// The views of a list of string pairs.
pub open spec fn pair_views(v: Seq<(String, String)>) -> Seq<(Seq<char>, Seq<char>)> {
    v.map_values(|p: (String, String)| (p.0@, p.1@))
}

/// Ascending lexicographic order.
pub open spec fn sorted_lex(v: Seq<Seq<char>>) -> bool {
    forall|i: int, j: int| 0 <= i < j < v.len() ==> lex_le(v[i], v[j])
}

/// Ascending lexicographic order of the first components.
pub open spec fn sorted_by_first(v: Seq<(Seq<char>, Seq<char>)>) -> bool {
    forall|i: int, j: int| 0 <= i < j < v.len() ==> lex_le(v[i].0, v[j].0)
}

/// Sorts the strings in ascending lexicographic order.  The result is
/// a permutation of the input.
pub fn sort_strings(v: &mut Vec<String>)
    ensures
        sorted_lex(views_of(final(v)@)),
        views_of(final(v)@).to_multiset() == views_of(old(v)@).to_multiset(),
        final(v)@.len() == old(v)@.len(),
{
    if v.len() <= 1 {
        return;
    }
    let ghost orig = views_of(old(v)@);
    let mut i: usize = 1;
    while i < v.len()
        invariant
            1 <= i <= v.len(),
            sorted_lex(views_of(v@).take(i as int)),
            views_of(v@).to_multiset() == orig.to_multiset(),
            v@.len() == old(v)@.len(),
        decreases v.len() - i,
    {
        let ghost pre = views_of(v@);
        let x = v.remove(i);
        proof {
            assert(views_of(v@) =~= pre.remove(i as int));
            vstd::seq_lib::to_multiset_remove(pre, i as int);
            assert(views_of(v@).to_multiset() == pre.to_multiset().remove(pre[i as int]));
        }
        let ghost mid = views_of(v@);
        let mut pos: usize = 0;
        while pos < i && !crate::text::str_le(x.as_str(), v[pos].as_str())
            invariant
                0 <= pos <= i,
                i <= v.len() + 1,
                i - 1 < v@.len(),
                views_of(v@) == mid,
                forall|j: int| 0 <= j < pos ==> !lex_le(x@, mid[j]),
            decreases i - pos,
        {
            pos += 1;
        }
        proof {
            assert forall|j: int| 0 <= j < pos implies lex_le(mid[j], x@) by {
                lemma_lex_total(x@, mid[j]);
            }
        }
        let ghost xv = x@;
        v.insert(pos, x);
        proof {
            broadcast use vstd::multiset::group_multiset_axioms;
            broadcast use vstd::multiset::group_multiset_properties;

            assert(xv == pre[i as int]);
            assert(views_of(v@) =~= mid.insert(pos as int, xv));
            vstd::seq_lib::to_multiset_insert(mid, pos as int, xv);
            assert(views_of(v@).to_multiset() == mid.to_multiset().insert(xv));
            vstd::seq_lib::to_multiset_contains(pre, xv);
            assert(pre.contains(pre[i as int]));
            assert(views_of(v@).to_multiset() =~= pre.to_multiset());
            let now = views_of(v@);
            // the first i + 1 entries remain sorted around the insertion
            assert forall|a: int, b: int| 0 <= a < b < i + 1 implies #[trigger] lex_le(
                now.take(i as int + 1)[a],
                now.take(i as int + 1)[b],
            ) by {
                let pi = pos as int;
                if b < pi {
                    assert(now[a] == pre[a] && now[b] == pre[b]);
                    assert(lex_le(pre.take(i as int)[a], pre.take(i as int)[b]));
                } else if b == pi {
                    assert(now[b] == xv);
                    assert(now[a] == mid[a] && mid[a] == pre[a]);
                    assert(lex_le(mid[a], xv));
                } else {
                    // b lands past the insertion point
                    assert(now[b] == mid[b - 1] && mid[b - 1] == pre[b - 1]);
                    if a < pi {
                        assert(now[a] == pre[a]);
                        assert(lex_le(pre.take(i as int)[a], pre.take(i as int)[b - 1]));
                    } else if a == pi {
                        assert(now[a] == xv);
                        assert(pos < i);
                        assert(lex_le(xv, mid[pos as int]));
                        if b - 1 > pi {
                            assert(lex_le(pre.take(i as int)[pi], pre.take(i as int)[b - 1]));
                            lemma_lex_trans(xv, mid[pi], mid[b - 1]);
                        }
                    } else {
                        assert(now[a] == mid[a - 1] && mid[a - 1] == pre[a - 1]);
                        assert(lex_le(pre.take(i as int)[a - 1], pre.take(i as int)[b - 1]));
                    }
                }
            }
        }
        i += 1;
    }
    proof {
        if v@.len() > 0 {
            assert(views_of(v@).take(v@.len() as int) =~= views_of(v@));
        }
    }
}

/// Sorts the pairs in ascending lexicographic order of their first
/// components.  The result is a permutation of the input.
pub fn sort_pairs(v: &mut Vec<(String, String)>)
    ensures
        sorted_by_first(pair_views(final(v)@)),
        pair_views(final(v)@).to_multiset() == pair_views(old(v)@).to_multiset(),
        final(v)@.len() == old(v)@.len(),
{
    if v.len() <= 1 {
        return;
    }
    let ghost orig = pair_views(old(v)@);
    let mut i: usize = 1;
    while i < v.len()
        invariant
            1 <= i <= v.len(),
            sorted_by_first(pair_views(v@).take(i as int)),
            pair_views(v@).to_multiset() == orig.to_multiset(),
            v@.len() == old(v)@.len(),
        decreases v.len() - i,
    {
        let ghost pre = pair_views(v@);
        let x = v.remove(i);
        proof {
            assert(pair_views(v@) =~= pre.remove(i as int));
            vstd::seq_lib::to_multiset_remove(pre, i as int);
            assert(pair_views(v@).to_multiset() == pre.to_multiset().remove(pre[i as int]));
        }
        let ghost mid = pair_views(v@);
        let mut pos: usize = 0;
        while pos < i && !crate::text::str_le(x.0.as_str(), v[pos].0.as_str())
            invariant
                0 <= pos <= i,
                i <= v.len() + 1,
                i - 1 < v@.len(),
                pair_views(v@) == mid,
                forall|j: int| 0 <= j < pos ==> !lex_le(x.0@, mid[j].0),
            decreases i - pos,
        {
            pos += 1;
        }
        proof {
            assert forall|j: int| 0 <= j < pos implies lex_le(mid[j].0, x.0@) by {
                lemma_lex_total(x.0@, mid[j].0);
            }
        }
        let ghost xv = (x.0@, x.1@);
        v.insert(pos, x);
        proof {
            broadcast use vstd::multiset::group_multiset_axioms;
            broadcast use vstd::multiset::group_multiset_properties;

            assert(xv == pre[i as int]);
            assert(pair_views(v@) =~= mid.insert(pos as int, xv));
            vstd::seq_lib::to_multiset_insert(mid, pos as int, xv);
            assert(pair_views(v@).to_multiset() == mid.to_multiset().insert(xv));
            vstd::seq_lib::to_multiset_contains(pre, xv);
            assert(pre.contains(pre[i as int]));
            assert(pair_views(v@).to_multiset() =~= pre.to_multiset());
            let now = pair_views(v@);
            assert forall|a: int, b: int| 0 <= a < b < i + 1 implies #[trigger] lex_le(
                now.take(i as int + 1)[a].0,
                now.take(i as int + 1)[b].0,
            ) by {
                let pi = pos as int;
                if b < pi {
                    assert(now[a] == pre[a] && now[b] == pre[b]);
                    assert(lex_le(pre.take(i as int)[a].0, pre.take(i as int)[b].0));
                } else if b == pi {
                    assert(now[b] == xv);
                    assert(now[a] == mid[a] && mid[a] == pre[a]);
                    assert(lex_le(mid[a].0, xv.0));
                } else {
                    assert(now[b] == mid[b - 1] && mid[b - 1] == pre[b - 1]);
                    if a < pi {
                        assert(now[a] == pre[a]);
                        assert(lex_le(pre.take(i as int)[a].0, pre.take(i as int)[b - 1].0));
                    } else if a == pi {
                        assert(now[a] == xv);
                        assert(pos < i);
                        assert(lex_le(xv.0, mid[pos as int].0));
                        if b - 1 > pi {
                            assert(lex_le(pre.take(i as int)[pi].0, pre.take(i as int)[b - 1].0));
                            lemma_lex_trans(xv.0, mid[pi].0, mid[b - 1].0);
                        }
                    } else {
                        assert(now[a] == mid[a - 1] && mid[a - 1] == pre[a - 1]);
                        assert(lex_le(pre.take(i as int)[a - 1].0, pre.take(i as int)[b - 1].0));
                    }
                }
            }
        }
        i += 1;
    }
    proof {
        if v@.len() > 0 {
            assert(pair_views(v@).take(v@.len() as int) =~= pair_views(v@));
        }
    }
}

/// The full path a scanned (filename, directory) pair denotes.
pub open spec fn path_key(p: (Seq<char>, Seq<char>)) -> Seq<char> {
    full_path_of(p.1, p.0)
}

/// Ascending lexicographic order of the full paths.
pub open spec fn sorted_by_path(v: Seq<(Seq<char>, Seq<char>)>) -> bool {
    forall|i: int, j: int| 0 <= i < j < v.len() ==> lex_le(path_key(v[i]), path_key(v[j]))
}

/// Insertion into a path-ordered sequence: the new pair goes in front
/// of the first entry whose full path does not precede it.
pub open spec fn insert_by_path(
    v: Seq<(Seq<char>, Seq<char>)>,
    x: (Seq<char>, Seq<char>),
) -> Seq<(Seq<char>, Seq<char>)>
    decreases v.len(),
{
    if v.len() == 0 {
        seq![x]
    } else if lex_le(path_key(x), path_key(v[0])) {
        seq![x] + v
    } else {
        seq![v[0]] + insert_by_path(v.drop_first(), x)
    }
}

/// The scanned pairs in ascending full-path order: the deterministic
/// order in which first-discovery-wins duplicate resolution is taken.
pub open spec fn ordered_by_path(v: Seq<(Seq<char>, Seq<char>)>) -> Seq<(Seq<char>, Seq<char>)>
    decreases v.len(),
{
    if v.len() == 0 {
        Seq::empty()
    } else {
        insert_by_path(ordered_by_path(v.drop_last()), v.last())
    }
}

/// Inserting into a path-ordered sequence keeps it ordered, adds the
/// new pair to the contents, and adds nothing else.
proof fn lemma_insert_by_path_props(u: Seq<(Seq<char>, Seq<char>)>, x: (Seq<char>, Seq<char>))
    requires
        sorted_by_path(u),
    ensures
        sorted_by_path(insert_by_path(u, x)),
        insert_by_path(u, x).len() == u.len() + 1,
        insert_by_path(u, x).to_multiset() == u.to_multiset().insert(x),
        forall|j: int|
            0 <= j < insert_by_path(u, x).len() ==> (#[trigger] insert_by_path(u, x)[j] == x
                || u.contains(insert_by_path(u, x)[j])),
    decreases u.len(),
{
    broadcast use vstd::multiset::group_multiset_axioms;

    let w = insert_by_path(u, x);
    if u.len() == 0 {
        assert(w =~= u.insert(0, x));
        vstd::seq_lib::to_multiset_insert(u, 0, x);
    } else if lex_le(path_key(x), path_key(u[0])) {
        assert(w =~= u.insert(0, x));
        vstd::seq_lib::to_multiset_insert(u, 0, x);
        assert forall|i: int, j: int| 0 <= i < j < w.len() implies lex_le(
            path_key(w[i]),
            path_key(w[j]),
        ) by {
            if i == 0 {
                assert(w[j] == u[j - 1]);
                if j >= 2 {
                    assert(lex_le(path_key(u[0]), path_key(u[j - 1])));
                    lemma_lex_trans(path_key(x), path_key(u[0]), path_key(u[j - 1]));
                }
            } else {
                assert(w[i] == u[i - 1] && w[j] == u[j - 1]);
            }
        }
    } else {
        let rest = u.drop_first();
        assert forall|i: int, j: int| 0 <= i < j < rest.len() implies lex_le(
            path_key(rest[i]),
            path_key(rest[j]),
        ) by {
            assert(rest[i] == u[i + 1] && rest[j] == u[j + 1]);
        }
        lemma_insert_by_path_props(rest, x);
        let wr = insert_by_path(rest, x);
        assert(w =~= wr.insert(0, u[0]));
        vstd::seq_lib::to_multiset_insert(wr, 0, u[0]);
        assert(u =~= rest.insert(0, u[0]));
        vstd::seq_lib::to_multiset_insert(rest, 0, u[0]);
        assert(w.to_multiset() =~= u.to_multiset().insert(x));
        lemma_lex_total(path_key(x), path_key(u[0]));
        assert forall|i: int, j: int| 0 <= i < j < w.len() implies lex_le(
            path_key(w[i]),
            path_key(w[j]),
        ) by {
            if i >= 1 {
                assert(w[i] == wr[i - 1] && w[j] == wr[j - 1]);
            } else {
                assert(w[j] == wr[j - 1]);
                if wr[j - 1] == x {
                } else {
                    let k = choose|k: int| 0 <= k < rest.len() && rest[k] == wr[j - 1];
                    assert(lex_le(path_key(u[0]), path_key(u[k + 1])));
                }
            }
        }
        assert forall|j: int| 0 <= j < w.len() implies (#[trigger] w[j] == x || u.contains(
            w[j],
        )) by {
            if j == 0 {
                assert(u[0] == u[0]);
            } else {
                assert(w[j] == wr[j - 1]);
                if wr[j - 1] == x {
                } else {
                    let k = choose|k: int| 0 <= k < rest.len() && rest[k] == wr[j - 1];
                    assert(u[k + 1] == w[j]);
                }
            }
        }
    }
}

/// Ordering by path keeps the contents: the result is a path-sorted
/// permutation of the input.
pub proof fn lemma_ordered_by_path_props(v: Seq<(Seq<char>, Seq<char>)>)
    ensures
        sorted_by_path(ordered_by_path(v)),
        ordered_by_path(v).len() == v.len(),
        ordered_by_path(v).to_multiset() == v.to_multiset(),
    decreases v.len(),
{
    if v.len() > 0 {
        lemma_ordered_by_path_props(v.drop_last());
        lemma_insert_by_path_props(ordered_by_path(v.drop_last()), v.last());
        vstd::seq_lib::to_multiset_build(v.drop_last(), v.last());
        assert(v.drop_last().push(v.last()) =~= v);
    } else {
        assert(v =~= Seq::<(Seq<char>, Seq<char>)>::empty());
        assert(ordered_by_path(v) == Seq::<(Seq<char>, Seq<char>)>::empty());
    }
}

/// A single pair is already in order.
proof fn lemma_ordered_singleton(v: Seq<(Seq<char>, Seq<char>)>)
    requires
        v.len() == 1,
    ensures
        ordered_by_path(v) == v,
{
    let dl = v.drop_last();
    assert(dl.len() == 0);
    assert(ordered_by_path(dl) == Seq::<(Seq<char>, Seq<char>)>::empty());
    assert(ordered_by_path(v) == insert_by_path(ordered_by_path(dl), v.last()));
    assert(insert_by_path(ordered_by_path(dl), v.last()) == seq![v.last()]);
    assert(v =~= seq![v.last()]);
}

/// The characterization of `insert_by_path` at the position the scan
/// finds: in front of the first entry the new pair precedes.
proof fn lemma_insert_by_path_is(
    u: Seq<(Seq<char>, Seq<char>)>,
    x: (Seq<char>, Seq<char>),
    pos: int,
)
    requires
        0 <= pos <= u.len(),
        forall|j: int| 0 <= j < pos ==> !lex_le(path_key(x), path_key(#[trigger] u[j])),
        pos < u.len() ==> lex_le(path_key(x), path_key(u[pos])),
    ensures
        insert_by_path(u, x) == u.take(pos) + seq![x] + u.skip(pos),
    decreases u.len(),
{
    if pos == 0 {
        if u.len() == 0 {
            assert(insert_by_path(u, x) =~= u.take(0) + seq![x] + u.skip(0));
        } else {
            assert(seq![x] + u =~= u.take(0) + seq![x] + u.skip(0));
        }
    } else {
        let rest = u.drop_first();
        assert forall|j: int| 0 <= j < pos - 1 implies !lex_le(
            path_key(x),
            path_key(#[trigger] rest[j]),
        ) by {
            assert(rest[j] == u[j + 1]);
        }
        if pos - 1 < rest.len() {
            assert(rest[pos - 1] == u[pos]);
        }
        lemma_insert_by_path_is(rest, x, pos - 1);
        assert(seq![u[0]] + (rest.take(pos - 1) + seq![x] + rest.skip(pos - 1)) =~= u.take(pos)
            + seq![x] + u.skip(pos));
    }
}

/// Reorders the scanned (filename, directory) pairs into ascending
/// full-path order.
pub fn sort_files_by_path(v: &mut Vec<(String, String)>)
    ensures
        pair_views(final(v)@) == ordered_by_path(pair_views(old(v)@)),
{
    let ghost orig = pair_views(old(v)@);
    if v.len() <= 1 {
        proof {
            if orig.len() == 1 {
                lemma_ordered_singleton(orig);
            } else {
                assert(orig =~= Seq::<(Seq<char>, Seq<char>)>::empty());
                assert(ordered_by_path(orig) == orig);
            }
        }
        return;
    }
    let mut i: usize = 1;
    proof {
        lemma_ordered_singleton(orig.take(1));
        assert(pair_views(v@).take(1) =~= orig.take(1));
        assert(pair_views(v@).skip(1) =~= orig.skip(1));
    }
    while i < v.len()
        invariant
            1 <= i <= v.len(),
            v@.len() == old(v)@.len(),
            orig == pair_views(old(v)@),
            orig.len() == v@.len(),
            pair_views(v@).take(i as int) == ordered_by_path(orig.take(i as int)),
            pair_views(v@).skip(i as int) == orig.skip(i as int),
        decreases v.len() - i,
    {
        let ghost pre = pair_views(v@);
        let ghost sorted_prefix = pre.take(i as int);
        proof {
            lemma_ordered_by_path_props(orig.take(i as int));
            assert(pre[i as int] == pre.skip(i as int)[0]);
            assert(pre[i as int] == orig[i as int]);
        }
        let x = v.remove(i);
        let ghost xv = (x.0@, x.1@);
        let key_x = make_full_path(x.1.as_str(), x.0.as_str());
        proof {
            assert(pair_views(v@) =~= pre.remove(i as int));
            assert(xv == orig[i as int]);
        }
        let ghost mid = pair_views(v@);
        let mut pos: usize = i;
        let mut j: usize = 0;
        while j < i
            invariant
                0 <= j <= i,
                pos <= i,
                i - 1 < v@.len(),
                pair_views(v@) == mid,
                key_x@ == path_key(xv),
                pos == i ==> forall|t: int|
                    0 <= t < j ==> !lex_le(path_key(xv), path_key(#[trigger] mid[t])),
                pos < i ==> lex_le(path_key(xv), path_key(mid[pos as int])) && forall|t: int|
                    0 <= t < pos ==> !lex_le(path_key(xv), path_key(#[trigger] mid[t])),
            decreases i - j,
        {
            if pos == i {
                let key_e = make_full_path(v[j].1.as_str(), v[j].0.as_str());
                proof {
                    assert(mid[j as int] == (v[j as int].0@, v[j as int].1@));
                }
                if crate::text::str_le(key_x.as_str(), key_e.as_str()) {
                    pos = j;
                }
            }
            j += 1;
        }
        v.insert(pos, x);
        proof {
            // positions below i are the sorted prefix; remove left them alone
            assert forall|j: int| 0 <= j < i implies #[trigger] mid[j] == sorted_prefix[j] by {}
            assert(mid.take(i as int) =~= sorted_prefix);
            assert forall|j: int| 0 <= j < pos implies !lex_le(
                path_key(xv),
                path_key(#[trigger] sorted_prefix[j]),
            ) by {
                assert(mid[j] == sorted_prefix[j]);
            }
            if pos < i {
                assert(lex_le(path_key(xv), path_key(sorted_prefix[pos as int])));
            }
            lemma_insert_by_path_is(sorted_prefix, xv, pos as int);
            let now = pair_views(v@);
            assert(now =~= mid.insert(pos as int, xv));
            assert(now.take(i as int + 1) =~= sorted_prefix.take(pos as int) + seq![
                xv,
            ] + sorted_prefix.skip(pos as int));
            assert(orig.take(i as int + 1).drop_last() =~= orig.take(i as int));
            assert(orig.take(i as int + 1).last() == orig[i as int]);
            assert(now.take(i as int + 1) == ordered_by_path(orig.take(i as int + 1)));
            assert forall|t: int| 0 <= t < now.skip(i as int + 1).len() implies #[trigger] now.skip(
                i as int + 1,
            )[t] == orig.skip(i as int + 1)[t] by {
                assert(now[i + 1 + t] == mid[i + t]);
                assert(mid[i + t] == pre[i + 1 + t]);
                assert(pre.skip(i as int)[1 + t] == orig.skip(i as int)[1 + t]);
            }
            assert(now.skip(i as int + 1) =~= orig.skip(i as int + 1));
        }
        i += 1;
    }
    proof {
        assert(pair_views(v@).take(v@.len() as int) =~= pair_views(v@));
        assert(orig.take(orig.len() as int) =~= orig);
    }
}

} // verus!
