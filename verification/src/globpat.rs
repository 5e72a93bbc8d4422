//! The candidate filter for a sample's directory: a filename is a
//! candidate lane file for a sample when it starts with the sample's
//! identifier and then carries `.f` and, at least two positions later,
//! `.g` — the pattern `{identifier}*.f*.g*` matched case-sensitively
//! against the file's name.

use vstd::prelude::*;

verus! {

/// A dot followed by `c` at position `a`.
pub open spec fn dot_mark_at(f: Seq<char>, a: int, c: char) -> bool {
    &&& 0 <= a
    &&& a + 2 <= f.len()
    &&& f[a] == '.'
    &&& f[a + 1] == c
}

/// The filename matches `{id}*.f*.g*`.
pub open spec fn glob_match(id: Seq<char>, f: Seq<char>) -> bool {
    &&& id.len() <= f.len()
    &&& f.take(id.len() as int) == id
    &&& exists|a: int, b: int|
        {
            &&& id.len() <= a
            &&& a + 2 <= b
            &&& dot_mark_at(f, a, 'f')
            &&& dot_mark_at(f, b, 'g')
        }
}

/// First position at or after `from` where a dot directly followed by
/// `c` stands, or the length of `f` if there is none.
fn find_dot_mark(f: &str, from: usize, c: char) -> (r: usize)
    requires
        from <= f@.len(),
    ensures
        from <= r <= f@.len(),
        r + 2 <= f@.len() ==> (forall|t: int| from <= t < r ==> !dot_mark_at(f@, t, c)),
        r < f@.len() ==> dot_mark_at(f@, r as int, c),
        r == f@.len() ==> (forall|t: int| from <= t ==> !dot_mark_at(f@, t, c)),
{
    let n = f.unicode_len();
    if n < 2 {
        assert forall|t: int| from <= t implies !dot_mark_at(f@, t, c) by {}
        return n;
    }
    let mut j: usize = from;
    while j <= n - 2
        invariant
            from <= j,
            n == f@.len(),
            n >= 2,
            forall|t: int| from <= t < j ==> !dot_mark_at(f@, t, c),
        decreases n - j,
    {
        if f.get_char(j) == '.' && f.get_char(j + 1) == c {
            assert(dot_mark_at(f@, j as int, c));
            return j;
        }
        j += 1;
    }
    assert forall|t: int| from <= t implies !dot_mark_at(f@, t, c) by {
        if t < j {
        } else {
            assert(t > n - 2);
        }
    }
    n
}

/// Whether `fname` is a candidate lane file for the sample `id`:
/// the executable form of `glob_match`.
pub fn matches_sample_glob(id: &str, fname: &str) -> (r: bool)
    ensures
        r == glob_match(id@, fname@),
{
    let idn = id.unicode_len();
    let n = fname.unicode_len();
    if idn > n {
        return false;
    }
    let mut i: usize = 0;
    while i < idn
        invariant
            0 <= i <= idn,
            idn == id@.len(),
            n == fname@.len(),
            idn <= n,
            forall|j: int| 0 <= j < i ==> fname@[j] == id@[j],
        decreases idn - i,
    {
        if fname.get_char(i) != id.get_char(i) {
            proof {
                assert(fname@.take(idn as int)[i as int] != id@[i as int]);
            }
            return false;
        }
        i += 1;
    }
    proof {
        assert(fname@.take(idn as int) =~= id@);
    }
    let a = find_dot_mark(fname, idn, 'f');
    if a >= n {
        proof {
            assert forall|t: int, u: int|
                !(id@.len() <= t && t + 2 <= u && dot_mark_at(fname@, t, 'f') && dot_mark_at(
                    fname@,
                    u,
                    'g',
                )) by {
                if id@.len() <= t && dot_mark_at(fname@, t, 'f') {
                    assert(!dot_mark_at(fname@, t, 'f'));
                }
            }
        }
        return false;
    }
    let b = find_dot_mark(fname, a + 2, 'g');
    if b >= n {
        proof {
            assert forall|t: int, u: int|
                !(id@.len() <= t && t + 2 <= u && dot_mark_at(fname@, t, 'f') && dot_mark_at(
                    fname@,
                    u,
                    'g',
                )) by {
                if id@.len() <= t && t + 2 <= u && dot_mark_at(fname@, t, 'f') && dot_mark_at(
                    fname@,
                    u,
                    'g',
                ) {
                    // the scan found no `.f` before `a`, so `t` is at or
                    // past `a`, and `u` lies in the scanned `.g` range
                    assert(t >= a);
                    assert(u >= a + 2);
                    assert(!dot_mark_at(fname@, u, 'g'));
                }
            }
        }
        return false;
    }
    proof {
        assert(dot_mark_at(fname@, a as int, 'f'));
        assert(dot_mark_at(fname@, b as int, 'g'));
        assert(id@.len() <= a as int && a as int + 2 <= b as int);
    }
    true
}

} // verus!
