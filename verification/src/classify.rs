//! Filename classification: the grammar that decides whether a filename
//! denotes a lane/read-tagged compressed sequencing file, and which read
//! direction it carries.
//!
//! Two predicates are in play.  The read-direction predicate, used when
//! lanes are concatenated, looks for an underscore or hyphen, then `read`
//! or `r` in any letter case, then the direction digit, with `gz`
//! appearing anywhere later in the name.  The discovery predicate, used
//! when the sample registry is built, additionally requires a lane
//! marker — underscore or hyphen, then `lane` or `l` in any letter case,
//! then exactly three digits — immediately before a read marker whose
//! digit is 1 or 2.  Both phases share these definitions, so every file
//! the discovery filter accepts is classified Read-1 or Read-2 when
//! lanes are concatenated.

use vstd::prelude::*;

verus! {

/// The characters accepted before a marker: underscore or hyphen.
pub open spec fn is_dash_sep(c: char) -> bool {
    c == '_' || c == '-'
}

/// Letter-case-insensitive match of one character.
pub open spec fn eq_ci(c: char, lo: char, up: char) -> bool {
    c == lo || c == up
}

/// An ASCII decimal digit.
pub open spec fn is_digit(c: char) -> bool {
    '0' <= c && c <= '9'
}

/// The long read marker `(_|-)read<d>` (case-insensitive `read`) at `i`.
pub open spec fn read_long_at(s: Seq<char>, i: int, d: char) -> bool {
    &&& 0 <= i
    &&& i + 6 <= s.len()
    &&& is_dash_sep(s[i])
    &&& eq_ci(s[i + 1], 'r', 'R')
    &&& eq_ci(s[i + 2], 'e', 'E')
    &&& eq_ci(s[i + 3], 'a', 'A')
    &&& eq_ci(s[i + 4], 'd', 'D')
    &&& s[i + 5] == d
}

/// The short read marker `(_|-)r<d>` (case-insensitive `r`) at `i`.
pub open spec fn read_short_at(s: Seq<char>, i: int, d: char) -> bool {
    &&& 0 <= i
    &&& i + 3 <= s.len()
    &&& is_dash_sep(s[i])
    &&& eq_ci(s[i + 1], 'r', 'R')
    &&& s[i + 2] == d
}

/// The literal `gz` at position `j`.
pub open spec fn gz_at(s: Seq<char>, j: int) -> bool {
    &&& 0 <= j
    &&& j + 2 <= s.len()
    &&& s[j] == 'g'
    &&& s[j + 1] == 'z'
}

/// `gz` occurs at or after position `k`.
pub open spec fn gz_from(s: Seq<char>, k: int) -> bool {
    exists|j: int| k <= j && gz_at(s, j)
}

/// A read marker with digit `d` at `i`, followed somewhere by `gz`.
pub open spec fn read_dir_at(s: Seq<char>, i: int, d: char) -> bool {
    ||| (read_long_at(s, i, d) && gz_from(s, i + 6))
    ||| (read_short_at(s, i, d) && gz_from(s, i + 3))
}

/// The read-direction predicate: some position carries a read marker
/// with digit `d` and a later `gz`.
pub open spec fn read_match(s: Seq<char>, d: char) -> bool {
    exists|i: int| read_dir_at(s, i, d)
}

/// The filename is classified Read-1.
pub open spec fn is_read1(s: Seq<char>) -> bool {
    read_match(s, '1')
}

/// The filename is classified Read-2.
pub open spec fn is_read2(s: Seq<char>) -> bool {
    read_match(s, '2')
}

/// The long lane marker `(_|-)lane<ddd>` (case-insensitive `lane`) at `i`.
pub open spec fn lane_long_at(s: Seq<char>, i: int) -> bool {
    &&& 0 <= i
    &&& i + 8 <= s.len()
    &&& is_dash_sep(s[i])
    &&& eq_ci(s[i + 1], 'l', 'L')
    &&& eq_ci(s[i + 2], 'a', 'A')
    &&& eq_ci(s[i + 3], 'n', 'N')
    &&& eq_ci(s[i + 4], 'e', 'E')
    &&& is_digit(s[i + 5])
    &&& is_digit(s[i + 6])
    &&& is_digit(s[i + 7])
}

/// The short lane marker `(_|-)l<ddd>` (case-insensitive `l`) at `i`.
pub open spec fn lane_short_at(s: Seq<char>, i: int) -> bool {
    &&& 0 <= i
    &&& i + 5 <= s.len()
    &&& is_dash_sep(s[i])
    &&& eq_ci(s[i + 1], 'l', 'L')
    &&& is_digit(s[i + 2])
    &&& is_digit(s[i + 3])
    &&& is_digit(s[i + 4])
}

/// A lane marker at `i` immediately followed by a read marker whose
/// digit `d` is 1 or 2, with `gz` somewhere after the read marker.
pub open spec fn discovery_at(s: Seq<char>, i: int, d: char) -> bool {
    &&& (d == '1' || d == '2')
    &&& {
        ||| (lane_long_at(s, i) && read_dir_at(s, i + 8, d))
        ||| (lane_short_at(s, i) && read_dir_at(s, i + 5, d))
    }
}

/// The discovery filter accepts the filename with read digit `d`.
pub open spec fn matches_discovery_digit(s: Seq<char>, d: char) -> bool {
    exists|i: int| discovery_at(s, i, d)
}

/// The discovery filter accepts the filename: a lane marker directly
/// precedes a read marker with digit 1 or 2, and `gz` follows.
pub open spec fn matches_discovery(s: Seq<char>) -> bool {
    exists|d: char| matches_discovery_digit(s, d)
}

// ---------------------------------------------------------------------
// Cross-consistency of discovery and read classification
// ---------------------------------------------------------------------

/// Every filename the discovery filter accepts with read digit `d` is
/// also accepted by the read-direction predicate for `d`: a file the
/// registry builder records with digit 1 or 2 is never missed by
/// concatenation-time classification.
pub proof fn lemma_discovery_digit_agrees(s: Seq<char>, d: char)
    requires
        matches_discovery_digit(s, d),
    ensures
        read_match(s, d),
{
    let i = choose|i: int| discovery_at(s, i, d);
    if lane_long_at(s, i) && read_dir_at(s, i + 8, d) {
        assert(read_dir_at(s, i + 8, d));
    } else {
        assert(read_dir_at(s, i + 5, d));
    }
}

/// Cross-consistency of the two phases: every filename the discovery
/// filter accepts is classified Read-1 or Read-2 at concatenation time.
pub proof fn lemma_discovery_classified(s: Seq<char>)
    requires
        matches_discovery(s),
    ensures
        is_read1(s) || is_read2(s),
{
    let d = choose|d: char| matches_discovery_digit(s, d);
    let i = choose|i: int| discovery_at(s, i, d);
    assert(d == '1' || d == '2');
    lemma_discovery_digit_agrees(s, d);
}

// ---------------------------------------------------------------------
// Executable matchers
// ---------------------------------------------------------------------

fn is_dash_sep_exec(c: char) -> (r: bool)
    ensures
        r == is_dash_sep(c),
{
    c == '_' || c == '-'
}

fn eq_ci_exec(c: char, lo: char, up: char) -> (r: bool)
    ensures
        r == eq_ci(c, lo, up),
{
    c == lo || c == up
}

fn is_digit_exec(c: char) -> (r: bool)
    ensures
        r == is_digit(c),
{
    '0' <= c && c <= '9'
}

/// Whether `gz` occurs in `s` at or after position `k`.
fn has_gz_from(s: &str, k: usize) -> (r: bool)
    ensures
        r == gz_from(s@, k as int),
{
    let n = s.unicode_len();
    if n < 2 {
        return false;
    }
    let mut j: usize = k;
    while j <= n - 2
        invariant
            k <= j,
            n == s@.len(),
            n >= 2,
            forall|t: int| k <= t < j ==> !gz_at(s@, t),
        decreases n - j,
    {
        if s.get_char(j) == 'g' && s.get_char(j + 1) == 'z' {
            assert(gz_at(s@, j as int));
            return true;
        }
        j += 1;
    }
    assert forall|t: int| k <= t implies !gz_at(s@, t) by {
        if t < j {
        } else {
            assert(t > n - 2);
        }
    }
    false
}

/// Whether a read marker with digit `d` and a later `gz` stands at `i`.
fn read_dir_at_exec(s: &str, i: usize, d: char) -> (r: bool)
    requires
        i < s@.len(),
    ensures
        r == read_dir_at(s@, i as int, d),
{
    let n = s.unicode_len();
    let long_marker = n - i >= 6 && is_dash_sep_exec(s.get_char(i)) && eq_ci_exec(
        s.get_char(i + 1),
        'r',
        'R',
    ) && eq_ci_exec(s.get_char(i + 2), 'e', 'E') && eq_ci_exec(s.get_char(i + 3), 'a', 'A')
        && eq_ci_exec(s.get_char(i + 4), 'd', 'D') && s.get_char(i + 5) == d;
    if long_marker && has_gz_from(s, i + 6) {
        return true;
    }
    let short_marker = n - i >= 3 && is_dash_sep_exec(s.get_char(i)) && eq_ci_exec(
        s.get_char(i + 1),
        'r',
        'R',
    ) && s.get_char(i + 2) == d;
    if short_marker && has_gz_from(s, i + 3) {
        return true;
    }
    false
}

/// Whether the read-direction predicate with digit `d` accepts `s`.
pub fn matches_read_digit(s: &str, d: char) -> (r: bool)
    ensures
        r == read_match(s@, d),
{
    let n = s.unicode_len();
    let mut i: usize = 0;
    while i < n
        invariant
            0 <= i <= n,
            n == s@.len(),
            forall|t: int| 0 <= t < i ==> !read_dir_at(s@, t, d),
        decreases n - i,
    {
        if read_dir_at_exec(s, i, d) {
            return true;
        }
        i += 1;
    }
    false
}

/// Whether the filename is classified Read-1.
pub fn matches_read1(s: &str) -> (r: bool)
    ensures
        r == is_read1(s@),
{
    matches_read_digit(s, '1')
}

/// Whether the filename is classified Read-2.
pub fn matches_read2(s: &str) -> (r: bool)
    ensures
        r == is_read2(s@),
{
    matches_read_digit(s, '2')
}

/// Whether a read marker with digit 1 or 2 and a later `gz` stands
/// at `m`.
fn read_dir_12_at_exec(s: &str, m: usize) -> (r: bool)
    requires
        m < s@.len(),
    ensures
        r == exists|d: char| (d == '1' || d == '2') && read_dir_at(s@, m as int, d),
{
    if read_dir_at_exec(s, m, '1') {
        assert(read_dir_at(s@, m as int, '1'));
        return true;
    }
    if read_dir_at_exec(s, m, '2') {
        assert(read_dir_at(s@, m as int, '2'));
        return true;
    }
    proof {
        assert forall|d: char| (d == '1' || d == '2') implies !read_dir_at(s@, m as int, d) by {}
    }
    false
}

/// Whether the discovery filter accepts the filename.
pub fn matches_lane_read(s: &str) -> (r: bool)
    ensures
        r == matches_discovery(s@),
{
    let n = s.unicode_len();
    let mut i: usize = 0;
    while i < n
        invariant
            0 <= i <= n,
            n == s@.len(),
            forall|d: char, t: int| 0 <= t < i ==> !discovery_at(s@, t, d),
        decreases n - i,
    {
        let lane_long = n - i >= 8 && is_dash_sep_exec(s.get_char(i)) && eq_ci_exec(
            s.get_char(i + 1),
            'l',
            'L',
        ) && eq_ci_exec(s.get_char(i + 2), 'a', 'A') && eq_ci_exec(s.get_char(i + 3), 'n', 'N')
            && eq_ci_exec(s.get_char(i + 4), 'e', 'E') && is_digit_exec(s.get_char(i + 5))
            && is_digit_exec(s.get_char(i + 6)) && is_digit_exec(s.get_char(i + 7));
        if lane_long && i + 8 < n && read_dir_12_at_exec(s, i + 8) {
            proof {
                if read_dir_at(s@, i + 8, '1') {
                    assert(discovery_at(s@, i as int, '1'));
                    assert(matches_discovery_digit(s@, '1'));
                } else {
                    assert(read_dir_at(s@, i + 8, '2'));
                    assert(discovery_at(s@, i as int, '2'));
                    assert(matches_discovery_digit(s@, '2'));
                }
            }
            return true;
        }
        let lane_short = n - i >= 5 && is_dash_sep_exec(s.get_char(i)) && eq_ci_exec(
            s.get_char(i + 1),
            'l',
            'L',
        ) && is_digit_exec(s.get_char(i + 2)) && is_digit_exec(s.get_char(i + 3)) && is_digit_exec(
            s.get_char(i + 4),
        );
        if lane_short && i + 5 < n && read_dir_12_at_exec(s, i + 5) {
            proof {
                if read_dir_at(s@, i + 5, '1') {
                    assert(discovery_at(s@, i as int, '1'));
                    assert(matches_discovery_digit(s@, '1'));
                } else {
                    assert(read_dir_at(s@, i + 5, '2'));
                    assert(discovery_at(s@, i as int, '2'));
                    assert(matches_discovery_digit(s@, '2'));
                }
            }
            return true;
        }
        proof {
            assert forall|d: char| !discovery_at(s@, i as int, d) by {
                if discovery_at(s@, i as int, d) {
                    if lane_long_at(s@, i as int) && read_dir_at(s@, i + 8, d) {
                        assert(i + 8 + 3 <= n);
                        assert(is_digit(d) && read_dir_at(s@, i + 8, d));
                    } else {
                        assert(lane_short_at(s@, i as int) && read_dir_at(s@, i + 5, d));
                        assert(i + 5 + 3 <= n);
                        assert(is_digit(d) && read_dir_at(s@, i + 5, d));
                    }
                }
            }
        }
        i += 1;
    }
    false
}

} // verus!
