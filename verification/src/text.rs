//! Character-sequence primitives shared across the crate: splitting a
//! string on a separator, joining tokens back, trimming whitespace,
//! lexicographic ordering, and rendering decimal numbers.

use vstd::prelude::*;

verus! {

// ---------------------------------------------------------------------
// Finding and counting separators
// ---------------------------------------------------------------------

/// Index of the first occurrence of `sep` in `s`, or `s.len()` if none.
pub open spec fn first_sep(s: Seq<char>, sep: char) -> int
    decreases s.len(),
{
    if s.len() == 0 {
        0
    } else if s[0] == sep {
        0
    } else {
        1 + first_sep(s.drop_first(), sep)
    }
}

pub proof fn lemma_first_sep_bounds(s: Seq<char>, sep: char)
    ensures
        0 <= first_sep(s, sep) <= s.len(),
        first_sep(s, sep) < s.len() ==> s[first_sep(s, sep)] == sep,
        forall|j: int| 0 <= j < first_sep(s, sep) ==> s[j] != sep,
    decreases s.len(),
{
    if s.len() == 0 {
    } else if s[0] == sep {
    } else {
        lemma_first_sep_bounds(s.drop_first(), sep);
        assert forall|j: int| 0 <= j < first_sep(s, sep) implies s[j] != sep by {
            if j >= 1 {
                assert(s.drop_first()[j - 1] == s[j]);
            }
        }
    }
}

/// `first_sep` is pinned by its direct characterization: no separator
/// before `i`, and `i` is a separator position or the end.
pub proof fn lemma_first_sep_is(s: Seq<char>, sep: char, i: int)
    requires
        0 <= i <= s.len(),
        forall|j: int| 0 <= j < i ==> s[j] != sep,
        i == s.len() || s[i] == sep,
    ensures
        first_sep(s, sep) == i,
    decreases s.len(),
{
    if s.len() == 0 {
    } else if s[0] == sep {
        assert(i == 0);
    } else {
        assert(s[0] != sep);
        assert(i >= 1);
        assert forall|j: int| 0 <= j < i - 1 implies s.drop_first()[j] != sep by {
            assert(s.drop_first()[j] == s[j + 1]);
        }
        if i < s.len() {
            assert(s.drop_first()[i - 1] == s[i]);
        }
        lemma_first_sep_is(s.drop_first(), sep, i - 1);
    }
}

/// How many times `sep` occurs in `s`.
pub open spec fn sep_count(s: Seq<char>, sep: char) -> nat
    decreases s.len(),
{
    if s.len() == 0 {
        0
    } else {
        (if s[0] == sep {
            1nat
        } else {
            0nat
        }) + sep_count(s.drop_first(), sep)
    }
}

/// Splitting off everything up to and past the first separator removes
/// exactly one occurrence from the count.
pub proof fn lemma_sep_count_split(s: Seq<char>, sep: char)
    requires
        first_sep(s, sep) < s.len(),
    ensures
        sep_count(s, sep) == 1 + sep_count(s.skip(first_sep(s, sep) + 1), sep),
    decreases s.len(),
{
    lemma_first_sep_bounds(s, sep);
    if s[0] == sep {
        assert(s.skip(1) =~= s.drop_first());
    } else {
        lemma_first_sep_bounds(s.drop_first(), sep);
        lemma_sep_count_split(s.drop_first(), sep);
        assert(s.drop_first().skip(first_sep(s, sep)) =~= s.skip(first_sep(s, sep) + 1));
    }
}

// ---------------------------------------------------------------------
// Splitting and joining
// ---------------------------------------------------------------------

/// The tokens of `s`, split on `sep`.  Splitting never yields an empty
/// list: a string without the separator is a single token.
pub open spec fn split_on(s: Seq<char>, sep: char) -> Seq<Seq<char>>
    decreases s.len(),
{
    let i = first_sep(s, sep);
    if 0 <= i < s.len() {
        seq![s.take(i)] + split_on(s.skip(i + 1), sep)
    } else {
        seq![s]
    }
}

/// There is one more token than there are separators.
pub proof fn lemma_split_on_len(s: Seq<char>, sep: char)
    ensures
        split_on(s, sep).len() == sep_count(s, sep) + 1,
    decreases s.len(),
{
    let i = first_sep(s, sep);
    lemma_first_sep_bounds(s, sep);
    if 0 <= i < s.len() {
        lemma_sep_count_split(s, sep);
        lemma_split_on_len(s.skip(i + 1), sep);
    } else {
        lemma_sep_count_none(s, sep);
    }
}

proof fn lemma_sep_count_none(s: Seq<char>, sep: char)
    requires
        forall|j: int| 0 <= j < s.len() ==> s[j] != sep,
    ensures
        sep_count(s, sep) == 0,
    decreases s.len(),
{
    if s.len() > 0 {
        assert forall|j: int| 0 <= j < s.drop_first().len() implies s.drop_first()[j] != sep by {
            assert(s.drop_first()[j] == s[j + 1]);
        }
        lemma_sep_count_none(s.drop_first(), sep);
    }
}

/// Tokens joined with a single `sep` between consecutive tokens.
pub open spec fn join(parts: Seq<Seq<char>>, sep: char) -> Seq<char>
    decreases parts.len(),
{
    if parts.len() == 0 {
        Seq::empty()
    } else if parts.len() == 1 {
        parts[0]
    } else {
        parts[0] + seq![sep] + join(parts.drop_first(), sep)
    }
}

/// Appending one more token to a join appends a separator and the token.
pub proof fn lemma_join_push(parts: Seq<Seq<char>>, sep: char, t: Seq<char>)
    ensures
        parts.len() == 0 ==> join(parts.push(t), sep) == t,
        parts.len() > 0 ==> join(parts.push(t), sep) == join(parts, sep) + seq![sep] + t,
    decreases parts.len(),
{
    if parts.len() == 0 {
        assert(join(parts.push(t), sep) == parts.push(t)[0]);
        assert(parts.push(t)[0] == t);
    } else {
        assert(parts.push(t).drop_first() =~= parts.drop_first().push(t));
        lemma_join_push(parts.drop_first(), sep, t);
        if parts.len() == 1 {
            assert(join(parts.push(t), sep) == parts[0] + seq![sep] + join(
                parts.drop_first().push(t),
                sep,
            ));
            assert(join(parts.drop_first().push(t), sep) == t);
        } else {
            assert(join(parts, sep) + seq![sep] + t =~= parts[0] + seq![sep] + (join(
                parts.drop_first(),
                sep,
            ) + seq![sep] + t));
        }
    }
}

// ---------------------------------------------------------------------
// Whitespace trimming
// ---------------------------------------------------------------------

/// The whitespace characters this crate strips from manifest fields:
/// space, tab, carriage return and line feed.  Other unicode whitespace
/// forms are not stripped; manifest fields are taken to use only these.
pub open spec fn is_space(c: char) -> bool {
    c == ' ' || c == '\t' || c == '\r' || c == '\n'
}

pub open spec fn trim_front(s: Seq<char>) -> Seq<char>
    decreases s.len(),
{
    if s.len() > 0 && is_space(s[0]) {
        trim_front(s.drop_first())
    } else {
        s
    }
}

pub open spec fn trim_back(s: Seq<char>) -> Seq<char>
    decreases s.len(),
{
    if s.len() > 0 && is_space(s.last()) {
        trim_back(s.drop_last())
    } else {
        s
    }
}

/// `s` without leading and trailing whitespace.
pub open spec fn trimmed(s: Seq<char>) -> Seq<char> {
    trim_back(trim_front(s))
}

proof fn lemma_trim_front_is(s: Seq<char>, a: int)
    requires
        0 <= a <= s.len(),
        forall|j: int| 0 <= j < a ==> is_space(s[j]),
        a == s.len() || !is_space(s[a]),
    ensures
        trim_front(s) == s.skip(a),
    decreases s.len(),
{
    if a == 0 {
        assert(s.skip(0) =~= s);
    } else {
        assert(is_space(s[0]));
        assert forall|j: int| 0 <= j < a - 1 implies is_space(s.drop_first()[j]) by {
            assert(s.drop_first()[j] == s[j + 1]);
        }
        if a < s.len() {
            assert(s.drop_first()[a - 1] == s[a]);
        }
        lemma_trim_front_is(s.drop_first(), a - 1);
        assert(s.drop_first().skip(a - 1) =~= s.skip(a));
    }
}

proof fn lemma_trim_back_is(s: Seq<char>, b: int)
    requires
        0 <= b <= s.len(),
        forall|j: int| b <= j < s.len() ==> is_space(s[j]),
        b == 0 || !is_space(s[b - 1]),
    ensures
        trim_back(s) == s.take(b),
    decreases s.len(),
{
    if b == s.len() {
        assert(s.take(b) =~= s);
    } else {
        assert(is_space(s.last()));
        lemma_trim_back_is(s.drop_last(), b);
        assert(s.drop_last().take(b) =~= s.take(b));
    }
}

/// `s` with this crate's whitespace characters removed from both ends.
pub fn trimmed_str(s: &str) -> (r: &str)
    ensures
        r@ == trimmed(s@),
{
    let n = s.unicode_len();
    let mut a: usize = 0;
    while a < n && is_space_exec(s.get_char(a))
        invariant
            0 <= a <= n,
            n == s@.len(),
            forall|j: int| 0 <= j < a ==> is_space(s@[j]),
        decreases n - a,
    {
        a += 1;
    }
    proof {
        lemma_trim_front_is(s@, a as int);
    }
    let mut b: usize = n;
    while b > a && is_space_exec(s.get_char(b - 1))
        invariant
            a <= b <= n,
            n == s@.len(),
            forall|j: int| b <= j < n ==> is_space(s@[j]),
        decreases b,
    {
        b -= 1;
    }
    proof {
        let front = s@.skip(a as int);
        assert forall|j: int| b - a <= j < front.len() implies is_space(front[j]) by {
            assert(front[j] == s@[j + a]);
        }
        if b > a {
            assert(front[b - a - 1] == s@[b - 1]);
            assert(!is_space(front[b - a - 1]));
        }
        lemma_trim_back_is(front, b - a);
        assert(front.take(b - a) =~= s@.subrange(a as int, b as int));
    }
    s.substring_char(a, b)
}

fn is_space_exec(c: char) -> (r: bool)
    ensures
        r == is_space(c),
{
    c == ' ' || c == '\t' || c == '\r' || c == '\n'
}

// ---------------------------------------------------------------------
// Lexicographic order on character sequences
// ---------------------------------------------------------------------

/// Lexicographic order over unicode scalar values: the order in which
/// lane files are concatenated.
pub open spec fn lex_le(a: Seq<char>, b: Seq<char>) -> bool
    decreases a.len(),
{
    if a.len() == 0 {
        true
    } else if b.len() == 0 {
        false
    } else if a[0] != b[0] {
        a[0] < b[0]
    } else {
        lex_le(a.drop_first(), b.drop_first())
    }
}

/// Any two sequences are ordered one way or the other.
pub proof fn lemma_lex_total(a: Seq<char>, b: Seq<char>)
    ensures
        lex_le(a, b) || lex_le(b, a),
    decreases a.len(),
{
    if a.len() > 0 && b.len() > 0 && a[0] == b[0] {
        lemma_lex_total(a.drop_first(), b.drop_first());
    }
}

/// The order is transitive.
pub proof fn lemma_lex_trans(a: Seq<char>, b: Seq<char>, c: Seq<char>)
    requires
        lex_le(a, b),
        lex_le(b, c),
    ensures
        lex_le(a, c),
    decreases a.len(),
{
    if a.len() > 0 && b.len() > 0 && c.len() > 0 && a[0] == b[0] && b[0] == c[0] {
        lemma_lex_trans(a.drop_first(), b.drop_first(), c.drop_first());
    }
}

/// Whether `a` precedes or equals `b` in lexicographic order.
pub fn str_le(a: &str, b: &str) -> (r: bool)
    ensures
        r == lex_le(a@, b@),
{
    let na = a.unicode_len();
    let nb = b.unicode_len();
    let mut i: usize = 0;
    proof {
        assert(a@.skip(0) =~= a@);
        assert(b@.skip(0) =~= b@);
    }
    loop
        invariant
            0 <= i <= na,
            i <= nb,
            na == a@.len(),
            nb == b@.len(),
            forall|j: int| 0 <= j < i ==> a@[j] == b@[j],
            lex_le(a@, b@) == lex_le(a@.skip(i as int), b@.skip(i as int)),
        decreases na - i,
    {
        if i >= na {
            return true;
        }
        if i >= nb {
            return false;
        }
        let ca = a.get_char(i);
        let cb = b.get_char(i);
        if ca != cb {
            return ca < cb;
        }
        proof {
            assert(a@.skip(i as int).drop_first() =~= a@.skip(i as int + 1));
            assert(b@.skip(i as int).drop_first() =~= b@.skip(i as int + 1));
        }
        i += 1;
    }
}

// ---------------------------------------------------------------------
// Exec scanning helpers
// ---------------------------------------------------------------------

/// First position of `c` in `s` at or after `from`, or the length of
/// `s` if there is none.
pub fn find_from(s: &str, from: usize, c: char) -> (r: usize)
    requires
        from <= s@.len(),
    ensures
        from <= r <= s@.len(),
        forall|j: int| from <= j < r ==> s@[j] != c,
        r < s@.len() ==> s@[r as int] == c,
{
    let n = s.unicode_len();
    let mut i: usize = from;
    while i < n
        invariant
            from <= i <= n,
            n == s@.len(),
            forall|j: int| from <= j < i ==> s@[j] != c,
        decreases n - i,
    {
        if s.get_char(i) == c {
            return i;
        }
        i += 1;
    }
    n
}

/// Whether `s` splits into strictly more than `len` tokens on `sep`.
pub fn tokens_exceed(s: &str, sep: char, len: usize) -> (r: bool)
    ensures
        r == (split_on(s@, sep).len() > len),
{
    proof {
        lemma_split_on_len(s@, sep);
    }
    let n = s.unicode_len();
    let mut count: usize = 0;
    let mut i: usize = 0;
    proof {
        assert(s@.skip(0) =~= s@);
    }
    while i < n
        invariant
            0 <= i <= n,
            n == s@.len(),
            count <= i,
            count + sep_count(s@.skip(i as int), sep) == sep_count(s@, sep),
        decreases n - i,
    {
        proof {
            assert(s@.skip(i as int).drop_first() =~= s@.skip(i as int + 1));
            assert(s@.skip(i as int)[0] == s@[i as int]);
        }
        if s.get_char(i) == sep {
            proof {
                assert(sep_count(s@.skip(i as int), sep) == 1 + sep_count(
                    s@.skip(i as int + 1),
                    sep,
                ));
            }
            count += 1;
            if count >= len {
                proof {
                    assert(sep_count(s@, sep) >= count);
                    lemma_split_on_len(s@, sep);
                    assert(split_on(s@, sep).len() > len);
                }
                return true;
            }
        }
        i += 1;
    }
    proof {
        assert(s@.skip(n as int) =~= Seq::<char>::empty());
    }
    count >= len
}

// ---------------------------------------------------------------------
// Paths
// ---------------------------------------------------------------------

/// A directory path, a slash, and a filename.
pub open spec fn full_path_of(dir: Seq<char>, fname: Seq<char>) -> Seq<char> {
    dir + seq!['/'] + fname
}

/// `{dir}/{fname}` as one string.
pub fn make_full_path(dir: &str, fname: &str) -> (r: String)
    ensures
        r@ == full_path_of(dir@, fname@),
{
    let mut out = String::new();
    out.append(dir);
    push_char(&mut out, '/');
    out.append(fname);
    out
}

// ---------------------------------------------------------------------
// String building
// ---------------------------------------------------------------------

/// Relies on `String::push` from std: appends exactly one character.
#[verifier::external_body]
pub fn push_char(s: &mut String, c: char)
    ensures
        final(s)@ == old(s)@ + seq![c],
{
    s.push(c);
}

/// The decimal digit character for a value below ten.
pub open spec fn digit_char(n: int) -> char {
    if n == 0 {
        '0'
    } else if n == 1 {
        '1'
    } else if n == 2 {
        '2'
    } else if n == 3 {
        '3'
    } else if n == 4 {
        '4'
    } else if n == 5 {
        '5'
    } else if n == 6 {
        '6'
    } else if n == 7 {
        '7'
    } else if n == 8 {
        '8'
    } else {
        '9'
    }
}

/// The decimal rendering of `n`, most significant digit first.
pub open spec fn dec_digits(n: int) -> Seq<char>
    decreases n,
{
    if n < 10 {
        seq![digit_char(n)]
    } else {
        dec_digits(n / 10).push(digit_char(n % 10))
    }
}

fn digit_to_char(d: u64) -> (c: char)
    requires
        d < 10,
    ensures
        c == digit_char(d as int),
{
    if d == 0 {
        '0'
    } else if d == 1 {
        '1'
    } else if d == 2 {
        '2'
    } else if d == 3 {
        '3'
    } else if d == 4 {
        '4'
    } else if d == 5 {
        '5'
    } else if d == 6 {
        '6'
    } else if d == 7 {
        '7'
    } else if d == 8 {
        '8'
    } else {
        '9'
    }
}

/// Appends the decimal rendering of `n` to `out`.
pub fn push_decimal(out: &mut String, n: u64)
    ensures
        final(out)@ == old(out)@ + dec_digits(n as int),
    decreases n,
{
    if n >= 10 {
        push_decimal(out, n / 10);
    }
    let c = digit_to_char(n % 10);
    push_char(out, c);
    proof {
        let prefix = old(out)@;
        if n < 10 {
            assert(dec_digits(n as int) =~= seq![digit_char(n as int)]);
        } else {
            assert(prefix + dec_digits(n as int / 10) + seq![digit_char(n as int % 10)] =~= prefix
                + dec_digits(n as int));
        }
    }
}

} // verus!
