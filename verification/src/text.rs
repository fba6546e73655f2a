//! Character-level string helpers shared by the launcher's modules.
//!
//! Strings are modelled by their view, a `Seq<char>`. Executable code works on
//! `Vec<char>` copies of the strings and turns the results back into `String`s.
use vstd::prelude::*;

verus! {

// ---------------------------------------------------------------------------
// Whitespace and trimming
// ---------------------------------------------------------------------------

/// The Unicode `White_Space` property, which is what `char::is_whitespace` tests.
pub open spec fn is_ws(c: char) -> bool {
    ||| ('\u{9}' <= c && c <= '\u{d}')
    ||| c == ' '
    ||| c == '\u{85}'
    ||| c == '\u{a0}'
    ||| c == '\u{1680}'
    ||| ('\u{2000}' <= c && c <= '\u{200a}')
    ||| c == '\u{2028}'
    ||| c == '\u{2029}'
    ||| c == '\u{202f}'
    ||| c == '\u{205f}'
    ||| c == '\u{3000}'
}

/// Whether `c` has the Unicode `White_Space` property.
pub fn is_whitespace(c: char) -> (b: bool)
    ensures
        b == is_ws(c),
{
    ('\u{9}' <= c && c <= '\u{d}') || c == ' ' || c == '\u{85}' || c == '\u{a0}' || c
        == '\u{1680}' || ('\u{2000}' <= c && c <= '\u{200a}') || c == '\u{2028}' || c
        == '\u{2029}' || c == '\u{202f}' || c == '\u{205f}' || c == '\u{3000}'
}

/// `s` without its leading whitespace.
pub open spec fn trim_start(s: Seq<char>) -> Seq<char>
    decreases s.len(),
{
    if s.len() > 0 && is_ws(s[0]) {
        trim_start(s.drop_first())
    } else {
        s
    }
}

/// `s` without its trailing whitespace.
pub open spec fn trim_end(s: Seq<char>) -> Seq<char>
    decreases s.len(),
{
    if s.len() > 0 && is_ws(s.last()) {
        trim_end(s.drop_last())
    } else {
        s
    }
}

/// `s` without leading and trailing whitespace, as `str::trim` gives it.
pub open spec fn trim(s: Seq<char>) -> Seq<char> {
    trim_end(trim_start(s))
}

proof fn lemma_trim_start_shape(s: Seq<char>)
    ensures
        trim_start(s).len() <= s.len(),
        trim_start(s) == s.skip(s.len() - trim_start(s).len()),
        trim_start(s).len() > 0 ==> !is_ws(trim_start(s)[0]),
    decreases s.len(),
{
    if s.len() > 0 && is_ws(s[0]) {
        lemma_trim_start_shape(s.drop_first());
        let t = trim_start(s.drop_first());
        assert(s.drop_first().skip(s.drop_first().len() - t.len()) =~= s.skip(s.len() - t.len()));
    } else {
        assert(s.skip(0) =~= s);
    }
}

proof fn lemma_trim_end_shape(s: Seq<char>)
    ensures
        trim_end(s).len() <= s.len(),
        trim_end(s) == s.take(trim_end(s).len() as int),
        trim_end(s).len() > 0 ==> !is_ws(trim_end(s).last()),
    decreases s.len(),
{
    if s.len() > 0 && is_ws(s.last()) {
        lemma_trim_end_shape(s.drop_last());
        let t = trim_end(s.drop_last());
        assert(s.drop_last().take(t.len() as int) =~= s.take(t.len() as int));
    } else {
        assert(s.take(s.len() as int) =~= s);
    }
}

/// A trimmed string neither starts nor ends with whitespace.
pub proof fn law_trimmed_edges(s: Seq<char>)
    ensures
        trim(s).len() > 0 ==> !is_ws(trim(s)[0]) && !is_ws(trim(s).last()),
{
    lemma_trim_start_shape(s);
    lemma_trim_end_shape(trim_start(s));
    let u = trim_start(s);
    if trim(s).len() > 0 {
        assert(trim(s)[0] == u.take(trim(s).len() as int)[0]);
    }
}

/// `s` without the trailing characters equal to `c`, as `str::trim_end_matches(c)` gives it.
pub open spec fn trim_end_char(s: Seq<char>, c: char) -> Seq<char>
    decreases s.len(),
{
    if s.len() > 0 && s.last() == c {
        trim_end_char(s.drop_last(), c)
    } else {
        s
    }
}

/// The index of the first non-whitespace character of `v[lo..hi]` (or `hi`).
fn skip_ws_forward(v: &Vec<char>, lo: usize, hi: usize) -> (i: usize)
    requires
        lo <= hi <= v.len(),
    ensures
        lo <= i <= hi,
        trim_start(v@.subrange(lo as int, hi as int)) == v@.subrange(i as int, hi as int),
{
    let mut i = lo;
    while i < hi && is_whitespace(v[i])
        invariant
            lo <= i <= hi <= v.len(),
            trim_start(v@.subrange(lo as int, hi as int)) == trim_start(
                v@.subrange(i as int, hi as int),
            ),
        decreases hi - i,
    {
        assert(v@.subrange(i as int, hi as int).drop_first() =~= v@.subrange(
            i + 1,
            hi as int,
        ));
        i = i + 1;
    }
    i
}

/// The end of `v[lo..hi]` once its trailing whitespace is removed.
pub fn skip_ws_backward(v: &Vec<char>, lo: usize, hi: usize) -> (j: usize)
    requires
        lo <= hi <= v.len(),
    ensures
        lo <= j <= hi,
        trim_end(v@.subrange(lo as int, hi as int)) == v@.subrange(lo as int, j as int),
{
    let mut j = hi;
    while j > lo && is_whitespace(v[j - 1])
        invariant
            lo <= j <= hi <= v.len(),
            trim_end(v@.subrange(lo as int, hi as int)) == trim_end(
                v@.subrange(lo as int, j as int),
            ),
        decreases j,
    {
        assert(v@.subrange(lo as int, j as int).drop_last() =~= v@.subrange(
            lo as int,
            j - 1,
        ));
        j = j - 1;
    }
    j
}

/// The bounds `(i, j)` such that `v[i..j]` is `v` trimmed of surrounding whitespace.
pub fn trim_bounds(v: &Vec<char>) -> (r: (usize, usize))
    ensures
        r.0 <= r.1 <= v.len(),
        v@.subrange(r.0 as int, r.1 as int) == trim(v@),
{
    let i = skip_ws_forward(v, 0, v.len());
    let j = skip_ws_backward(v, i, v.len());
    assert(v@.subrange(0, v.len() as int) =~= v@);
    (i, j)
}

// ---------------------------------------------------------------------------
// Conversions between `String` and `Vec<char>`
// ---------------------------------------------------------------------------

/// The characters of `s`, in order.
pub fn chars_of(s: &str) -> (r: Vec<char>)
    ensures
        r@ == s@,
{
    let mut r: Vec<char> = Vec::new();
    for c in it: s.chars()
        invariant
            r@ == it.seq().take(it.index()),
    {
        r.push(c);
    }
    r
}

/// `String::push`: appends `c` to `s`.
#[verifier::external_body]
pub(crate) fn push_char(s: &mut String, c: char)
    ensures
        final(s)@ == old(s)@.push(c),
{
    s.push(c);
}

/// Appends the characters `v[lo..hi]` to `s`.
pub fn push_chars(s: &mut String, v: &Vec<char>, lo: usize, hi: usize)
    requires
        lo <= hi <= v.len(),
    ensures
        final(s)@ == old(s)@ + v@.subrange(lo as int, hi as int),
{
    let mut i = lo;
    while i < hi
        invariant
            lo <= i <= hi <= v.len(),
            s@ == old(s)@ + v@.subrange(lo as int, i as int),
        decreases hi - i,
    {
        push_char(s, v[i]);
        assert(v@.subrange(lo as int, i + 1) =~= v@.subrange(lo as int, i as int).push(v@[i as int]));
        i = i + 1;
    }
}

/// A new string holding the characters `v[lo..hi]`.
pub fn string_of(v: &Vec<char>, lo: usize, hi: usize) -> (r: String)
    requires
        lo <= hi <= v.len(),
    ensures
        r@ == v@.subrange(lo as int, hi as int),
{
    let mut r = String::new();
    push_chars(&mut r, v, lo, hi);
    assert(Seq::<char>::empty() + v@.subrange(lo as int, hi as int) =~= v@.subrange(
        lo as int,
        hi as int,
    ));
    r
}

/// Appends all of `t` to `s`.
pub fn push_str(s: &mut String, t: &str)
    ensures
        final(s)@ == old(s)@ + t@,
{
    let v = chars_of(t);
    push_chars(s, &v, 0, v.len());
    assert(v@.subrange(0, v.len() as int) =~= v@);
}

/// `s` trimmed of leading and trailing whitespace, as `str::trim` gives it.
pub fn trimmed(s: &str) -> (r: String)
    ensures
        r@ == trim(s@),
{
    let v = chars_of(s);
    let (i, j) = trim_bounds(&v);
    string_of(&v, i, j)
}

// ---------------------------------------------------------------------------
// Lower case
// ---------------------------------------------------------------------------

/// What `str::to_lowercase` returns for a string with characters `s`: each
/// character's Unicode lowercase mapping, the final sigma rule included.
pub uninterp spec fn lowercase(s: Seq<char>) -> Seq<char>;

/// `str::to_lowercase`. The contract claims only that the result depends on the
/// characters of `s` alone, as the Unicode tables in std make it; the mapping is named,
/// not stated.
#[verifier::external_body]
pub(crate) fn to_lowercase(s: &str) -> (r: String)
    ensures
        r@ == lowercase(s@),
{
    s.to_lowercase()
}

// ---------------------------------------------------------------------------
// Prefixes and substrings
// ---------------------------------------------------------------------------

/// `p` is a prefix of `s`.
pub open spec fn has_prefix(s: Seq<char>, p: Seq<char>) -> bool {
    p.len() <= s.len() && s.subrange(0, p.len() as int) == p
}

/// `needle` occurs in `hay` as a contiguous run of characters.
pub open spec fn occurs_in(needle: Seq<char>, hay: Seq<char>) -> bool {
    exists|i: int|
        0 <= i && i + needle.len() <= hay.len() && #[trigger] hay.subrange(
            i,
            i + needle.len(),
        ) == needle
}

/// Whether `a` and `b` hold the same characters.
pub fn same_chars(a: &Vec<char>, b: &Vec<char>) -> (r: bool)
    ensures
        r == (a@ == b@),
{
    if a.len() != b.len() {
        return false;
    }
    let mut i: usize = 0;
    while i < a.len()
        invariant
            a.len() == b.len(),
            i <= a.len(),
            forall|k: int| 0 <= k < i ==> a@[k] == b@[k],
        decreases a.len() - i,
    {
        if a[i] != b[i] {
            return false;
        }
        i = i + 1;
    }
    assert(a@ =~= b@);
    true
}

/// Whether the strings `a` and `b` are equal.
pub fn str_equal(a: &str, b: &str) -> (r: bool)
    ensures
        r == (a@ == b@),
{
    let va = chars_of(a);
    let vb = chars_of(b);
    same_chars(&va, &vb)
}

/// Whether `v` starts with `p`.
pub fn starts_with(v: &Vec<char>, p: &Vec<char>) -> (b: bool)
    ensures
        b == has_prefix(v@, p@),
{
    if p.len() > v.len() {
        return false;
    }
    let mut i: usize = 0;
    while i < p.len()
        invariant
            p.len() <= v.len(),
            i <= p.len(),
            forall|k: int| 0 <= k < i ==> v@[k] == p@[k],
        decreases p.len() - i,
    {
        if v[i] != p[i] {
            assert(v@.subrange(0, p.len() as int)[i as int] != p@[i as int]);
            return false;
        }
        i = i + 1;
    }
    assert(v@.subrange(0, p.len() as int) =~= p@);
    true
}

/// Whether `needle` matches `hay` at position `at`.
fn matches_at(hay: &Vec<char>, needle: &Vec<char>, at: usize) -> (b: bool)
    requires
        at + needle.len() <= hay.len(),
    ensures
        b == (hay@.subrange(at as int, at + needle.len()) == needle@),
{
    let mut k: usize = 0;
    while k < needle.len()
        invariant
            at + needle.len() <= hay.len(),
            k <= needle.len(),
            forall|m: int| 0 <= m < k ==> hay@[at + m] == needle@[m],
        decreases needle.len() - k,
    {
        if hay[at + k] != needle[k] {
            assert(hay@.subrange(at as int, at + needle.len())[k as int] != needle@[k as int]);
            return false;
        }
        k = k + 1;
    }
    assert(hay@.subrange(at as int, at + needle.len()) =~= needle@);
    true
}

/// Whether `needle` occurs in `hay`, as `str::contains` with a string pattern tests.
pub fn contains_seq(hay: &Vec<char>, needle: &Vec<char>) -> (b: bool)
    ensures
        b == occurs_in(needle@, hay@),
        forall|i: int|
            0 <= i && i + needle@.len() <= hay@.len() && #[trigger] hay@.subrange(
                i,
                i + needle@.len(),
            ) == needle@ ==> b,
        b ==> exists|i: int|
            0 <= i && i + needle@.len() <= hay@.len() && #[trigger] hay@.subrange(
                i,
                i + needle@.len(),
            ) == needle@,
{
    if needle.len() > hay.len() {
        return false;
    }
    let last = hay.len() - needle.len();
    let mut at: usize = 0;
    loop
        invariant
            last + needle.len() == hay.len(),
            at <= last,
            forall|i: int|
                0 <= i < at ==> #[trigger] hay@.subrange(i, i + needle.len()) != needle@,
        decreases last - at,
    {
        if matches_at(hay, needle, at) {
            return true;
        }
        if at == last {
            return false;
        }
        at = at + 1;
    }
}

/// The end of `v[..hi]` once the characters `c` at its end are removed.
pub fn skip_char_backward(v: &Vec<char>, hi: usize, c: char) -> (j: usize)
    requires
        hi <= v.len(),
    ensures
        j <= hi,
        trim_end_char(v@.subrange(0, hi as int), c) == v@.subrange(0, j as int),
{
    let mut j = hi;
    while j > 0 && v[j - 1] == c
        invariant
            j <= hi <= v.len(),
            trim_end_char(v@.subrange(0, hi as int), c) == trim_end_char(
                v@.subrange(0, j as int),
                c,
            ),
        decreases j,
    {
        assert(v@.subrange(0, j as int).drop_last() =~= v@.subrange(0, j - 1));
        j = j - 1;
    }
    j
}

/// The index of the last `c` in `s`, or -1.
pub open spec fn last_index(s: Seq<char>, c: char) -> int
    decreases s.len(),
{
    if s.len() == 0 {
        -1
    } else if s.last() == c {
        s.len() - 1
    } else {
        last_index(s.drop_last(), c)
    }
}

/// `last_index` is the position of the last occurrence: a `c` at `i` with none after it.
pub proof fn lemma_last_index_at(s: Seq<char>, c: char, i: int)
    requires
        0 <= i < s.len(),
        s[i] == c,
        forall|k: int| i < k < s.len() ==> s[k] != c,
    ensures
        last_index(s, c) == i,
    decreases s.len(),
{
    if s.last() != c {
        assert(i < s.len() - 1);
        lemma_last_index_at(s.drop_last(), c, i);
    }
}

/// Without `c`, `last_index` is -1.
pub proof fn lemma_last_index_absent(s: Seq<char>, c: char)
    requires
        forall|k: int| 0 <= k < s.len() ==> s[k] != c,
    ensures
        last_index(s, c) == -1,
    decreases s.len(),
{
    if s.len() > 0 {
        lemma_last_index_absent(s.drop_last(), c);
    }
}

/// Where `c` last occurs in `v`, as `str::rfind` with a character finds it.
pub fn last_index_of(v: &Vec<char>, c: char) -> (r: Option<usize>)
    ensures
        match r {
            Some(i) => i == last_index(v@, c) && i < v@.len() && v@[i as int] == c,
            None => last_index(v@, c) == -1,
        },
{
    let mut j = v.len();
    assert(v@.subrange(0, j as int) =~= v@);
    while j > 0 && v[j - 1] != c
        invariant
            j <= v.len(),
            last_index(v@, c) == last_index(v@.subrange(0, j as int), c),
        decreases j,
    {
        assert(v@.subrange(0, j as int).drop_last() =~= v@.subrange(0, j - 1));
        j = j - 1;
    }
    if j == 0 {
        None
    } else {
        Some(j - 1)
    }
}

/// A run of characters occurs in a text wherever it stands, whatever precedes it: a
/// match at any position `i` counts, and an occurrence is always such a match.
pub proof fn law_occurs_at_any_position(needle: Seq<char>, hay: Seq<char>, i: int)
    requires
        0 <= i,
        i + needle.len() <= hay.len(),
        hay.subrange(i, i + needle.len()) == needle,
    ensures
        occurs_in(needle, hay),
{
    assert(hay.subrange(i, i + needle.len()) == needle);
}

/// An occurrence is a match at some position.
pub proof fn law_occurrence_has_position(needle: Seq<char>, hay: Seq<char>)
    requires
        occurs_in(needle, hay),
    ensures
        exists|i: int|
            0 <= i && i + needle.len() <= hay.len() && #[trigger] hay.subrange(i, i + needle.len())
                == needle,
{
}

// ---------------------------------------------------------------------------
// Longest common prefix
// ---------------------------------------------------------------------------

/// `p` is a prefix of every string in `ss`.
pub open spec fn is_common_prefix(p: Seq<char>, ss: Seq<Seq<char>>) -> bool {
    forall|i: int| 0 <= i < ss.len() ==> has_prefix(#[trigger] ss[i], p)
}

/// `p` is the longest common prefix of the non-empty list `ss`: a common prefix
/// that no longer common prefix exceeds.
pub open spec fn is_longest_common_prefix(p: Seq<char>, ss: Seq<Seq<char>>) -> bool {
    &&& is_common_prefix(p, ss)
    &&& forall|q: Seq<char>| #[trigger] is_common_prefix(q, ss) ==> q.len() <= p.len()
}

/// The character sequences held by a list of character vectors.
pub open spec fn rows(ss: Seq<Vec<char>>) -> Seq<Seq<char>> {
    ss.map_values(|v: Vec<char>| v@)
}

/// The number of leading characters that `a` and `b` share.
fn shared_len(a: &Vec<char>, b: &Vec<char>) -> (k: usize)
    ensures
        k <= a.len(),
        k <= b.len(),
        forall|m: int| 0 <= m < k ==> a@[m] == b@[m],
        k == a.len() || k == b.len() || a@[k as int] != b@[k as int],
{
    let mut k: usize = 0;
    while k < a.len() && k < b.len() && a[k] == b[k]
        invariant
            k <= a.len(),
            k <= b.len(),
            forall|m: int| 0 <= m < k ==> a@[m] == b@[m],
        decreases a.len() - k,
    {
        k = k + 1;
    }
    k
}

/// The length of the longest common prefix of the non-empty list `ss`.
pub fn common_prefix_len(ss: &Vec<Vec<char>>) -> (k: usize)
    requires
        ss.len() > 0,
    ensures
        k <= ss@[0].len(),
        is_longest_common_prefix(ss@[0]@.subrange(0, k as int), rows(ss@)),
{
    let first = &ss[0];
    let mut k = first.len();
    let mut i: usize = 1;
    let ghost mut witness: int = 0;
    assert(has_prefix(rows(ss@)[0], first@.subrange(0, k as int))) by {
        assert(first@.subrange(0, k as int) =~= first@);
    }
    while i < ss.len()
        invariant
            0 < i <= ss.len(),
            first == ss@[0],
            k <= first.len(),
            0 <= witness < i,
            forall|j: int|
                0 <= j < i ==> has_prefix(#[trigger] rows(ss@)[j], first@.subrange(0, k as int)),
            k == first.len() || k == ss@[witness]@.len() || (k < ss@[witness]@.len()
                && ss@[witness]@[k as int] != first@[k as int]),
        decreases ss.len() - i,
    {
        let s = &ss[i];
        let m = shared_len(first, s);
        if m < k {
            assert forall|j: int| 0 <= j < i + 1 implies has_prefix(
                #[trigger] rows(ss@)[j],
                first@.subrange(0, m as int),
            ) by {
                if j < i {
                    assert(has_prefix(rows(ss@)[j], first@.subrange(0, k as int)));
                    assert(rows(ss@)[j].subrange(0, m as int) =~= rows(ss@)[j].subrange(
                        0,
                        k as int,
                    ).subrange(0, m as int));
                    assert(rows(ss@)[j].subrange(0, m as int) =~= first@.subrange(
                        0,
                        k as int,
                    ).subrange(0, m as int));
                    assert(first@.subrange(0, k as int).subrange(0, m as int) =~= first@.subrange(
                        0,
                        m as int,
                    ));
                } else {
                    assert(rows(ss@)[j] == s@);
                    assert(rows(ss@)[j].subrange(0, m as int) =~= first@.subrange(
                        0,
                        m as int,
                    ));
                }
            }
            k = m;
            proof {
                witness = i as int;
            }
        } else {
            assert(has_prefix(rows(ss@)[i as int], first@.subrange(0, k as int))) by {
                assert(rows(ss@)[i as int].subrange(0, k as int) =~= first@.subrange(
                    0,
                    k as int,
                ));
            }
        }
        i = i + 1;
    }
    let ghost p = first@.subrange(0, k as int);
    let ghost dv = rows(ss@);
    assert forall|q: Seq<char>| #[trigger] is_common_prefix(q, dv) implies q.len() <= k by {
        if q.len() > k {
            assert(has_prefix(dv[0], q));
            assert(has_prefix(dv[witness], q));
            assert(dv[0][k as int] == q[k as int]);
            assert(dv[witness][k as int] == q[k as int]);
        }
    }
    k
}

/// The longest common prefix of `strings`, or the empty string when there are none.
pub fn longest_common_prefix(strings: &Vec<String>) -> (r: String)
    ensures
        strings.len() == 0 ==> r@ == Seq::<char>::empty(),
        strings.len() > 0 ==> is_longest_common_prefix(r@, strings.deep_view()),
{
    if strings.len() == 0 {
        return String::new();
    }
    let mut vs: Vec<Vec<char>> = Vec::new();
    let mut i: usize = 0;
    while i < strings.len()
        invariant
            i <= strings.len(),
            vs.len() == i,
            forall|j: int| 0 <= j < i ==> (#[trigger] vs@[j])@ == strings@[j]@,
        decreases strings.len() - i,
    {
        vs.push(chars_of(strings[i].as_str()));
        i = i + 1;
    }
    assert(rows(vs@) =~= strings.deep_view());
    let k = common_prefix_len(&vs);
    string_of(&vs[0], 0, k)
}

// ---------------------------------------------------------------------------
// Splitting at and joining with a separator
// ---------------------------------------------------------------------------

/// The pieces of `s` between occurrences of `sep`, as `str::split(sep)` yields them.
pub open spec fn split_on(s: Seq<char>, sep: char) -> Seq<Seq<char>>
    decreases s.len(),
{
    if s.len() == 0 {
        seq![Seq::<char>::empty()]
    } else {
        let rest = split_on(s.drop_first(), sep);
        if s[0] == sep {
            seq![Seq::<char>::empty()] + rest
        } else {
            rest.update(0, seq![s[0]] + rest[0])
        }
    }
}

/// The pieces of `parts` with `sep` between each two, as `[T]::join` gives it.
pub open spec fn join_with(parts: Seq<Seq<char>>, sep: char) -> Seq<char>
    decreases parts.len(),
{
    if parts.len() == 0 {
        Seq::<char>::empty()
    } else if parts.len() == 1 {
        parts[0]
    } else {
        parts[0] + seq![sep] + join_with(parts.drop_first(), sep)
    }
}

/// Splitting never gives an empty list.
pub proof fn lemma_split_nonempty(s: Seq<char>, sep: char)
    ensures
        split_on(s, sep).len() >= 1,
    decreases s.len(),
{
    if s.len() > 0 {
        lemma_split_nonempty(s.drop_first(), sep);
    }
}

/// Joining the pieces of a split with the same separator gives back the string.
pub proof fn lemma_join_split(s: Seq<char>, sep: char)
    ensures
        join_with(split_on(s, sep), sep) == s,
    decreases s.len(),
{
    if s.len() > 0 {
        let rest = split_on(s.drop_first(), sep);
        lemma_join_split(s.drop_first(), sep);
        lemma_split_nonempty(s.drop_first(), sep);
        if s[0] == sep {
            let parts = seq![Seq::<char>::empty()] + rest;
            assert(parts.drop_first() =~= rest);
            assert(join_with(parts, sep) =~= Seq::<char>::empty() + seq![sep] + s.drop_first());
            assert(s =~= seq![sep] + s.drop_first());
        } else {
            let parts = rest.update(0, seq![s[0]] + rest[0]);
            if rest.len() == 1 {
                assert(join_with(parts, sep) == parts[0]);
                assert(join_with(rest, sep) == rest[0]);
            } else {
                assert(parts.drop_first() =~= rest.drop_first());
            }
            assert(s =~= seq![s[0]] + s.drop_first());
        }
    }
}

/// A piece without the separator splits into itself alone.
pub proof fn lemma_split_no_sep(t: Seq<char>, sep: char)
    requires
        !t.contains(sep),
    ensures
        split_on(t, sep) == seq![t],
    decreases t.len(),
{
    if t.len() > 0 {
        assert(!t.drop_first().contains(sep)) by {
            if t.drop_first().contains(sep) {
                let k = choose|k: int| 0 <= k < t.drop_first().len() && t.drop_first()[k] == sep;
                assert(t[k + 1] == sep);
            }
        }
        lemma_split_no_sep(t.drop_first(), sep);
        assert(t[0] != sep);
        assert(t =~= seq![t[0]] + t.drop_first());
        assert(split_on(t, sep) =~= seq![t]);
    } else {
        assert(t =~= Seq::<char>::empty());
    }
}

/// A piece without the separator, then the separator, splits off as the first piece.
pub proof fn lemma_split_first_piece(t: Seq<char>, sep: char, u: Seq<char>)
    requires
        !t.contains(sep),
    ensures
        split_on(t + seq![sep] + u, sep) == seq![t] + split_on(u, sep),
    decreases t.len(),
{
    let s = t + seq![sep] + u;
    if t.len() == 0 {
        assert(s.drop_first() =~= u);
        assert(t =~= Seq::<char>::empty());
    } else {
        let t1 = t.drop_first();
        assert(!t1.contains(sep)) by {
            if t1.contains(sep) {
                let k = choose|k: int| 0 <= k < t1.len() && t1[k] == sep;
                assert(t[k + 1] == sep);
            }
        }
        lemma_split_first_piece(t1, sep, u);
        assert(s.drop_first() =~= t1 + seq![sep] + u);
        assert(s[0] == t[0] && t[0] != sep);
        assert(seq![t[0]] + t1 =~= t);
        assert(split_on(s, sep) =~= seq![t] + split_on(u, sep));
    }
}

/// Splitting a concatenation: the last piece of `a` and the first piece of `b` merge.
pub proof fn lemma_split_concat(a: Seq<char>, b: Seq<char>, sep: char)
    ensures
        split_on(a + b, sep) == split_on(a, sep).drop_last() + seq![
            split_on(a, sep).last() + split_on(b, sep)[0],
        ] + split_on(b, sep).drop_first(),
    decreases a.len(),
{
    lemma_split_nonempty(a, sep);
    lemma_split_nonempty(b, sep);
    let sb = split_on(b, sep);
    if a.len() == 0 {
        assert(a + b =~= b);
        assert(sb =~= seq![Seq::<char>::empty() + sb[0]] + sb.drop_first());
    } else {
        let a1 = a.drop_first();
        lemma_split_concat(a1, b, sep);
        lemma_split_nonempty(a1, sep);
        assert((a + b).drop_first() =~= a1 + b);
        assert((a + b)[0] == a[0]);
        let sa1 = split_on(a1, sep);
        let r = split_on(a1 + b, sep);
        if a[0] == sep {
            assert(split_on(a, sep) == seq![Seq::<char>::empty()] + sa1);
            assert((seq![Seq::<char>::empty()] + sa1).drop_last() =~= seq![Seq::<char>::empty()]
                + sa1.drop_last());
            assert(split_on(a + b, sep) =~= split_on(a, sep).drop_last() + seq![
                split_on(a, sep).last() + sb[0],
            ] + sb.drop_first());
        } else {
            assert(split_on(a, sep) == sa1.update(0, seq![a[0]] + sa1[0]));
            if sa1.len() == 1 {
                assert(r[0] == sa1.last() + sb[0]);
                assert(split_on(a + b, sep) =~= split_on(a, sep).drop_last() + seq![
                    split_on(a, sep).last() + sb[0],
                ] + sb.drop_first()) by {
                    assert(seq![a[0]] + (sa1[0] + sb[0]) =~= (seq![a[0]] + sa1[0]) + sb[0]);
                }
            } else {
                assert(r[0] == sa1[0]);
                assert(split_on(a + b, sep) =~= split_on(a, sep).drop_last() + seq![
                    split_on(a, sep).last() + sb[0],
                ] + sb.drop_first());
            }
        }
    }
}

/// Splits `s` at every `sep`, as `str::split` with a character does.
pub fn split_string(s: &str, sep: char) -> (r: Vec<String>)
    ensures
        r.deep_view() == split_on(s@, sep),
{
    let v = chars_of(s);
    let mut r: Vec<String> = Vec::new();
    let mut start: usize = 0;
    let mut i: usize = 0;
    assert(v@.skip(0) =~= v@);
    while i < v.len()
        invariant
            start <= i <= v.len(),
            v@ == s@,
            split_on(v@, sep) == r.deep_view() + split_on(v@.skip(start as int), sep),
            !v@.subrange(start as int, i as int).contains(sep),
        decreases v.len() - i,
    {
        if v[i] == sep {
            let piece = string_of(&v, start, i);
            proof {
                lemma_split_first_piece(
                    v@.subrange(start as int, i as int),
                    sep,
                    v@.skip(i + 1),
                );
                assert(v@.skip(start as int) =~= v@.subrange(start as int, i as int) + seq![sep]
                    + v@.skip(i + 1));
            }
            let ghost before = r.deep_view();
            r.push(piece);
            assert(r.deep_view() =~= before.push(piece@));
            start = i + 1;
            assert(v@.subrange(start as int, start as int) =~= Seq::<char>::empty());
        } else {
            assert(v@.subrange(start as int, i + 1) =~= v@.subrange(start as int, i as int).push(
                v@[i as int],
            ));
        }
        i = i + 1;
    }
    proof {
        assert(v@.skip(start as int) =~= v@.subrange(start as int, i as int));
        lemma_split_no_sep(v@.skip(start as int), sep);
    }
    let last = string_of(&v, start, v.len());
    let ghost before = r.deep_view();
    r.push(last);
    assert(r.deep_view() =~= before.push(last@));
    r
}

/// Joins `parts` with `sep` between each two.
pub fn join_strings(parts: &Vec<String>, sep: char) -> (r: String)
    ensures
        r@ == join_with(parts.deep_view(), sep),
{
    let mut r = String::new();
    let n = parts.len();
    if n == 0 {
        return r;
    }
    // Build from the back, so that each step matches the recursive definition.
    push_str(&mut r, parts[n - 1].as_str());
    let mut i = n - 1;
    assert(r@ =~= join_with(parts.deep_view().subrange(i as int, n as int), sep)) by {
        assert(parts.deep_view().subrange(i as int, n as int).len() == 1);
    }
    while i > 0
        invariant
            n == parts.len(),
            i < n,
            r@ == join_with(parts.deep_view().subrange(i as int, n as int), sep),
        decreases i,
    {
        let mut next = String::new();
        push_str(&mut next, parts[i - 1].as_str());
        push_char(&mut next, sep);
        push_str(&mut next, r.as_str());
        let ghost tail = parts.deep_view().subrange(i as int, n as int);
        let ghost whole = parts.deep_view().subrange(i - 1, n as int);
        assert(whole.drop_first() =~= tail);
        assert(whole[0] == parts@[i - 1]@);
        r = next;
        i = i - 1;
        assert(r@ =~= join_with(whole, sep));
    }
    assert(parts.deep_view().subrange(0, n as int) =~= parts.deep_view());
    r
}

// ---------------------------------------------------------------------------
// Lexicographic order of character sequences
// ---------------------------------------------------------------------------

/// `a` comes no later than `b` in the lexicographic order of code points, the order in
/// which `String`'s `Ord` compares (UTF-8 preserves the order of code points).
pub open spec fn lex_le(a: Seq<char>, b: Seq<char>) -> bool
    decreases a.len(),
{
    if a.len() == 0 {
        true
    } else if b.len() == 0 {
        false
    } else if a[0] != b[0] {
        a[0] < b[0]
    } else {
        lex_le(a.drop_first(), b.drop_first())
    }
}

pub proof fn lemma_lex_le_reflexive(a: Seq<char>)
    ensures
        lex_le(a, a),
    decreases a.len(),
{
    if a.len() > 0 {
        lemma_lex_le_reflexive(a.drop_first());
    }
}

pub proof fn lemma_lex_le_total(a: Seq<char>, b: Seq<char>)
    ensures
        lex_le(a, b) || lex_le(b, a),
    decreases a.len(),
{
    if a.len() > 0 && b.len() > 0 && a[0] == b[0] {
        lemma_lex_le_total(a.drop_first(), b.drop_first());
    }
}

pub proof fn lemma_lex_le_antisymmetric(a: Seq<char>, b: Seq<char>)
    requires
        lex_le(a, b),
        lex_le(b, a),
    ensures
        a == b,
    decreases a.len(),
{
    if a.len() > 0 && b.len() > 0 {
        lemma_lex_le_antisymmetric(a.drop_first(), b.drop_first());
        assert(a =~= seq![a[0]] + a.drop_first());
        assert(b =~= seq![b[0]] + b.drop_first());
    } else {
        assert(a.len() == 0 && b.len() == 0);
        assert(a =~= b);
    }
}

pub proof fn lemma_lex_le_transitive(a: Seq<char>, b: Seq<char>, c: Seq<char>)
    requires
        lex_le(a, b),
        lex_le(b, c),
    ensures
        lex_le(a, c),
    decreases a.len(),
{
    if a.len() > 0 && b.len() > 0 && c.len() > 0 && a[0] == b[0] && b[0] == c[0] {
        lemma_lex_le_transitive(a.drop_first(), b.drop_first(), c.drop_first());
    }
}

/// The lexicographic order is decided by the first position where two sequences differ:
/// `a` comes no later than `b` exactly when `a` is a prefix of `b`, or at the first
/// difference `a` has the smaller character.
pub proof fn law_lex_le_first_difference(a: Seq<char>, b: Seq<char>)
    ensures
        lex_le(a, b) <==> (has_prefix(b, a) || exists|k: int|
            0 <= k < a.len() && k < b.len() && a.subrange(0, k) == b.subrange(0, k) && #[trigger] a[k]
                < b[k]),
    decreases a.len(),
{
    if a.len() == 0 {
        assert(b.subrange(0, 0) =~= a);
    } else if b.len() == 0 {
        if has_prefix(b, a) {
            assert(false);
        }
    } else if a[0] != b[0] {
        if a[0] < b[0] {
            assert(a.subrange(0, 0) =~= b.subrange(0, 0));
            assert(a[0] < b[0]);
        } else {
            if has_prefix(b, a) {
                assert(b.subrange(0, a.len() as int)[0] == a[0]);
            }
            if exists|k: int|
                0 <= k < a.len() && k < b.len() && a.subrange(0, k) == b.subrange(0, k) && #[trigger] a[k]
                    < b[k] {
                let k = choose|k: int|
                    0 <= k < a.len() && k < b.len() && a.subrange(0, k) == b.subrange(0, k) && #[trigger] a[k]
                        < b[k];
                if k > 0 {
                    assert(a.subrange(0, k)[0] == b.subrange(0, k)[0]);
                }
            }
        }
    } else {
        let a1 = a.drop_first();
        let b1 = b.drop_first();
        law_lex_le_first_difference(a1, b1);
        assert(has_prefix(b, a) <==> has_prefix(b1, a1)) by {
            if has_prefix(b, a) {
                assert(b1.subrange(0, a1.len() as int) =~= b.subrange(0, a.len() as int).drop_first());
            }
            if has_prefix(b1, a1) {
                assert(b.subrange(0, a.len() as int) =~= seq![b[0]] + b1.subrange(0, a1.len() as int));
                assert(a =~= seq![a[0]] + a1);
            }
        }
        let ex = exists|k: int|
            0 <= k < a.len() && k < b.len() && a.subrange(0, k) == b.subrange(0, k) && #[trigger] a[k]
                < b[k];
        let ex1 = exists|k: int|
            0 <= k < a1.len() && k < b1.len() && a1.subrange(0, k) == b1.subrange(0, k) && #[trigger] a1[k]
                < b1[k];
        assert(ex <==> ex1) by {
            if ex {
                let k = choose|k: int|
                    0 <= k < a.len() && k < b.len() && a.subrange(0, k) == b.subrange(0, k) && #[trigger] a[k]
                        < b[k];
                assert(k > 0);
                assert(a1.subrange(0, k - 1) =~= a.subrange(0, k).drop_first());
                assert(b1.subrange(0, k - 1) =~= b.subrange(0, k).drop_first());
                assert(a1[k - 1] == a[k] && b1[k - 1] == b[k]);
            }
            if ex1 {
                let k = choose|k: int|
                    0 <= k < a1.len() && k < b1.len() && a1.subrange(0, k) == b1.subrange(0, k) && #[trigger] a1[k]
                        < b1[k];
                assert(a.subrange(0, k + 1) =~= seq![a[0]] + a1.subrange(0, k));
                assert(b.subrange(0, k + 1) =~= seq![b[0]] + b1.subrange(0, k));
                assert(a[k + 1] == a1[k] && b[k + 1] == b1[k]);
            }
        }
    }
}

/// Whether `a` comes no later than `b` in lexicographic order.
pub fn lex_le_chars(a: &Vec<char>, b: &Vec<char>) -> (r: bool)
    ensures
        r == lex_le(a@, b@),
{
    let mut i: usize = 0;
    assert(a@.skip(0) =~= a@);
    assert(b@.skip(0) =~= b@);
    loop
        invariant
            i <= a.len(),
            i <= b.len(),
            lex_le(a@, b@) == lex_le(a@.skip(i as int), b@.skip(i as int)),
        decreases a.len() - i,
    {
        if i == a.len() {
            return true;
        }
        if i == b.len() {
            return false;
        }
        if a[i] != b[i] {
            return a[i] < b[i];
        }
        assert(a@.skip(i as int).drop_first() =~= a@.skip(i + 1));
        assert(b@.skip(i as int).drop_first() =~= b@.skip(i + 1));
        i = i + 1;
    }
}

} // verus!
