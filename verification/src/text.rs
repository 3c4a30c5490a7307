//! Character and string utilities shared by the parsing modules.
//!
//! Everything here works on `Seq<char>` views: trimming, searching for a
//! character, prefix tests, equality, counting, lexicographic order and
//! substring search.

use vstd::prelude::*;

verus! {

/// A Unicode whitespace character (the `White_Space` property, as `str::trim`
/// understands it).
pub open spec fn is_space_char(c: char) -> bool {
    ||| ('\u{0009}' <= c && c <= '\u{000D}')
    ||| c == ' '
    ||| c == '\u{0085}'
    ||| c == '\u{00A0}'
    ||| c == '\u{1680}'
    ||| ('\u{2000}' <= c && c <= '\u{200A}')
    ||| c == '\u{2028}'
    ||| c == '\u{2029}'
    ||| c == '\u{202F}'
    ||| c == '\u{205F}'
    ||| c == '\u{3000}'
}

pub fn char_is_space(c: char) -> (r: bool)
    ensures
        r == is_space_char(c),
{
    ('\u{0009}' <= c && c <= '\u{000D}') || c == ' ' || c == '\u{0085}' || c == '\u{00A0}'
        || c == '\u{1680}' || ('\u{2000}' <= c && c <= '\u{200A}') || c == '\u{2028}'
        || c == '\u{2029}' || c == '\u{202F}' || c == '\u{205F}' || c == '\u{3000}'
}

/// `s` without its leading whitespace.
pub open spec fn trim_front(s: Seq<char>) -> Seq<char>
    decreases s.len(),
{
    if s.len() > 0 && is_space_char(s[0]) {
        trim_front(s.drop_first())
    } else {
        s
    }
}

/// `s` without its trailing whitespace.
pub open spec fn trim_back(s: Seq<char>) -> Seq<char>
    decreases s.len(),
{
    if s.len() > 0 && is_space_char(s.last()) {
        trim_back(s.drop_last())
    } else {
        s
    }
}

/// `s` without leading and trailing whitespace.
pub open spec fn trim_spec(s: Seq<char>) -> Seq<char> {
    trim_back(trim_front(s))
}

proof fn lemma_trim_front_skip(s: Seq<char>, k: int)
    requires
        0 <= k <= s.len(),
        forall|i: int| 0 <= i < k ==> is_space_char(s[i]),
        k == s.len() || !is_space_char(s[k]),
    ensures
        trim_front(s) =~= s.skip(k),
    decreases k,
{
    if k == 0 {
        if s.len() > 0 && is_space_char(s[0]) {
            assert(false);
        }
        assert(s.skip(0) =~= s);
    } else {
        assert(is_space_char(s[0]));
        lemma_trim_front_skip(s.drop_first(), k - 1);
        assert(s.drop_first().skip(k - 1) =~= s.skip(k));
    }
}

proof fn lemma_trim_back_take(s: Seq<char>, k: int)
    requires
        0 <= k <= s.len(),
        forall|i: int| k <= i < s.len() ==> is_space_char(s[i]),
        k == 0 || !is_space_char(s[k - 1]),
    ensures
        trim_back(s) =~= s.take(k),
    decreases s.len() - k,
{
    if k == s.len() {
        if s.len() > 0 && is_space_char(s.last()) {
            assert(false);
        }
        assert(s.take(k) =~= s);
    } else {
        assert(is_space_char(s.last()));
        lemma_trim_back_take(s.drop_last(), k);
        assert(s.drop_last().take(k) =~= s.take(k));
    }
}

/// Remove leading and trailing whitespace.
pub fn trim(s: &str) -> (r: &str)
    ensures
        r@ == trim_spec(s@),
{
    let n = s.unicode_len();
    let mut start: usize = 0;
    while start < n && char_is_space(s.get_char(start))
        invariant
            start <= n,
            n == s@.len(),
            forall|i: int| 0 <= i < start ==> is_space_char(s@[i]),
        decreases n - start,
    {
        start = start + 1;
    }
    let mut end: usize = n;
    while end > start && char_is_space(s.get_char(end - 1))
        invariant
            start <= end <= n,
            n == s@.len(),
            forall|i: int| 0 <= i < start ==> is_space_char(s@[i]),
            forall|i: int| end <= i < n ==> is_space_char(s@[i]),
        decreases end,
    {
        end = end - 1;
    }
    proof {
        lemma_trim_front_skip(s@, start as int);
        let f = s@.skip(start as int);
        if end == start {
            lemma_trim_back_take(f, 0);
        } else {
            lemma_trim_back_take(f, end - start);
        }
        assert(f.take(end - start) =~= s@.subrange(start as int, end as int));
    }
    s.substring_char(start, end)
}

/// Index of the first occurrence of `c` in `s`, if any.
pub fn find_char(s: &str, c: char) -> (r: Option<usize>)
    ensures
        match r {
            Some(i) => i < s@.len() && s@[i as int] == c && forall|j: int|
                0 <= j < i ==> s@[j] != c,
            None => forall|j: int| 0 <= j < s@.len() ==> s@[j] != c,
        },
{
    let n = s.unicode_len();
    let mut i: usize = 0;
    while i < n
        invariant
            i <= n,
            n == s@.len(),
            forall|j: int| 0 <= j < i ==> s@[j] != c,
        decreases n - i,
    {
        if s.get_char(i) == c {
            return Some(i);
        }
        i = i + 1;
    }
    None
}

/// `s` holds the character `c` somewhere.
pub open spec fn contains_char(s: Seq<char>, c: char) -> bool {
    exists|i: int| 0 <= i < s.len() && s[i] == c
}

/// The number of occurrences of `c` in `s`.
pub open spec fn count_char(s: Seq<char>, c: char) -> nat
    decreases s.len(),
{
    if s.len() == 0 {
        0
    } else {
        count_char(s.drop_last(), c) + if s.last() == c {
            1nat
        } else {
            0nat
        }
    }
}

/// Count the occurrences of `c` in `s`.
pub fn count_char_occurrences(s: &str, c: char) -> (r: usize)
    requires
        s@.len() <= usize::MAX,
    ensures
        r == count_char(s@, c),
{
    let n = s.unicode_len();
    let mut i: usize = 0;
    let mut cnt: usize = 0;
    while i < n
        invariant
            i <= n,
            n == s@.len(),
            cnt == count_char(s@.take(i as int), c),
            cnt <= i,
        decreases n - i,
    {
        let ch = s.get_char(i);
        proof {
            assert(s@.take(i + 1).drop_last() =~= s@.take(i as int));
            assert(s@.take(i + 1).last() == ch);
        }
        if ch == c {
            cnt = cnt + 1;
        }
        i = i + 1;
    }
    proof {
        assert(s@.take(n as int) =~= s@);
    }
    cnt
}

/// `p` is a prefix of `s`.
pub open spec fn has_prefix(s: Seq<char>, p: Seq<char>) -> bool {
    p.len() <= s.len() && s.take(p.len() as int) == p
}

/// Does `s` start with `prefix`?
pub fn starts_with_str(s: &str, prefix: &str) -> (r: bool)
    ensures
        r == has_prefix(s@, prefix@),
{
    let n = s.unicode_len();
    let m = prefix.unicode_len();
    if m > n {
        assert(!has_prefix(s@, prefix@));
        return false;
    }
    let mut i: usize = 0;
    while i < m
        invariant
            i <= m <= n,
            n == s@.len(),
            m == prefix@.len(),
            forall|j: int| 0 <= j < i ==> s@[j] == prefix@[j],
        decreases m - i,
    {
        if s.get_char(i) != prefix.get_char(i) {
            assert(s@.take(m as int)[i as int] != prefix@[i as int]);
            return false;
        }
        i = i + 1;
    }
    proof {
        assert(s@.take(m as int) =~= prefix@);
    }
    true
}

/// Do two strings hold the same characters?
pub fn str_eq(a: &str, b: &str) -> (r: bool)
    ensures
        r == (a@ == b@),
{
    let n = a.unicode_len();
    if n != b.unicode_len() {
        return false;
    }
    let mut i: usize = 0;
    while i < n
        invariant
            i <= n,
            n == a@.len() == b@.len(),
            forall|j: int| 0 <= j < i ==> a@[j] == b@[j],
        decreases n - i,
    {
        if a.get_char(i) != b.get_char(i) {
            return false;
        }
        i = i + 1;
    }
    proof {
        assert(a@ =~= b@);
    }
    true
}

/// Lexicographic order on character sequences, by code point.
pub open spec fn lex_le(a: Seq<char>, b: Seq<char>) -> bool
    decreases a.len(),
{
    if a.len() == 0 {
        true
    } else if b.len() == 0 {
        false
    } else if a[0] != b[0] {
        a[0] < b[0]
    } else {
        lex_le(a.drop_first(), b.drop_first())
    }
}

/// `lex_le` is total: of any two sequences, one is less than or equal to the
/// other.
pub proof fn lemma_lex_le_total(a: Seq<char>, b: Seq<char>)
    ensures
        lex_le(a, b) || lex_le(b, a),
    decreases a.len(),
{
    if a.len() == 0 || b.len() == 0 {
    } else if a[0] != b[0] {
    } else {
        lemma_lex_le_total(a.drop_first(), b.drop_first());
    }
}

/// `lex_le` is transitive.
pub proof fn lemma_lex_le_trans(a: Seq<char>, b: Seq<char>, c: Seq<char>)
    requires
        lex_le(a, b),
        lex_le(b, c),
    ensures
        lex_le(a, c),
    decreases a.len(),
{
    if a.len() == 0 {
    } else {
        assert(b.len() > 0);
        assert(c.len() > 0);
        if a[0] == b[0] && b[0] == c[0] {
            lemma_lex_le_trans(a.drop_first(), b.drop_first(), c.drop_first());
        }
    }
}

proof fn lemma_lex_le_skip(a: Seq<char>, b: Seq<char>, i: int)
    requires
        0 <= i <= a.len(),
        i <= b.len(),
        forall|j: int| 0 <= j < i ==> a[j] == b[j],
    ensures
        lex_le(a, b) == lex_le(a.skip(i), b.skip(i)),
    decreases i,
{
    if i > 0 {
        assert(a.len() > 0 && b.len() > 0 && a[0] == b[0]);
        lemma_lex_le_skip(a.drop_first(), b.drop_first(), i - 1);
        assert(a.drop_first().skip(i - 1) =~= a.skip(i));
        assert(b.drop_first().skip(i - 1) =~= b.skip(i));
    } else {
        assert(a.skip(0) =~= a);
        assert(b.skip(0) =~= b);
    }
}

/// Compare two strings in lexicographic order by code point.
pub fn str_lex_le(a: &str, b: &str) -> (r: bool)
    ensures
        r == lex_le(a@, b@),
{
    let n = a.unicode_len();
    let m = b.unicode_len();
    let mut i: usize = 0;
    loop
        invariant
            i <= n,
            i <= m,
            n == a@.len(),
            m == b@.len(),
            forall|j: int| 0 <= j < i ==> a@[j] == b@[j],
        decreases n - i,
    {
        proof {
            lemma_lex_le_skip(a@, b@, i as int);
        }
        if i == n {
            assert(a@.skip(i as int).len() == 0);
            return true;
        }
        if i == m {
            assert(b@.skip(i as int).len() == 0);
            assert(a@.skip(i as int).len() > 0);
            return false;
        }
        let ca = a.get_char(i);
        let cb = b.get_char(i);
        if ca != cb {
            assert(a@.skip(i as int)[0] == ca);
            assert(b@.skip(i as int)[0] == cb);
            return ca < cb;
        }
        i = i + 1;
    }
}

/// `needle` occurs as a contiguous run inside `hay`.
pub open spec fn is_substring_of(needle: Seq<char>, hay: Seq<char>) -> bool {
    exists|i: int|
        0 <= i && i + needle.len() <= hay.len() && #[trigger] hay.subrange(i, i + needle.len())
            == needle
}

fn matches_at(hay: &str, needle: &str, pos: usize) -> (r: bool)
    requires
        pos + needle@.len() <= hay@.len(),
        hay@.len() <= usize::MAX,
    ensures
        r == (hay@.subrange(pos as int, pos + needle@.len()) == needle@),
{
    let m = needle.unicode_len();
    let mut j: usize = 0;
    while j < m
        invariant
            j <= m,
            m == needle@.len(),
            pos + m <= hay@.len(),
            hay@.len() <= usize::MAX,
            forall|k: int| 0 <= k < j ==> hay@[pos + k] == needle@[k],
        decreases m - j,
    {
        if hay.get_char(pos + j) != needle.get_char(j) {
            assert(hay@.subrange(pos as int, pos + m)[j as int] != needle@[j as int]);
            return false;
        }
        j = j + 1;
    }
    proof {
        assert(hay@.subrange(pos as int, pos + m) =~= needle@);
    }
    true
}

/// Does `hay` contain `needle` as a contiguous run?
pub fn contains_substring(hay: &str, needle: &str) -> (r: bool)
    ensures
        r == is_substring_of(needle@, hay@),
{
    let n = hay.unicode_len();
    let m = needle.unicode_len();
    if m > n {
        return false;
    }
    if m == 0 {
        assert(is_substring_of(needle@, hay@)) by {
            assert(hay@.subrange(0, 0 + needle@.len() as int) =~= needle@);
        }
        return true;
    }
    let mut i: usize = 0;
    while i <= n - m
        invariant
            0 < m <= n,
            n == hay@.len(),
            m == needle@.len(),
            i <= n - m + 1,
            forall|p: int|
                0 <= p < i ==> #[trigger] hay@.subrange(p, p + needle@.len()) != needle@,
        decreases n - i,
    {
        if matches_at(hay, needle, i) {
            return true;
        }
        i = i + 1;
    }
    false
}

} // verus!
