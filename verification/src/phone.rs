//! Phone-number normalization and outbound-address validation.
//!
//! `normalize_phone_number` produces the digits-only lookup key used by the
//! contact directory; `canonicalize_phone_number` strips formatting for
//! outbound validation while keeping leading zeros and arbitrary digit
//! counts; `is_address_valid` accepts a 3–15 digit phone number or a simple
//! e-mail address.

use crate::text::count_char;
use crate::text::count_char_occurrences;
use vstd::prelude::*;

verus! {

/// An ASCII decimal digit.
pub open spec fn is_ascii_digit_char(c: char) -> bool {
    '0' <= c && c <= '9'
}

/// A formatting character that phone numbers may carry: space, hyphen or
/// parenthesis.
pub open spec fn is_phone_format_char(c: char) -> bool {
    c == ' ' || c == '-' || c == '(' || c == ')'
}

/// The digits of `s`, in order, with every other character removed.
pub open spec fn digits_of(s: Seq<char>) -> Seq<char> {
    s.filter(|c: char| is_ascii_digit_char(c))
}

/// The normalized lookup key: digits only, with an 11-digit value that
/// starts with `1` folded to its trailing 10 digits.
pub open spec fn normalize_spec(s: Seq<char>) -> Seq<char> {
    let d = digits_of(s);
    if d.len() == 11 && d[0] == '1' {
        d.subrange(1, 11)
    } else {
        d
    }
}

/// `s` with spaces, hyphens and parentheses removed.
pub open spec fn strip_format_chars(s: Seq<char>) -> Seq<char> {
    s.filter(|c: char| !is_phone_format_char(c))
}

/// `s` without its leading plus signs.
pub open spec fn strip_leading_plus(s: Seq<char>) -> Seq<char>
    decreases s.len(),
{
    if s.len() > 0 && s[0] == '+' {
        strip_leading_plus(s.drop_first())
    } else {
        s
    }
}

/// The canonical form for outbound addressing: formatting characters
/// removed, then any leading plus signs dropped.  Leading zeros and the
/// digit count are preserved.
pub open spec fn canonicalize_spec(s: Seq<char>) -> Seq<char> {
    strip_leading_plus(strip_format_chars(s))
}

fn char_is_ascii_digit(c: char) -> (r: bool)
    ensures
        r == is_ascii_digit_char(c),
{
    '0' <= c && c <= '9'
}

/// Normalize a phone number into the lookup key used by the contact
/// directory: every non-digit character is removed, and an 11-digit result
/// that starts with `1` drops that leading digit.
pub fn normalize_phone_number(phone: &str) -> (r: String)
    ensures
        r@ == normalize_spec(phone@),
{
    let n = phone.unicode_len();
    let mut digits = String::new();
    let mut i: usize = 0;
    while i < n
        invariant
            i <= n,
            n == phone@.len(),
            digits@ == digits_of(phone@.take(i as int)),
        decreases n - i,
    {
        let c = phone.get_char(i);
        proof {
            assert(phone@.take(i + 1).drop_last() =~= phone@.take(i as int));
            assert(phone@.take(i + 1).last() == c);
            reveal(Seq::filter);
        }
        if char_is_ascii_digit(c) {
            let one = phone.substring_char(i, i + 1);
            digits.append(one);
            proof {
                assert(digits@ =~= digits_of(phone@.take(i + 1)));
            }
        }
        i = i + 1;
    }
    proof {
        assert(phone@.take(n as int) =~= phone@);
    }
    if digits.unicode_len() == 11 && digits.as_str().get_char(0) == '1' {
        let folded = digits.as_str().substring_char(1, 11);
        folded.to_owned()
    } else {
        digits
    }
}

/// Normalization yields a pure digit string: every character of the
/// normalized form is an ASCII digit.
pub proof fn lemma_normalize_all_digits(s: Seq<char>)
    ensures
        forall|i: int|
            0 <= i < normalize_spec(s).len() ==> is_ascii_digit_char(#[trigger] normalize_spec(s)[i]),
{
    let d = digits_of(s);
    assert forall|i: int| 0 <= i < d.len() implies is_ascii_digit_char(#[trigger] d[i]) by {
        s.lemma_filter_pred(|c: char| is_ascii_digit_char(c), i);
    }
    if d.len() == 11 && d[0] == '1' {
        assert(forall|i: int|
            0 <= i < normalize_spec(s).len() ==> #[trigger] normalize_spec(s)[i] == d[i + 1]);
    }
}

proof fn lemma_strip_leading_plus_skip(s: Seq<char>, k: int)
    requires
        0 <= k <= s.len(),
        forall|i: int| 0 <= i < k ==> s[i] == '+',
        k == s.len() || s[k] != '+',
    ensures
        strip_leading_plus(s) =~= s.skip(k),
    decreases k,
{
    if k == 0 {
        assert(s.skip(0) =~= s);
    } else {
        assert(s[0] == '+');
        lemma_strip_leading_plus_skip(s.drop_first(), k - 1);
        assert(s.drop_first().skip(k - 1) =~= s.skip(k));
    }
}

/// Canonicalize a phone number for outbound validation: spaces, hyphens and
/// parentheses are removed anywhere, and leading plus signs are dropped.
/// Leading zeros and the digit count are preserved, and no US-specific
/// folding is applied.
pub fn canonicalize_phone_number(phone: &str) -> (r: String)
    ensures
        r@ == canonicalize_spec(phone@),
{
    let n = phone.unicode_len();
    let mut stripped = String::new();
    let mut i: usize = 0;
    while i < n
        invariant
            i <= n,
            n == phone@.len(),
            stripped@ == strip_format_chars(phone@.take(i as int)),
        decreases n - i,
    {
        let c = phone.get_char(i);
        proof {
            assert(phone@.take(i + 1).drop_last() =~= phone@.take(i as int));
            assert(phone@.take(i + 1).last() == c);
            reveal(Seq::filter);
        }
        if !(c == ' ' || c == '-' || c == '(' || c == ')') {
            let one = phone.substring_char(i, i + 1);
            stripped.append(one);
            proof {
                assert(stripped@ =~= strip_format_chars(phone@.take(i + 1)));
            }
        }
        i = i + 1;
    }
    proof {
        assert(phone@.take(n as int) =~= phone@);
    }
    let m = stripped.unicode_len();
    let mut k: usize = 0;
    while k < m && stripped.as_str().get_char(k) == '+'
        invariant
            k <= m,
            m == stripped@.len(),
            forall|i: int| 0 <= i < k ==> stripped@[i] == '+',
        decreases m - k,
    {
        k = k + 1;
    }
    proof {
        lemma_strip_leading_plus_skip(stripped@, k as int);
        assert(stripped@.skip(k as int) =~= stripped@.subrange(k as int, m as int));
    }
    let tail = stripped.as_str().substring_char(k, m);
    tail.to_owned()
}

/// A canonicalized value that can address a phone: 3 to 15 ASCII digits.
pub open spec fn phone_like(c: Seq<char>) -> bool {
    3 <= c.len() <= 15 && forall|i: int| 0 <= i < c.len() ==> is_ascii_digit_char(#[trigger] c[i])
}

/// A value with exactly one `@`, neither first nor last, so that both parts
/// around it are non-empty.
pub open spec fn email_like(s: Seq<char>) -> bool {
    count_char(s, '@') == 1 && s[0] != '@' && s[s.len() - 1] != '@'
}

/// A value valid for outbound addressing: a 3–15 digit phone number after
/// canonicalization, or an e-mail-shaped value.
pub open spec fn valid_address_spec(s: Seq<char>) -> bool {
    phone_like(canonicalize_spec(s)) || email_like(s)
}

proof fn lemma_count_char_bound(s: Seq<char>, c: char)
    ensures
        count_char(s, c) <= s.len(),
    decreases s.len(),
{
    if s.len() > 0 {
        lemma_count_char_bound(s.drop_last(), c);
    }
}

/// Validate an address for outbound messaging: true for a phone number that
/// canonicalizes to 3–15 ASCII digits, and for an e-mail address with
/// exactly one `@` and non-empty parts on both sides.
pub fn is_address_valid(address: &str) -> (r: bool)
    ensures
        r == valid_address_spec(address@),
{
    let canon = canonicalize_phone_number(address);
    let m = canon.unicode_len();
    if 3 <= m && m <= 15 {
        let mut i: usize = 0;
        let mut all_digits = true;
        while i < m
            invariant
                i <= m,
                m == canon@.len(),
                all_digits == forall|j: int|
                    0 <= j < i ==> is_ascii_digit_char(#[trigger] canon@[j]),
            decreases m - i,
        {
            if !char_is_ascii_digit(canon.as_str().get_char(i)) {
                all_digits = false;
            }
            i = i + 1;
        }
        if all_digits {
            return true;
        }
    }
    let n = address.unicode_len();
    let at_count = count_char_occurrences(address, '@');
    proof {
        lemma_count_char_bound(address@, '@');
    }
    if at_count != 1 {
        return false;
    }
    address.get_char(0) != '@' && address.get_char(n - 1) != '@'
}

} // verus!
