//! Decimal rendering and parsing of integers.
//!
//! The deduplication file stores a millisecond timestamp as decimal text and
//! parses it back; message keys and durations are rendered the same way.

use crate::phone::is_ascii_digit_char;
use vstd::prelude::*;

verus! {

/// The decimal digit character for `d` (0 to 9).
pub open spec fn digit_char(d: int) -> char {
    if d == 0 {
        '0'
    } else if d == 1 {
        '1'
    } else if d == 2 {
        '2'
    } else if d == 3 {
        '3'
    } else if d == 4 {
        '4'
    } else if d == 5 {
        '5'
    } else if d == 6 {
        '6'
    } else if d == 7 {
        '7'
    } else if d == 8 {
        '8'
    } else {
        '9'
    }
}

/// The decimal rendering of `n`, without sign or leading zeros.
pub open spec fn dec_of(n: nat) -> Seq<char>
    decreases n,
{
    if n < 10 {
        seq![digit_char(n as int)]
    } else {
        dec_of(n / 10).push(digit_char((n % 10) as int))
    }
}

/// The decimal rendering of a signed value: a leading `-` for negatives.
pub open spec fn dec_of_int(n: int) -> Seq<char> {
    if n >= 0 {
        dec_of(n as nat)
    } else {
        seq!['-'] + dec_of((-n) as nat)
    }
}

/// The numeric value of a decimal digit character.
pub open spec fn digit_val(c: char) -> int {
    c as int - 48
}

/// The value of a sequence of decimal digit characters.
pub open spec fn dec_val(s: Seq<char>) -> int
    decreases s.len(),
{
    if s.len() == 0 {
        0
    } else {
        dec_val(s.drop_last()) * 10 + digit_val(s.last())
    }
}

/// Every character of `s` is a decimal digit.
pub open spec fn all_dec_digits(s: Seq<char>) -> bool {
    forall|i: int| 0 <= i < s.len() ==> is_ascii_digit_char(#[trigger] s[i])
}

fn digit_str(d: u64) -> (r: &'static str)
    requires
        d < 10,
    ensures
        r@ =~= seq![digit_char(d as int)],
{
    proof {
        reveal_strlit("0");
        reveal_strlit("1");
        reveal_strlit("2");
        reveal_strlit("3");
        reveal_strlit("4");
        reveal_strlit("5");
        reveal_strlit("6");
        reveal_strlit("7");
        reveal_strlit("8");
        reveal_strlit("9");
    }
    match d {
        0 => "0",
        1 => "1",
        2 => "2",
        3 => "3",
        4 => "4",
        5 => "5",
        6 => "6",
        7 => "7",
        8 => "8",
        _ => "9",
    }
}

/// Render `n` in decimal.
pub fn u64_to_dec(n: u64) -> (r: String)
    ensures
        r@ == dec_of(n as nat),
    decreases n,
{
    if n < 10 {
        digit_str(n).to_owned()
    } else {
        let mut s = u64_to_dec(n / 10);
        s.append(digit_str(n % 10));
        proof {
            assert(s@ =~= dec_of(n as nat));
        }
        s
    }
}

/// Render a signed value in decimal, with a leading `-` for negatives.
pub fn i64_to_dec(n: i64) -> (r: String)
    ensures
        r@ == dec_of_int(n as int),
{
    if n >= 0 {
        u64_to_dec(n as u64)
    } else {
        let wide: i128 = n as i128;
        let mag: u64 = (-wide) as u64;
        assert(mag as int == -(n as int));
        let mut s = String::new();
        proof {
            reveal_strlit("-");
        }
        s.append("-");
        let d = u64_to_dec(mag);
        s.append(d.as_str());
        proof {
            assert(s@ =~= dec_of_int(n as int));
        }
        s
    }
}

/// The value of a digit sequence is non-negative.
proof fn lemma_dec_val_nonneg(s: Seq<char>)
    requires
        all_dec_digits(s),
    ensures
        dec_val(s) >= 0,
    decreases s.len(),
{
    if s.len() > 0 {
        assert(all_dec_digits(s.drop_last())) by {
            assert(forall|i: int| 0 <= i < s.len() - 1 ==> s.drop_last()[i] == s[i]);
        }
        lemma_dec_val_nonneg(s.drop_last());
        assert(is_ascii_digit_char(s.last()));
        assert(digit_val(s.last()) >= 0);
        assert(dec_val(s.drop_last()) * 10 >= 0) by (nonlinear_arith)
            requires
                dec_val(s.drop_last()) >= 0,
        ;
    }
}

/// Extending a digit string multiplies its value by ten and adds the digit.
proof fn lemma_dec_val_take_step(s: Seq<char>, j: int)
    requires
        0 <= j < s.len(),
    ensures
        dec_val(s.take(j + 1)) == dec_val(s.take(j)) * 10 + digit_val(s[j]),
{
    assert(s.take(j + 1).drop_last() =~= s.take(j));
    assert(s.take(j + 1).last() == s[j]);
}

/// A prefix of a digit string never has a larger value than the whole.
proof fn lemma_dec_val_prefix_le(s: Seq<char>, j: int)
    requires
        all_dec_digits(s),
        0 <= j <= s.len(),
    ensures
        dec_val(s.take(j)) <= dec_val(s),
    decreases s.len() - j,
{
    if j == s.len() {
        assert(s.take(j) =~= s);
    } else {
        lemma_dec_val_take_step(s, j);
        assert(all_dec_digits(s.take(j))) by {
            assert(forall|i: int| 0 <= i < j ==> s.take(j)[i] == s[i]);
        }
        lemma_dec_val_nonneg(s.take(j));
        assert(dec_val(s.take(j)) * 10 >= dec_val(s.take(j))) by (nonlinear_arith)
            requires
                dec_val(s.take(j)) >= 0,
        ;
        assert(is_ascii_digit_char(s[j]));
        lemma_dec_val_prefix_le(s, j + 1);
    }
}

/// A decimal timestamp the deduplication file may hold: an optional `+`, then
/// one or more digits whose value fits the timestamp width.  This is what a
/// standard unsigned decimal parse accepts.
pub open spec fn parse_u128_spec(s: Seq<char>) -> Option<u128> {
    let body = if s.len() > 0 && s[0] == '+' {
        s.drop_first()
    } else {
        s
    };
    if body.len() > 0 && all_dec_digits(body) && dec_val(body) <= u128::MAX {
        Some(dec_val(body) as u128)
    } else {
        None
    }
}

/// Parse an unsigned decimal value: an optional leading `+`, then one or
/// more digits; anything else, or a value over the limit, is rejected.
#[verifier::loop_isolation(false)]
pub fn parse_u128(s: &str) -> (r: Option<u128>)
    ensures
        r == parse_u128_spec(s@),
{
    let n = s.unicode_len();
    let start: usize = if n > 0 && s.get_char(0) == '+' {
        1
    } else {
        0
    };
    let ghost body = if s@.len() > 0 && s@[0] == '+' {
        s@.drop_first()
    } else {
        s@
    };
    proof {
        assert(body =~= s@.skip(start as int));
    }
    if start == n {
        return None;
    }
    let mut acc: u128 = 0;
    let mut i: usize = start;
    while i < n
        invariant
            start <= i <= n,
            n == s@.len(),
            start < n,
            body == s@.skip(start as int),
            all_dec_digits(body.take(i - start)),
            acc == dec_val(body.take(i - start)),
        decreases n - i,
    {
        let c = s.get_char(i);
        if !('0' <= c && c <= '9') {
            assert(!is_ascii_digit_char(body[i - start]));
            return None;
        }
        let d: u128 = (c as u32 as u128) - 48;
        assert(d == digit_val(c) && d <= 9);
        proof {
            lemma_dec_val_take_step(body, i - start);
            assert(body.take(i - start + 1).drop_last() =~= body.take(i - start));
        }
        if acc > u128::MAX / 10 || (acc == u128::MAX / 10 && d > u128::MAX % 10) {
            proof {
                assert(acc * 10 + d > u128::MAX) by (nonlinear_arith)
                    requires
                        acc > u128::MAX / 10 || (acc == u128::MAX / 10 && d > u128::MAX % 10),
                        acc >= 0,
                        d >= 0,
                ;
                assert(body[i - start] == c);
                assert(dec_val(body.take(i - start + 1)) == acc * 10 + d);
                if all_dec_digits(body) {
                    lemma_dec_val_prefix_le(body, i - start + 1);
                    assert(dec_val(body) > u128::MAX);
                }
            }
            return None;
        }
        proof {
            assert(acc * 10 + d <= u128::MAX) by (nonlinear_arith)
                requires
                    acc <= u128::MAX / 10,
                    acc == u128::MAX / 10 ==> d <= u128::MAX % 10,
                    0 <= d <= 9,
                    acc >= 0,
            ;
        }
        acc = acc * 10 + d;
        i = i + 1;
        proof {
            assert(all_dec_digits(body.take(i - start))) by {
                assert(forall|k: int|
                    0 <= k < i - start - 1 ==> #[trigger] body.take(i - start)[k] == body.take(
                        i - start - 1,
                    )[k]);
                assert(body.take(i - start)[i - start - 1] == c);
            }
        }
    }
    proof {
        assert(body.take(n - start) =~= body);
    }
    Some(acc)
}

/// Rendering and parsing round-trip: the decimal rendering of `n` is all
/// digits, starts with a digit, and parses back to `n`.
pub proof fn lemma_dec_of_round_trip(n: nat)
    ensures
        dec_of(n).len() >= 1,
        all_dec_digits(dec_of(n)),
        dec_val(dec_of(n)) == n,
    decreases n,
{
    if n < 10 {
        assert(dec_of(n) =~= seq![digit_char(n as int)]);
        assert(is_ascii_digit_char(digit_char(n as int)));
        assert(seq![digit_char(n as int)].drop_last() =~= Seq::<char>::empty());
        assert(seq![digit_char(n as int)].last() == digit_char(n as int));
        assert(dec_val(Seq::<char>::empty()) == 0);
        assert(dec_val(dec_of(n)) == digit_val(digit_char(n as int)));
    } else {
        lemma_dec_of_round_trip(n / 10);
        let prev = dec_of(n / 10);
        let full = dec_of(n);
        assert(full == prev.push(digit_char((n % 10) as int)));
        assert(full.drop_last() =~= prev);
        assert(full.last() == digit_char((n % 10) as int));
        assert(is_ascii_digit_char(digit_char((n % 10) as int)));
        assert(all_dec_digits(full)) by {
            assert(forall|i: int| 0 <= i < prev.len() ==> full[i] == prev[i]);
        }
        assert(dec_val(full) == dec_val(prev) * 10 + digit_val(digit_char((n % 10) as int)));
        assert(digit_val(digit_char((n % 10) as int)) == n % 10);
        assert((n / 10) * 10 + n % 10 == n) by (nonlinear_arith);
    }
}

} // verus!
