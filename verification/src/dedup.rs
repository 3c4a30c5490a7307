//! Cross-process notification deduplication decisions.
//!
//! Several independent client processes can observe the same upstream event
//! and would each raise an alert.  They coordinate through one shared file
//! per event class, holding `key\ntimestamp_ms`.  The caller reads the file
//! under an exclusive lock, asks this module for the decision, and — when
//! the alert is allowed — overwrites the file with [`dedup_record`] before
//! releasing the lock.  All file and lock handling stays with the caller;
//! the decision itself is pure.

use crate::digits::dec_of;
use crate::digits::dec_of_int;
use crate::digits::dec_val;
use crate::digits::i64_to_dec;
use crate::digits::lemma_dec_of_round_trip;
use crate::digits::parse_u128;
use crate::digits::parse_u128_spec;
use crate::digits::u64_to_dec;
use crate::phone::is_ascii_digit_char;
use crate::text::find_char;
use crate::text::str_eq;
use vstd::prelude::*;

verus! {

/// Width of the deduplication window in milliseconds: a repeat of the same
/// key inside this window is suppressed.
pub const DEDUP_WINDOW_MS: u64 = 2000;

/// The record a well-formed deduplication file holds: the key of the last
/// allowed alert and its timestamp.  `None` when the content is empty or
/// corrupt, which counts as no prior record.
pub open spec fn stored_entry(contents: Seq<char>) -> Option<(Seq<char>, u128)> {
    match contents.index_of_first('\n') {
        Some(i) => match parse_u128_spec(contents.skip(i + 1)) {
            Some(ts) => Some((contents.take(i), ts)),
            None => None,
        },
        None => None,
    }
}

/// The deduplication decision: allow unless a prior record holds the same
/// key with a timestamp less than [`DEDUP_WINDOW_MS`] before `now_ms`.
pub open spec fn dedup_allows(contents: Seq<char>, key: Seq<char>, now_ms: u64) -> bool {
    match stored_entry(contents) {
        Some(entry) => entry.0 != key || now_ms as int >= entry.1 + DEDUP_WINDOW_MS,
        None => true,
    }
}

/// The content written to the deduplication file when an alert is allowed.
pub open spec fn record_spec(key: Seq<char>, now_ms: u64) -> Seq<char> {
    key + seq!['\n'] + dec_of(now_ms as nat)
}

/// Decide whether an alert for `key` may be shown, given the current content
/// of its event class's deduplication file and the current time.  Empty or
/// corrupt content counts as no prior record and allows the alert.
pub fn should_show_notification(prior_contents: &str, key: &str, now_ms: u64) -> (r: bool)
    ensures
        r == dedup_allows(prior_contents@, key@, now_ms),
{
    let c = prior_contents;
    let n = c.unicode_len();
    proof {
        c@.index_of_first_ensures('\n');
    }
    let newline = find_char(c, '\n');
    let i = match newline {
        Some(i) => i,
        None => {
            assert(forall|j: int| 0 <= j < c@.len() ==> c@[j] != '\n');
            assert(!c@.contains('\n'));
            return true;
        },
    };
    proof {
        assert(c@.contains('\n'));
        let first = c@.index_of_first('\n')->Some_0;
        assert(c@[first] == '\n');
        assert(first == i) by {
            if first < i {
                assert(c@[first] != '\n');
            }
            if first > i {
                assert(c@[i as int] != '\n');
            }
        }
    }
    let ts_str = c.substring_char(i + 1, n);
    proof {
        assert(ts_str@ =~= c@.skip(i + 1));
    }
    let ts = match parse_u128(ts_str) {
        Some(ts) => ts,
        None => {
            return true;
        },
    };
    let stored_key = c.substring_char(0, i);
    proof {
        assert(stored_key@ =~= c@.take(i as int));
    }
    if !str_eq(stored_key, key) {
        return true;
    }
    now_ms as u128 >= ts && now_ms as u128 - ts >= DEDUP_WINDOW_MS as u128
}

/// Render the new deduplication file content for an allowed alert: the key,
/// a newline, and the decimal timestamp.
pub fn dedup_record(key: &str, now_ms: u64) -> (r: String)
    ensures
        r@ == record_spec(key@, now_ms),
{
    let mut s = key.to_owned();
    proof {
        reveal_strlit("\n");
    }
    s.append("\n");
    let ts = u64_to_dec(now_ms);
    s.append(ts.as_str());
    proof {
        assert(s@ =~= record_spec(key@, now_ms));
    }
    s
}

/// The deduplication key of a message event: `thread_id:message_timestamp`.
pub open spec fn sms_key_spec(thread_id: i64, message_date: i64) -> Seq<char> {
    dec_of_int(thread_id as int) + seq![':'] + dec_of_int(message_date as int)
}

/// Build the deduplication key for a message event from its thread id and
/// timestamp.
pub fn sms_notification_key(thread_id: i64, message_date: i64) -> (r: String)
    ensures
        r@ == sms_key_spec(thread_id, message_date),
{
    let mut s = i64_to_dec(thread_id);
    proof {
        reveal_strlit(":");
    }
    s.append(":");
    let d = i64_to_dec(message_date);
    s.append(d.as_str());
    proof {
        assert(s@ =~= sms_key_spec(thread_id, message_date));
    }
    s
}

/// Decide whether a file-transfer alert may be shown; the event is keyed by
/// the transferred item's address.
pub fn should_show_file_notification(prior_contents: &str, file_url: &str, now_ms: u64) -> (r:
    bool)
    ensures
        r == dedup_allows(prior_contents@, file_url@, now_ms),
{
    should_show_notification(prior_contents, file_url, now_ms)
}

/// Decide whether a message alert may be shown; the event is keyed by the
/// thread id and message timestamp.
pub fn should_show_sms_notification(
    prior_contents: &str,
    thread_id: i64,
    message_date: i64,
    now_ms: u64,
) -> (r: bool)
    ensures
        r == dedup_allows(prior_contents@, sms_key_spec(thread_id, message_date), now_ms),
{
    let key = sms_notification_key(thread_id, message_date);
    should_show_notification(prior_contents, key.as_str(), now_ms)
}

/// Content without a parseable record behaves exactly like no prior record:
/// the alert is allowed, whatever the key and the time.
pub proof fn lemma_dedup_fail_open(contents: Seq<char>, key: Seq<char>, now_ms: u64)
    requires
        stored_entry(contents) is None,
    ensures
        dedup_allows(contents, key, now_ms),
{
}

/// Empty content holds no record, so the first alert for any key is allowed.
pub proof fn lemma_dedup_empty_allows(key: Seq<char>, now_ms: u64)
    ensures
        stored_entry(Seq::<char>::empty()) is None,
        dedup_allows(Seq::<char>::empty(), key, now_ms),
{
    Seq::<char>::empty().index_of_first_ensures('\n');
    assert(!Seq::<char>::empty().contains('\n'));
}

/// After an allowed alert for `key` at time `t` wrote its record, a later
/// decision against that record allows exactly the other keys, and `key`
/// itself only once the window has elapsed.
pub proof fn lemma_dedup_after_record(key: Seq<char>, t: u64, key2: Seq<char>, now_ms: u64)
    requires
        forall|j: int| 0 <= j < key.len() ==> key[j] != '\n',
    ensures
        dedup_allows(record_spec(key, t), key2, now_ms) == (key2 != key || now_ms as int >= t
            + DEDUP_WINDOW_MS),
{
    let r = record_spec(key, t);
    let k = key.len() as int;
    lemma_dec_of_round_trip(t as nat);
    let d = dec_of(t as nat);
    assert(r.len() == k + 1 + d.len());
    assert(r[k] == '\n');
    assert(forall|j: int| 0 <= j < k ==> r[j] == key[j]);
    r.index_of_first_ensures('\n');
    assert(r.contains('\n'));
    let first = r.index_of_first('\n')->Some_0;
    assert(r[first] == '\n');
    assert(first == k) by {
        if first < k {
            assert(r[first] != '\n');
        }
        if first > k {
            assert(r[k] != '\n');
        }
    }
    assert(r.take(k) =~= key);
    assert(r.skip(k + 1) =~= d);
    assert(parse_u128_spec(d) == Some(t as u128)) by {
        assert(d.len() > 0);
        assert(is_ascii_digit_char(d[0]));
        assert(d[0] != '+');
        assert(dec_val(d) == t as int <= u128::MAX);
    }
    assert(stored_entry(r) == Some((key, t as u128)));
}

} // verus!
