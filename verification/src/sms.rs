//! Message entities decoded from the bus records, and their aggregation
//! into conversation summaries and ordered thread histories.
//!
//! A record is a structure whose fields are read by position: 0 is the
//! direction code, 1 the body, 2 the address list, 3 the timestamp, 4 the
//! read flag and 6 the thread id; 5, 7 and 8 are not read.  A missing or
//! differently shaped field falls back to zero, false or empty instead of
//! failing, because the producer enforces no stable schema.

use crate::variant::get_first_address;
use crate::variant::get_i32_from_value;
use crate::variant::get_i64_from_value;
use crate::variant::get_string_from_value;
use crate::variant::spec_as_i32;
use crate::variant::spec_as_i64;
use crate::variant::spec_as_str;
use crate::variant::spec_first_address;
use crate::variant::values_view;
use crate::variant::VariantValue;
use crate::variant::VariantView;
use vstd::multiset::Multiset;
use vstd::prelude::*;

verus! {

/// Direction of a message: received, or anything else.  The producer's
/// richer draft/outbox/failed/queued codes all collapse to `Sent`.
#[derive(Debug, Clone, Copy, PartialEq, Eq, Structural)]
pub enum MessageType {
    /// Received from the remote party: direction code 1.
    Inbox,
    /// Any other direction code.
    Sent,
}

/// The direction for a decoded direction code.
pub open spec fn message_type_of(code: i32) -> MessageType {
    if code == 1 {
        MessageType::Inbox
    } else {
        MessageType::Sent
    }
}

impl core::convert::From<i32> for MessageType {
    /// Only code 1 is a received message; every other code is outgoing.
    fn from(value: i32) -> (r: MessageType) {
        if value == 1 {
            MessageType::Inbox
        } else {
            MessageType::Sent
        }
    }
}

impl vstd::std_specs::convert::FromSpecImpl<i32> for MessageType {
    open spec fn obeys_from_spec() -> bool {
        true
    }

    open spec fn from_spec(v: i32) -> MessageType {
        message_type_of(v)
    }
}

/// One message, immutable once decoded.
#[derive(Debug, Clone)]
pub struct SmsMessage {
    /// The text content.
    pub body: String,
    /// The other party's address.
    pub address: String,
    /// Milliseconds since the epoch.
    pub date: i64,
    /// Received or sent.
    pub message_type: MessageType,
    /// Whether the message has been read.
    pub read: bool,
    /// The conversation thread this message belongs to.
    pub thread_id: i64,
}

/// The mathematical model of an [`SmsMessage`].
pub ghost struct MessageView {
    pub body: Seq<char>,
    pub address: Seq<char>,
    pub date: i64,
    pub message_type: MessageType,
    pub read: bool,
    pub thread_id: i64,
}

impl View for SmsMessage {
    type V = MessageView;

    open spec fn view(&self) -> MessageView {
        MessageView {
            body: self.body@,
            address: self.address@,
            date: self.date,
            message_type: self.message_type,
            read: self.read,
            thread_id: self.thread_id,
        }
    }
}

/// The models of a list of messages.
pub open spec fn msgs_views(s: Seq<SmsMessage>) -> Seq<MessageView> {
    s.map_values(|m: SmsMessage| m@)
}

/// One entry of the conversation list: the most recent message of a thread.
#[derive(Debug, Clone)]
pub struct ConversationSummary {
    /// The conversation thread id.
    pub thread_id: i64,
    /// The other party's address.
    pub address: String,
    /// The body of the thread's most recent message.
    pub last_message: String,
    /// The timestamp of the thread's most recent message.
    pub timestamp: i64,
    /// Whether that message is unread.
    pub unread: bool,
}

/// The mathematical model of a [`ConversationSummary`].
pub ghost struct SummaryView {
    pub thread_id: i64,
    pub address: Seq<char>,
    pub last_message: Seq<char>,
    pub timestamp: i64,
    pub unread: bool,
}

impl View for ConversationSummary {
    type V = SummaryView;

    open spec fn view(&self) -> SummaryView {
        SummaryView {
            thread_id: self.thread_id,
            address: self.address@,
            last_message: self.last_message@,
            timestamp: self.timestamp,
            unread: self.unread,
        }
    }
}

/// The summary a message yields when it is the most recent of its thread.
pub open spec fn summary_of(m: MessageView) -> SummaryView {
    SummaryView {
        thread_id: m.thread_id,
        address: m.address,
        last_message: m.body,
        timestamp: m.date,
        unread: !m.read,
    }
}

/// The field at position `i`, if the record has one there.
pub open spec fn field_at(fields: Seq<VariantView>, i: int) -> Option<VariantView> {
    if 0 <= i < fields.len() {
        Some(fields[i])
    } else {
        None
    }
}

/// The 32-bit integer reading of the field at position `i`.
pub open spec fn opt_i32_at(fields: Seq<VariantView>, i: int) -> Option<i32> {
    match field_at(fields, i) {
        Some(v) => spec_as_i32(v),
        None => None,
    }
}

/// The 64-bit integer reading of the field at position `i`.
pub open spec fn opt_i64_at(fields: Seq<VariantView>, i: int) -> Option<i64> {
    match field_at(fields, i) {
        Some(v) => spec_as_i64(v),
        None => None,
    }
}

/// The text reading of the field at position `i`.
pub open spec fn opt_str_at(fields: Seq<VariantView>, i: int) -> Option<Seq<char>> {
    match field_at(fields, i) {
        Some(v) => spec_as_str(v),
        None => None,
    }
}

/// The first address of the address-list field at position `i`.
pub open spec fn opt_addr_at(fields: Seq<VariantView>, i: int) -> Option<Seq<char>> {
    match field_at(fields, i) {
        Some(v) => spec_first_address(v),
        None => None,
    }
}

/// The message a record decodes to: a structure decodes field by field, and
/// every field degrades to zero, false or empty when it is absent or of an
/// unexpected shape; any other record kind is dropped.
pub open spec fn decode_message_spec(v: VariantView) -> Option<MessageView> {
    match v {
        VariantView::Structure(fields) => Some(
            MessageView {
                message_type: message_type_of(
                    match opt_i32_at(fields, 0) {
                        Some(c) => c,
                        None => 0,
                    },
                ),
                body: match opt_str_at(fields, 1) {
                    Some(s) => s,
                    None => Seq::empty(),
                },
                address: match opt_addr_at(fields, 2) {
                    Some(a) => a,
                    None => Seq::empty(),
                },
                date: match opt_i64_at(fields, 3) {
                    Some(d) => d,
                    None => 0,
                },
                read: match opt_i32_at(fields, 4) {
                    Some(x) => x != 0,
                    None => false,
                },
                thread_id: match opt_i64_at(fields, 6) {
                    Some(t) => t,
                    None => 0,
                },
            },
        ),
        _ => None,
    }
}

/// Decode one bus record into a message.  A record that is not a structure
/// is refused; inside a structure every field degrades to zero, false or
/// empty when it is absent or of an unexpected shape.
pub fn parse_sms_message(value: &VariantValue) -> (r: Option<SmsMessage>)
    ensures
        r is Some == decode_message_spec(value@) is Some,
        r is Some ==> r->Some_0@ == decode_message_spec(value@)->Some_0,
{
    let fields = match value {
        VariantValue::Structure(fields) => fields,
        _ => {
            return None;
        },
    };
    proof {
        assert(value@ is Structure);
        assert(value@->Structure_0.len() == fields@.len());
        assert(forall|i: int|
            0 <= i < fields@.len() ==> #[trigger] value@->Structure_0[i] == fields@[i]@);
    }
    let ghost fv = value@->Structure_0;
    let msg_type_code = if fields.len() > 0 {
        match get_i32_from_value(&fields[0]) {
            Some(c) => c,
            None => 0,
        }
    } else {
        0
    };
    let body = if fields.len() > 1 {
        match get_string_from_value(&fields[1]) {
            Some(s) => s,
            None => String::new(),
        }
    } else {
        String::new()
    };
    let address = if fields.len() > 2 {
        match get_first_address(&fields[2]) {
            Some(a) => a,
            None => String::new(),
        }
    } else {
        String::new()
    };
    let date = if fields.len() > 3 {
        match get_i64_from_value(&fields[3]) {
            Some(d) => d,
            None => 0,
        }
    } else {
        0
    };
    let read = if fields.len() > 4 {
        match get_i32_from_value(&fields[4]) {
            Some(x) => x != 0,
            None => false,
        }
    } else {
        false
    };
    let thread_id = if fields.len() > 6 {
        match get_i64_from_value(&fields[6]) {
            Some(t) => t,
            None => 0,
        }
    } else {
        0
    };
    Some(
        SmsMessage {
            body,
            address,
            date,
            message_type: MessageType::from(msg_type_code),
            read,
            thread_id,
        },
    )
}

/// A structure with fewer than seven positional fields still decodes, and
/// its thread id defaults to zero.
pub proof fn lemma_short_record_defaults(v: VariantView)
    requires
        v is Structure,
        v->Structure_0.len() < 7,
    ensures
        decode_message_spec(v) is Some,
        decode_message_spec(v)->Some_0.thread_id == 0,
{
}

/// The decoded models of a list of records, in order, with undecodable
/// records dropped.
pub open spec fn decode_list(vs: Seq<VariantView>) -> Seq<MessageView>
    decreases vs.len(),
{
    if vs.len() == 0 {
        Seq::empty()
    } else {
        decode_list(vs.drop_last()) + match decode_message_spec(vs.last()) {
            Some(m) => seq![m],
            None => Seq::<MessageView>::empty(),
        }
    }
}

/// The decoded models of a list of record values.
pub open spec fn decoded_models(values: Seq<VariantValue>) -> Seq<MessageView> {
    decode_list(values_view(values))
}

/// Decode every record of a batch, dropping the undecodable ones.
pub fn decode_records(values: &Vec<VariantValue>) -> (r: Vec<SmsMessage>)
    ensures
        msgs_views(r@) == decoded_models(values@),
{
    let mut msgs: Vec<SmsMessage> = Vec::new();
    let mut i: usize = 0;
    while i < values.len()
        invariant
            i <= values@.len(),
            msgs_views(msgs@) == decode_list(values_view(values@).take(i as int)),
        decreases values@.len() - i,
    {
        let ghost vv = values_view(values@);
        proof {
            assert(vv.take(i + 1).drop_last() =~= vv.take(i as int));
            assert(vv.take(i + 1).last() == vv[i as int]);
            assert(vv[i as int] == values@[i as int]@);
        }
        match parse_sms_message(&values[i]) {
            Some(m) => {
                proof {
                    broadcast use vstd::prelude::Seq::lemma_push_map_commute;

                    assert(msgs_views(msgs@.push(m)) =~= msgs_views(msgs@).push(m@));
                    assert(decode_list(vv.take(i + 1)) =~= decode_list(vv.take(i as int)).push(
                        decode_message_spec(vv[i as int])->Some_0,
                    ));
                }
                msgs.push(m);
            },
            None => {
                proof {
                    assert(decode_list(vv.take(i + 1)) =~= decode_list(vv.take(i as int)));
                }
            },
        }
        i = i + 1;
    }
    proof {
        assert(values_view(values@).take(values@.len() as int) =~= values_view(values@));
    }
    msgs
}

/// Most-recent-first order by timestamp.
pub open spec fn sorted_desc_by_date(s: Seq<SmsMessage>) -> bool {
    forall|i: int, j: int| 0 <= i < j < s.len() ==> s[i].date >= s[j].date
}

/// Oldest-first order by timestamp.
pub open spec fn sorted_asc_by_date(s: Seq<SmsMessage>) -> bool {
    forall|i: int, j: int| 0 <= i < j < s.len() ==> s[i].date <= s[j].date
}

/// Inserting into a sequence inserts into its multiset.
pub proof fn lemma_seq_insert_to_multiset<A>(s: Seq<A>, pos: int, x: A)
    requires
        0 <= pos <= s.len(),
    ensures
        s.insert(pos, x).to_multiset() =~= s.to_multiset().insert(x),
{
    broadcast use vstd::seq_lib::lemma_multiset_commutative;
    broadcast use vstd::seq_lib::group_to_multiset_ensures;

    let a = s.subrange(0, pos);
    let b = s.subrange(pos, s.len() as int);
    assert(s.insert(pos, x) == a.push(x) + b);
    assert(s =~= a + b);
    assert((a.push(x) + b).to_multiset() == a.push(x).to_multiset().add(b.to_multiset()));
    assert(a.push(x).to_multiset() =~= a.to_multiset().insert(x));
    assert((a + b).to_multiset() == a.to_multiset().add(b.to_multiset()));
}

proof fn lemma_msgs_views_insert(s: Seq<SmsMessage>, pos: int, x: SmsMessage)
    requires
        0 <= pos <= s.len(),
    ensures
        msgs_views(s.insert(pos, x)) =~= msgs_views(s).insert(pos, x@),
{
    s.insert_ensures(pos, x);
    msgs_views(s).insert_ensures(pos, x@);
}

fn insert_sorted_desc(out: &mut Vec<SmsMessage>, x: SmsMessage)
    requires
        sorted_desc_by_date(old(out)@),
    ensures
        sorted_desc_by_date(final(out)@),
        final(out)@.len() == old(out)@.len() + 1,
        final(out)@.to_multiset() == old(out)@.to_multiset().insert(x),
        msgs_views(final(out)@).to_multiset() == msgs_views(old(out)@).to_multiset().insert(x@),
{
    let mut pos: usize = 0;
    while pos < out.len() && out[pos].date >= x.date
        invariant
            pos <= out@.len(),
            out@ == old(out)@,
            forall|i: int| 0 <= i < pos ==> out@[i].date >= x.date,
        decreases out@.len() - pos,
    {
        pos = pos + 1;
    }
    proof {
        old(out)@.insert_ensures(pos as int, x);
        lemma_seq_insert_to_multiset(old(out)@, pos as int, x);
        lemma_msgs_views_insert(old(out)@, pos as int, x);
        lemma_seq_insert_to_multiset(msgs_views(old(out)@), pos as int, x@);
    }
    out.insert(pos, x);
    proof {
        let new = out@;
        let prev = old(out)@;
        assert forall|i: int, j: int| 0 <= i < j < new.len() implies new[i].date >= new[j].date by {
            if j == pos {
                assert(new[i] == prev[i]);
            } else if j > pos {
                if i < pos {
                    assert(new[i] == prev[i] && new[j] == prev[j - 1]);
                } else if i == pos {
                    assert(pos < prev.len() ==> prev[pos as int].date < x.date);
                    assert(new[j] == prev[j - 1] && j - 1 >= pos);
                } else {
                    assert(new[i] == prev[i - 1] && new[j] == prev[j - 1]);
                }
            } else {
                assert(new[i] == prev[i] && new[j] == prev[j]);
            }
        }
    }
}

/// The messages that carry one timestamp.
pub open spec fn same_date(d: i64) -> spec_fn(MessageView) -> bool {
    |m: MessageView| m.date == d
}

proof fn lemma_filter_none(s: Seq<MessageView>, p: spec_fn(MessageView) -> bool)
    requires
        forall|i: int| 0 <= i < s.len() ==> !p(#[trigger] s[i]),
    ensures
        s.filter(p) =~= Seq::<MessageView>::empty(),
    decreases s.len(),
{
    reveal(Seq::filter);
    if s.len() > 0 {
        assert(forall|i: int|
            0 <= i < s.drop_last().len() ==> #[trigger] s.drop_last()[i] == s[i]);
        lemma_filter_none(s.drop_last(), p);
        assert(!p(s.last()));
    }
}

/// Inserting a message after every message with its timestamp or an earlier
/// one, and before every strictly later one, appends it to its timestamp's
/// subsequence and leaves every other timestamp's subsequence unchanged.
proof fn lemma_insert_after_equals_filter(sv: Seq<MessageView>, pos: int, x: MessageView, d: i64)
    requires
        0 <= pos <= sv.len(),
        forall|i: int| 0 <= i < pos ==> (#[trigger] sv[i]).date <= x.date,
        forall|i: int| pos <= i < sv.len() ==> (#[trigger] sv[i]).date > x.date,
    ensures
        sv.insert(pos, x).filter(same_date(d)) == (if d == x.date {
            sv.filter(same_date(d)).push(x)
        } else {
            sv.filter(same_date(d))
        }),
{
    broadcast use vstd::prelude::Seq::lemma_filter_push;

    let p = same_date(d);
    let a = sv.subrange(0, pos);
    let b = sv.subrange(pos, sv.len() as int);
    assert(sv.insert(pos, x) == a.push(x) + b);
    assert(sv =~= a + b);
    vstd::prelude::Seq::filter_distributes_over_add(a.push(x), b, p);
    vstd::prelude::Seq::filter_distributes_over_add(a, b, p);
    if d == x.date {
        assert(forall|i: int| 0 <= i < b.len() ==> !p(#[trigger] b[i]));
        lemma_filter_none(b, p);
        assert(p(x));
        assert(a.push(x).filter(p) == a.filter(p).push(x));
        assert(sv.insert(pos, x).filter(p) =~= sv.filter(p).push(x));
    } else {
        assert(!p(x));
        assert(a.push(x).filter(p) == a.filter(p));
        assert(sv.insert(pos, x).filter(p) =~= sv.filter(p));
    }
}

fn insert_sorted_asc(out: &mut Vec<SmsMessage>, x: SmsMessage)
    requires
        sorted_asc_by_date(old(out)@),
    ensures
        sorted_asc_by_date(final(out)@),
        final(out)@.len() == old(out)@.len() + 1,
        final(out)@.to_multiset() == old(out)@.to_multiset().insert(x),
        msgs_views(final(out)@).to_multiset() == msgs_views(old(out)@).to_multiset().insert(x@),
        forall|d: i64| #[trigger]
            msgs_views(final(out)@).filter(same_date(d)) == (if d == x.date {
                msgs_views(old(out)@).filter(same_date(d)).push(x@)
            } else {
                msgs_views(old(out)@).filter(same_date(d))
            }),
{
    let mut pos: usize = 0;
    while pos < out.len() && out[pos].date <= x.date
        invariant
            pos <= out@.len(),
            out@ == old(out)@,
            forall|i: int| 0 <= i < pos ==> out@[i].date <= x.date,
        decreases out@.len() - pos,
    {
        pos = pos + 1;
    }
    proof {
        old(out)@.insert_ensures(pos as int, x);
        lemma_seq_insert_to_multiset(old(out)@, pos as int, x);
        lemma_msgs_views_insert(old(out)@, pos as int, x);
        lemma_seq_insert_to_multiset(msgs_views(old(out)@), pos as int, x@);
    }
    out.insert(pos, x);
    proof {
        let new = out@;
        let prev = old(out)@;
        assert forall|i: int, j: int| 0 <= i < j < new.len() implies new[i].date <= new[j].date by {
            if j == pos {
                assert(new[i] == prev[i]);
            } else if j > pos {
                if i < pos {
                    assert(new[i] == prev[i] && new[j] == prev[j - 1]);
                } else if i == pos {
                    assert(pos < prev.len() ==> prev[pos as int].date > x.date);
                    assert(new[j] == prev[j - 1] && j - 1 >= pos);
                } else {
                    assert(new[i] == prev[i - 1] && new[j] == prev[j - 1]);
                }
            } else {
                assert(new[i] == prev[i] && new[j] == prev[j]);
            }
        }
        let sv = msgs_views(prev);
        assert(forall|i: int| 0 <= i < sv.len() ==> (#[trigger] sv[i]).date == prev[i].date);
        assert(forall|i: int| 0 <= i < pos ==> (#[trigger] sv[i]).date <= x@.date);
        assert forall|i: int| pos <= i < sv.len() implies (#[trigger] sv[i]).date > x@.date by {
            assert(pos < prev.len());
            assert(prev[pos as int].date > x.date);
            assert(prev[i].date >= prev[pos as int].date);
        }
        assert forall|d: i64| #[trigger]
            msgs_views(new).filter(same_date(d)) == (if d == x.date {
                sv.filter(same_date(d)).push(x@)
            } else {
                sv.filter(same_date(d))
            }) by {
            lemma_insert_after_equals_filter(sv, pos as int, x@, d);
            assert(msgs_views(new) =~= sv.insert(pos as int, x@));
        }
    }
}

fn sort_desc_by_date(msgs: Vec<SmsMessage>) -> (r: Vec<SmsMessage>)
    ensures
        sorted_desc_by_date(r@),
        r@.len() == msgs@.len(),
        r@.to_multiset() == msgs@.to_multiset(),
        msgs_views(r@).to_multiset() == msgs_views(msgs@).to_multiset(),
{
    broadcast use vstd::seq_lib::group_to_multiset_ensures;

    let ghost orig = msgs@;
    let mut rest = msgs;
    let mut out: Vec<SmsMessage> = Vec::new();
    while rest.len() > 0
        invariant
            sorted_desc_by_date(out@),
            out@.len() + rest@.len() == orig.len(),
            out@.to_multiset().add(rest@.to_multiset()) =~= orig.to_multiset(),
            msgs_views(out@).to_multiset().add(msgs_views(rest@).to_multiset()) =~= msgs_views(
                orig,
            ).to_multiset(),
        decreases rest@.len(),
    {
        broadcast use vstd::multiset::group_multiset_axioms;
        broadcast use vstd::seq_lib::group_to_multiset_ensures;

        let ghost prev_rest = rest@;
        let x = rest.remove(0);
        proof {
            assert(rest@ =~= prev_rest.drop_first());
            assert(prev_rest.remove(0).to_multiset() == prev_rest.to_multiset().remove(
                prev_rest[0],
            ));
            assert(prev_rest.contains(x));
            assert(prev_rest.to_multiset().count(x) > 0);
            assert(msgs_views(rest@) =~= msgs_views(prev_rest).remove(0));
            assert(msgs_views(prev_rest).remove(0).to_multiset() == msgs_views(
                prev_rest,
            ).to_multiset().remove(msgs_views(prev_rest)[0]));
            assert(msgs_views(prev_rest)[0] == x@);
            assert(msgs_views(prev_rest).contains(x@));
            assert(msgs_views(prev_rest).to_multiset().count(x@) > 0);
        }
        insert_sorted_desc(&mut out, x);
        proof {
            assert(out@.to_multiset().add(rest@.to_multiset()) =~= orig.to_multiset());
            assert(msgs_views(out@).to_multiset().add(msgs_views(rest@).to_multiset())
                =~= msgs_views(orig).to_multiset());
        }
    }
    proof {
        broadcast use vstd::multiset::group_multiset_axioms;

        assert(rest@ =~= Seq::<SmsMessage>::empty());
        assert(rest@.to_multiset() =~= Multiset::<SmsMessage>::empty());
        assert(msgs_views(rest@) =~= Seq::<MessageView>::empty());
        assert(msgs_views(rest@).to_multiset() =~= Multiset::<MessageView>::empty());
        assert(out@.to_multiset() =~= orig.to_multiset());
        assert(msgs_views(out@).to_multiset() =~= msgs_views(orig).to_multiset());
    }
    out
}

fn sort_asc_by_date(msgs: Vec<SmsMessage>) -> (r: Vec<SmsMessage>)
    ensures
        sorted_asc_by_date(r@),
        r@.len() == msgs@.len(),
        r@.to_multiset() == msgs@.to_multiset(),
        msgs_views(r@).to_multiset() == msgs_views(msgs@).to_multiset(),
        forall|d: i64| #[trigger]
            msgs_views(r@).filter(same_date(d)) == msgs_views(msgs@).filter(same_date(d)),
{
    broadcast use vstd::seq_lib::group_to_multiset_ensures;
    broadcast use vstd::prelude::Seq::lemma_filter_push;

    let ghost orig = msgs@;
    let ghost ov = msgs_views(msgs@);
    let mut rest = msgs;
    let mut out: Vec<SmsMessage> = Vec::new();
    proof {
        reveal(Seq::filter);
        assert(msgs_views(out@) =~= Seq::<MessageView>::empty());
        assert forall|d: i64| #[trigger]
            msgs_views(out@).filter(same_date(d)) == ov.take(out@.len() as int).filter(
                same_date(d),
            ) by {
            assert(ov.take(0) =~= Seq::<MessageView>::empty());
            assert(msgs_views(out@).filter(same_date(d)) =~= Seq::<MessageView>::empty());
            assert(ov.take(0).filter(same_date(d)) =~= Seq::<MessageView>::empty());
        }
    }
    while rest.len() > 0
        invariant
            sorted_asc_by_date(out@),
            out@.len() + rest@.len() == orig.len(),
            ov == msgs_views(orig),
            rest@ =~= orig.skip(out@.len() as int),
            out@.to_multiset().add(rest@.to_multiset()) =~= orig.to_multiset(),
            msgs_views(out@).to_multiset().add(msgs_views(rest@).to_multiset()) =~= ov.to_multiset(),
            forall|d: i64| #[trigger]
                msgs_views(out@).filter(same_date(d)) == ov.take(out@.len() as int).filter(
                    same_date(d),
                ),
        decreases rest@.len(),
    {
        broadcast use vstd::multiset::group_multiset_axioms;
        broadcast use vstd::seq_lib::group_to_multiset_ensures;
        broadcast use vstd::prelude::Seq::lemma_filter_push;

        let ghost k = out@.len() as int;
        let ghost prev_rest = rest@;
        let ghost prev_out_views = msgs_views(out@);
        let x = rest.remove(0);
        proof {
            assert(x == orig[k]);
            assert(rest@ =~= prev_rest.drop_first());
            assert(rest@ =~= orig.skip(k + 1));
            assert(prev_rest.remove(0).to_multiset() == prev_rest.to_multiset().remove(
                prev_rest[0],
            ));
            assert(prev_rest.contains(x));
            assert(prev_rest.to_multiset().count(x) > 0);
            assert(msgs_views(rest@) =~= msgs_views(prev_rest).remove(0));
            assert(msgs_views(prev_rest).remove(0).to_multiset() == msgs_views(
                prev_rest,
            ).to_multiset().remove(msgs_views(prev_rest)[0]));
            assert(msgs_views(prev_rest)[0] == x@);
            assert(msgs_views(prev_rest).contains(x@));
            assert(msgs_views(prev_rest).to_multiset().count(x@) > 0);
        }
        insert_sorted_asc(&mut out, x);
        proof {
            assert(out@.to_multiset().add(rest@.to_multiset()) =~= orig.to_multiset());
            assert(msgs_views(out@).to_multiset().add(msgs_views(rest@).to_multiset())
                =~= ov.to_multiset());
            assert(ov[k] == x@);
            assert(ov.take(k + 1) =~= ov.take(k).push(x@));
            assert forall|d: i64| #[trigger]
                msgs_views(out@).filter(same_date(d)) == ov.take(out@.len() as int).filter(
                    same_date(d),
                ) by {
                assert(ov.take(k).push(x@).filter(same_date(d)) == (if same_date(d)(x@) {
                    ov.take(k).filter(same_date(d)).push(x@)
                } else {
                    ov.take(k).filter(same_date(d))
                }));
                assert(msgs_views(out@).filter(same_date(d)) == (if d == x.date {
                    prev_out_views.filter(same_date(d)).push(x@)
                } else {
                    prev_out_views.filter(same_date(d))
                }));
            }
        }
    }
    proof {
        broadcast use vstd::multiset::group_multiset_axioms;

        assert(rest@ =~= Seq::<SmsMessage>::empty());
        assert(rest@.to_multiset() =~= Multiset::<SmsMessage>::empty());
        assert(msgs_views(rest@) =~= Seq::<MessageView>::empty());
        assert(msgs_views(rest@).to_multiset() =~= Multiset::<MessageView>::empty());
        assert(out@.to_multiset() =~= orig.to_multiset());
        assert(msgs_views(out@).to_multiset() =~= ov.to_multiset());
        assert(ov.take(out@.len() as int) =~= ov);
    }
    out
}

/// Maximum number of entries in the conversation list.
pub const MAX_CONVERSATIONS: usize = 25;

/// For two sequences with the same multiset, every element of the first
/// occurs somewhere in the second.
proof fn lemma_multiset_eq_index<A>(a: Seq<A>, b: Seq<A>, i: int) -> (j: int)
    requires
        a.to_multiset() == b.to_multiset(),
        0 <= i < a.len(),
    ensures
        0 <= j < b.len() && b[j] == a[i],
{
    broadcast use vstd::seq_lib::group_to_multiset_ensures;

    assert(a.contains(a[i]));
    assert(b.to_multiset().count(a[i]) > 0);
    assert(b.contains(a[i]));
    choose|j: int| 0 <= j < b.len() && b[j] == a[i]
}

fn find_thread(out: &Vec<ConversationSummary>, tid: i64) -> (r: Option<usize>)
    ensures
        match r {
            Some(k) => k < out@.len() && out@[k as int].thread_id == tid,
            None => forall|l: int| 0 <= l < out@.len() ==> out@[l].thread_id != tid,
        },
{
    let mut k: usize = 0;
    while k < out.len()
        invariant
            k <= out@.len(),
            forall|l: int| 0 <= l < k ==> out@[l].thread_id != tid,
        decreases out@.len() - k,
    {
        if out[k].thread_id == tid {
            return Some(k);
        }
        k = k + 1;
    }
    None
}

/// The entry `e` is the summary of one of the given message models.
pub open spec fn summary_from_models(models: Seq<MessageView>, e: SummaryView) -> bool {
    exists|p: int| 0 <= p < models.len() && e == summary_of(#[trigger] models[p])
}

/// The entry `e` summarizes the first message of its thread within
/// `sv.take(bound)`.
pub open spec fn entry_witness(sv: Seq<SmsMessage>, bound: int, e: SummaryView, p: int) -> bool {
    &&& 0 <= p < bound <= sv.len()
    &&& e == summary_of(sv[p]@)
    &&& forall|l: int| 0 <= l < p ==> sv[l].thread_id != e.thread_id
}

/// Build the conversation list of a batch of records: decode them all,
/// dropping the undecodable ones, and keep each thread's most recent
/// message, most recent thread first, up to [`MAX_CONVERSATIONS`] distinct
/// threads.
///
/// The result has at most [`MAX_CONVERSATIONS`] entries and no two entries
/// share a thread id; each entry comes from a decoded record of its thread
/// whose timestamp is the largest among that thread's decoded records; and a
/// decoded thread is missing only when the list is full of more recent
/// threads.
#[verifier::rlimit(100)]
pub fn parse_conversations(values: &Vec<VariantValue>) -> (r: Vec<ConversationSummary>)
    ensures
        ({
            let models = decoded_models(values@);
            &&& r@.len() <= MAX_CONVERSATIONS
            &&& forall|i: int, j: int|
                0 <= i < j < r@.len() ==> r@[i].thread_id != r@[j].thread_id
            &&& forall|i: int, j: int| 0 <= i < j < r@.len() ==> r@[i].timestamp >= r@[j].timestamp
            &&& forall|i: int| 0 <= i < r@.len() ==> summary_from_models(models, #[trigger] r@[i]@)
            &&& forall|i: int, p: int|
                0 <= i < r@.len() && 0 <= p < models.len() && #[trigger] models[p].thread_id
                    == #[trigger] r@[i].thread_id ==> models[p].date <= r@[i].timestamp
            &&& forall|p: int|
                0 <= p < models.len() ==> (exists|i: int|
                    0 <= i < r@.len() && #[trigger] r@[i].thread_id == (
                    #[trigger] models[p]).thread_id) || (r@.len() == MAX_CONVERSATIONS
                    && models[p].date <= r@[r@.len() - 1].timestamp)
        }),
{
    let ghost models = decoded_models(values@);
    let msgs = decode_records(values);
    let sorted = sort_desc_by_date(msgs);
    let ghost sv = sorted@;
    let n = sorted.len();
    let mut out: Vec<ConversationSummary> = Vec::new();
    let mut j: usize = 0;
    let ghost mut wit: Seq<int> = Seq::empty();
    let ghost mut cov: Seq<int> = Seq::empty();
    while j < n && out.len() < MAX_CONVERSATIONS
        invariant
            j <= n,
            n == sv.len(),
            sorted@ == sv,
            out@.len() <= MAX_CONVERSATIONS,
            sorted_desc_by_date(sv),
            wit.len() == out@.len(),
            cov.len() == j,
            forall|k1: int, k2: int|
                0 <= k1 < k2 < out@.len() ==> out@[k1].thread_id != out@[k2].thread_id,
            forall|k1: int, k2: int|
                0 <= k1 < k2 < out@.len() ==> out@[k1].timestamp >= out@[k2].timestamp,
            forall|k: int|
                #![trigger out@[k]]
                0 <= k < out@.len() ==> entry_witness(sv, j as int, out@[k]@, wit[k]),
            forall|p: int|
                #![trigger cov[p]]
                0 <= p < j ==> 0 <= cov[p] < out@.len() && out@[cov[p]].thread_id
                    == sv[p].thread_id,
            forall|k: int, p: int|
                0 <= k < out@.len() && j <= p < n ==> #[trigger] out@[k].timestamp >= (
                #[trigger] sv[p]).date,
            forall|k: int, l: int|
                0 <= k < out@.len() && 0 <= l < j && #[trigger] sv[l].thread_id == (
                #[trigger] out@[k]).thread_id ==> sv[l].date <= out@[k].timestamp,
        decreases n - j,
    {
        let tid = sorted[j].thread_id;
        match find_thread(&out, tid) {
            None => {
                let m = &sorted[j];
                let entry = ConversationSummary {
                    thread_id: m.thread_id,
                    address: m.address.clone(),
                    last_message: m.body.clone(),
                    timestamp: m.date,
                    unread: !m.read,
                };
                let ghost prev_out = out@;
                proof {
                    assert(entry@ == summary_of(sv[j as int]@));
                    assert forall|l: int| 0 <= l < j implies sv[l].thread_id != tid by {
                        assert(out@[cov[l]].thread_id == sv[l].thread_id);
                    }
                    assert(entry_witness(sv, j + 1, entry@, j as int));
                }
                out.push(entry);
                proof {
                    let prev_wit = wit;
                    wit = wit.push(j as int);
                    cov = cov.push(prev_out.len() as int);
                    assert(out@ == prev_out.push(entry));
                    assert forall|k: int| #![trigger out@[k]] 0 <= k < out@.len() implies
                        entry_witness(sv, j + 1, out@[k]@, wit[k]) by {
                        if k < out@.len() - 1 {
                            assert(out@[k] == prev_out[k] && wit[k] == prev_wit[k]);
                            assert(entry_witness(sv, j as int, prev_out[k]@, prev_wit[k]));
                        }
                    }
                }
            },
            Some(k0) => {
                proof {
                    cov = cov.push(k0 as int);
                    assert forall|k: int| #![trigger out@[k]] 0 <= k < out@.len() implies
                        entry_witness(sv, j + 1, out@[k]@, wit[k]) by {
                        assert(entry_witness(sv, j as int, out@[k]@, wit[k]));
                    }
                }
            },
        }
        j = j + 1;
    }
    proof {
        broadcast use vstd::seq_lib::group_to_multiset_ensures;

        let rv = out@;
        assert(msgs_views(sv).to_multiset() == models.to_multiset());
        assert(msgs_views(sv).len() == sv.len());
        assert(models.len() == sv.len());
        assert(j == n || rv.len() == MAX_CONVERSATIONS);
        assert forall|i: int| 0 <= i < rv.len() implies summary_from_models(
            models,
            #[trigger] rv[i]@,
        ) by {
            let p = wit[i];
            assert(entry_witness(sv, j as int, rv[i]@, p));
            assert(msgs_views(sv)[p] == sv[p]@);
            let q = lemma_multiset_eq_index(msgs_views(sv), models, p);
            assert(0 <= q < models.len() && rv[i]@ == summary_of(models[q]));
        }
        assert forall|i: int, p: int|
            0 <= i < rv.len() && 0 <= p < models.len() && #[trigger] models[p].thread_id
                == #[trigger] rv[i].thread_id implies models[p].date <= rv[i].timestamp by {
            let q = lemma_multiset_eq_index(models, msgs_views(sv), p);
            assert(msgs_views(sv)[q] == sv[q]@);
            assert(sv[q].thread_id == rv[i].thread_id);
            if q < j {
                assert(sv[q].date <= rv[i].timestamp);
            } else {
                assert(rv[i].timestamp >= sv[q].date);
            }
        }
        assert forall|p: int| 0 <= p < models.len() implies (exists|i: int|
            0 <= i < rv.len() && #[trigger] rv[i].thread_id == (#[trigger] models[p]).thread_id)
            || (rv.len() == MAX_CONVERSATIONS && models[p].date <= rv[rv.len() - 1].timestamp) by {
            let q = lemma_multiset_eq_index(models, msgs_views(sv), p);
            assert(msgs_views(sv)[q] == sv[q]@);
            if q < j {
                assert(rv[cov[q]].thread_id == sv[q].thread_id);
            } else {
                assert(rv.len() == MAX_CONVERSATIONS);
                assert(rv[rv.len() - 1].timestamp >= sv[q].date);
            }
        }
    }
    out
}

/// The messages that belong to one thread.
pub open spec fn has_thread(thread_id: i64) -> spec_fn(MessageView) -> bool {
    |m: MessageView| m.thread_id == thread_id
}

/// The history of one conversation thread: every decoded record with the
/// given thread id, ordered oldest first; records with equal timestamps
/// keep their decode order.
#[verifier::loop_isolation(false)]
pub fn parse_messages(values: &Vec<VariantValue>, thread_id: i64) -> (r: Vec<SmsMessage>)
    ensures
        forall|i: int| 0 <= i < r@.len() ==> #[trigger] r@[i].thread_id == thread_id,
        sorted_asc_by_date(r@),
        msgs_views(r@).to_multiset() == decoded_models(values@).filter(
            has_thread(thread_id),
        ).to_multiset(),
        forall|d: i64| #[trigger]
            msgs_views(r@).filter(same_date(d)) == decoded_models(values@).filter(
                has_thread(thread_id),
            ).filter(same_date(d)),
{
    broadcast use vstd::prelude::Seq::lemma_filter_push;

    let ghost pv = has_thread(thread_id);
    let msgs = decode_records(values);
    let ghost orig = msgs@;
    let ghost ov = msgs_views(orig);
    let mut rest = msgs;
    let mut kept: Vec<SmsMessage> = Vec::new();
    proof {
        reveal(Seq::filter);
        assert(ov.take(0) =~= Seq::<MessageView>::empty());
        assert(msgs_views(kept@) =~= Seq::<MessageView>::empty());
        assert(msgs_views(kept@) =~= ov.take(0).filter(pv));
    }
    while rest.len() > 0
        invariant
            rest@.len() <= orig.len(),
            rest@ =~= orig.skip(orig.len() - rest@.len()),
            msgs_views(kept@) == ov.take(orig.len() - rest@.len()).filter(pv),
            forall|i: int| 0 <= i < kept@.len() ==> #[trigger] kept@[i].thread_id == thread_id,
        decreases rest@.len(),
    {
        let ghost k = orig.len() - rest@.len();
        let ghost prev_rest = rest@;
        let ghost prev_kept_views = msgs_views(kept@);
        let x = rest.remove(0);
        proof {
            assert(x == orig[k as int]);
            assert(rest@ =~= prev_rest.drop_first());
            assert(rest@ =~= orig.skip(k + 1));
            assert(ov[k as int] == x@);
            assert(ov.take(k + 1) =~= ov.take(k as int).push(x@));
        }
        if x.thread_id == thread_id {
            let ghost prev_kept = kept@;
            kept.push(x);
            proof {
                assert(msgs_views(kept@) =~= prev_kept_views.push(x@));
                assert(pv(x@));
                assert(ov.take(k as int).push(x@).filter(pv) == ov.take(k as int).filter(pv).push(
                    x@,
                ));
                assert(msgs_views(kept@) =~= ov.take(k + 1).filter(pv));
            }
        } else {
            proof {
                assert(!pv(x@));
                assert(ov.take(k as int).push(x@).filter(pv) == ov.take(k as int).filter(pv));
                assert(msgs_views(kept@) =~= ov.take(k + 1).filter(pv));
            }
        }
    }
    proof {
        assert(ov.take(orig.len() as int) =~= ov);
        assert(msgs_views(kept@) == ov.filter(pv));
        assert(decoded_models(values@) == ov);
    }
    let ghost kept_view = kept@;
    let r = sort_asc_by_date(kept);
    proof {
        assert forall|i: int| 0 <= i < r@.len() implies #[trigger] r@[i].thread_id == thread_id by {
            let q = lemma_multiset_eq_index(r@, kept_view, i);
        }
        assert forall|d: i64| #[trigger]
            msgs_views(r@).filter(same_date(d)) == decoded_models(values@).filter(pv).filter(
                same_date(d),
            ) by {
            assert(msgs_views(r@).filter(same_date(d)) == msgs_views(kept_view).filter(
                same_date(d),
            ));
        }
    }
    r
}

} // verus!
