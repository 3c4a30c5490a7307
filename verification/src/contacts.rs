//! The contact directory: parsing text contact-card exports, the reverse
//! phone-to-name index, and name search.
//!
//! A contact card is line-oriented text: a line beginning `FN:` gives the
//! display name, lines beginning `TEL` give a phone number taken after the
//! first colon, skipping values that contain `=`.  A card lacking both a
//! usable name and any phone number is discarded.  The caller enumerates the
//! per-device directory and hands each file's content in; a fresh load
//! replaces the whole index.

use crate::phone::normalize_phone_number;
use crate::phone::normalize_spec;
use crate::text::contains_char;
use crate::text::find_char;
use crate::text::has_prefix;
use crate::text::is_substring_of;
use crate::text::lex_le;
use crate::text::starts_with_str;
use crate::text::str_eq;
use crate::text::trim;
use crate::text::trim_spec;
use vstd::multiset::Multiset;
use vstd::prelude::*;

verus! {

/// A contact: a display name and its phone numbers.
#[derive(Debug, Clone)]
pub struct Contact {
    /// Display name, from the card's `FN:` line.
    pub name: String,
    /// Phone numbers, from the card's `TEL` lines.
    pub phone_numbers: Vec<String>,
}

/// The mathematical model of a [`Contact`].
pub ghost struct ContactView {
    pub name: Seq<char>,
    pub phone_numbers: Seq<Seq<char>>,
}

impl View for Contact {
    type V = ContactView;

    open spec fn view(&self) -> ContactView {
        ContactView {
            name: self.name@,
            phone_numbers: self.phone_numbers@.map_values(|p: String| p@),
        }
    }
}

/// The models of a list of contacts.
pub open spec fn contacts_views(s: Seq<Contact>) -> Seq<ContactView> {
    s.map_values(|c: Contact| c@)
}

/// A line without its trailing carriage return, if it has one.
pub open spec fn strip_cr(l: Seq<char>) -> Seq<char> {
    if l.len() > 0 && l.last() == '\r' {
        l.drop_last()
    } else {
        l
    }
}

/// The lines of a text: split at `\n`, each line without a trailing `\r`,
/// and no final empty line for text that ends with `\n`.
pub open spec fn split_lines(s: Seq<char>) -> Seq<Seq<char>>
    decreases s.len(),
{
    if s.len() == 0 {
        Seq::empty()
    } else {
        match s.index_of_first('\n') {
            Some(i) => {
                if 0 <= i < s.len() {
                    seq![strip_cr(s.take(i))] + split_lines(s.skip(i + 1))
                } else {
                    seq![strip_cr(s)]
                }
            },
            None => seq![strip_cr(s)],
        }
    }
}

/// The display name a card's lines give: the trimmed value of the last
/// `FN:` line, or empty.
pub open spec fn name_of_lines(lines: Seq<Seq<char>>) -> Seq<char>
    decreases lines.len(),
{
    if lines.len() == 0 {
        Seq::empty()
    } else if has_prefix(lines.last(), "FN:"@) {
        trim_spec(lines.last().skip(3))
    } else {
        name_of_lines(lines.drop_last())
    }
}

/// The phone number a `TEL` line gives: the trimmed value after the first
/// colon, unless it is empty or holds an encoded (`=`) value.
pub open spec fn tel_value(l: Seq<char>) -> Option<Seq<char>> {
    if has_prefix(l, "TEL"@) {
        match l.index_of_first(':') {
            Some(i) => {
                let v = trim_spec(l.skip(i + 1));
                if v.len() > 0 && !contains_char(v, '=') {
                    Some(v)
                } else {
                    None
                }
            },
            None => None,
        }
    } else {
        None
    }
}

/// The phone numbers a card's lines give, in order.
pub open spec fn phones_of_lines(lines: Seq<Seq<char>>) -> Seq<Seq<char>>
    decreases lines.len(),
{
    if lines.len() == 0 {
        Seq::empty()
    } else {
        phones_of_lines(lines.drop_last()) + match tel_value(lines.last()) {
            Some(v) => seq![v],
            None => Seq::<Seq<char>>::empty(),
        }
    }
}

/// The contact a card's text gives: its name and phone numbers, or nothing
/// when the card lacks both.
pub open spec fn parse_vcard_spec(s: Seq<char>) -> Option<ContactView> {
    let lines = split_lines(s);
    let name = name_of_lines(lines);
    let phones = phones_of_lines(lines);
    if name.len() > 0 || phones.len() > 0 {
        Some(ContactView { name, phone_numbers: phones })
    } else {
        None
    }
}

/// Split a text into lines, as [`split_lines`] describes.
fn lines_of(content: &str) -> (r: Vec<String>)
    ensures
        r@.map_values(|l: String| l@) == split_lines(content@),
{
    let mut rest: &str = content;
    let mut out: Vec<String> = Vec::new();
    proof {
        assert(out@.map_values(|l: String| l@) =~= Seq::<Seq<char>>::empty());
    }
    loop
        invariant
            out@.map_values(|l: String| l@) + split_lines(rest@) =~= split_lines(content@),
        decreases rest@.len(),
    {
        let n = rest.unicode_len();
        if n == 0 {
            proof {
                assert(split_lines(rest@) =~= Seq::<Seq<char>>::empty());
                assert(out@.map_values(|l: String| l@) =~= split_lines(content@));
            }
            return out;
        }
        proof {
            rest@.index_of_first_ensures('\n');
        }
        let ghost prev = rest@;
        let ghost prev_out = out@;
        let line: &str;
        match find_char(rest, '\n') {
            Some(i) => {
                proof {
                    let first = prev.index_of_first('\n')->Some_0;
                    assert(prev[first] == '\n');
                    assert(first == i) by {
                        if first < i {
                            assert(prev[first] != '\n');
                        }
                        if first > i {
                            assert(prev[i as int] != '\n');
                        }
                    }
                }
                line = rest.substring_char(0, i);
                let next = rest.substring_char(i + 1, n);
                proof {
                    assert(line@ =~= prev.take(i as int));
                    assert(next@ =~= prev.skip(i + 1));
                }
                rest = next;
            },
            None => {
                proof {
                    assert(!prev.contains('\n'));
                    assert(prev.index_of_first('\n') is None);
                }
                line = rest;
                rest = "";
                proof {
                    reveal_strlit("");
                    assert(rest@ =~= Seq::<char>::empty());
                    assert(split_lines(rest@) =~= Seq::<Seq<char>>::empty());
                }
            },
        }
        let m = line.unicode_len();
        let stripped: &str = if m > 0 && line.get_char(m - 1) == '\r' {
            let t = line.substring_char(0, m - 1);
            proof {
                assert(t@ =~= line@.drop_last());
            }
            t
        } else {
            line
        };
        proof {
            assert(stripped@ == strip_cr(line@));
        }
        let owned = stripped.to_owned();
        out.push(owned);
        proof {
            broadcast use vstd::prelude::Seq::lemma_push_map_commute;

            assert(out@.map_values(|l: String| l@) =~= prev_out.map_values(|l: String| l@).push(
                strip_cr(line@),
            ));
            assert(out@.map_values(|l: String| l@) + split_lines(rest@) =~= split_lines(content@));
        }
    }
}

/// Parse one contact card.  The last `FN:` line gives the name; every `TEL`
/// line contributes the value after its first colon, unless that value is
/// empty or encoded.  A card lacking both a usable name and any phone number
/// gives nothing.
pub fn parse_vcard(content: &str) -> (r: Option<Contact>)
    ensures
        r is Some == parse_vcard_spec(content@) is Some,
        r is Some ==> r->Some_0@ == parse_vcard_spec(content@)->Some_0,
{
    let lines = lines_of(content);
    let ghost lv = split_lines(content@);
    let mut name = String::new();
    let mut phones: Vec<String> = Vec::new();
    let mut i: usize = 0;
    proof {
        assert(lines@.map_values(|l: String| l@).take(0) =~= Seq::<Seq<char>>::empty());
        assert(phones@.map_values(|p: String| p@) =~= Seq::<Seq<char>>::empty());
    }
    while i < lines.len()
        invariant
            i <= lines@.len(),
            lines@.map_values(|l: String| l@) == lv,
            name@ == name_of_lines(lv.take(i as int)),
            phones@.map_values(|p: String| p@) == phones_of_lines(lv.take(i as int)),
        decreases lines@.len() - i,
    {
        let line = &lines[i];
        proof {
            assert(lv[i as int] == line@);
            assert(lv.take(i + 1).drop_last() =~= lv.take(i as int));
            assert(lv.take(i + 1).last() == line@);
            reveal_strlit("FN:");
            reveal_strlit("TEL");
        }
        let ghost prev_phones = phones@;
        if starts_with_str(line.as_str(), "FN:") {
            let n = line.unicode_len();
            let value = trim(line.as_str().substring_char(3, n));
            proof {
                assert(line@.subrange(3, n as int) =~= line@.skip(3));
            }
            name = value.to_owned();
        }
        if starts_with_str(line.as_str(), "TEL") {
            proof {
                line@.index_of_first_ensures(':');
            }
            match find_char(line.as_str(), ':') {
                Some(c) => {
                    proof {
                        let first = line@.index_of_first(':')->Some_0;
                        assert(line@[first] == ':');
                        assert(first == c) by {
                            if first < c {
                                assert(line@[first] != ':');
                            }
                            if first > c {
                                assert(line@[c as int] != ':');
                            }
                        }
                    }
                    let n = line.unicode_len();
                    let value = trim(line.as_str().substring_char(c + 1, n));
                    proof {
                        assert(line@.subrange(c + 1, n as int) =~= line@.skip(c + 1));
                    }
                    let vn = value.unicode_len();
                    let has_eq = match find_char(value, '=') {
                        Some(_) => true,
                        None => false,
                    };
                    proof {
                        assert(has_eq == contains_char(value@, '='));
                    }
                    if vn > 0 && !has_eq {
                        phones.push(value.to_owned());
                        proof {
                            broadcast use vstd::prelude::Seq::lemma_push_map_commute;

                            assert(phones@.map_values(|p: String| p@) =~= prev_phones.map_values(
                                |p: String| p@,
                            ).push(value@));
                        }
                    }
                },
                None => {
                    proof {
                        assert(!line@.contains(':'));
                        assert(line@.index_of_first(':') is None);
                    }
                },
            }
        }
        proof {
            assert(phones@.map_values(|p: String| p@) =~= phones_of_lines(lv.take(i + 1)));
        }
        i = i + 1;
    }
    proof {
        assert(lv.take(lv.len() as int) =~= lv);
    }
    if name.unicode_len() == 0 && phones.len() == 0 {
        return None;
    }
    Some(Contact { name, phone_numbers: phones })
}

/// The views of a list of strings.
pub open spec fn strs_views(s: Seq<String>) -> Seq<Seq<char>> {
    s.map_values(|x: String| x@)
}

/// First-match lookup in an association list of views.
pub open spec fn lookup(entries: Seq<(Seq<char>, Seq<char>)>, key: Seq<char>) -> Option<Seq<char>>
    decreases entries.len(),
{
    if entries.len() == 0 {
        None
    } else if entries.first().0 == key {
        Some(entries.first().1)
    } else {
        lookup(entries.drop_first(), key)
    }
}

/// The views of the entries of the reverse index.
pub open spec fn entries_views(s: Seq<(String, String)>) -> Seq<(Seq<char>, Seq<char>)> {
    s.map_values(|p: (String, String)| (p.0@, p.1@))
}

/// A map lookup as an option.
pub open spec fn map_opt(m: Map<Seq<char>, Seq<char>>, k: Seq<char>) -> Option<Seq<char>> {
    if m.contains_key(k) {
        Some(m[k])
    } else {
        None
    }
}

/// One phone number entered into the reverse index: its normalized form maps
/// to the contact's name, unless normalization leaves nothing.
pub open spec fn insert_phone(
    m: Map<Seq<char>, Seq<char>>,
    name: Seq<char>,
    p: Seq<char>,
) -> Map<Seq<char>, Seq<char>> {
    if normalize_spec(p).len() > 0 {
        m.insert(normalize_spec(p), name)
    } else {
        m
    }
}

/// A contact's phone numbers entered in order; a later entry for the same
/// normalized number overwrites an earlier one.
pub open spec fn insert_phones(
    m: Map<Seq<char>, Seq<char>>,
    name: Seq<char>,
    phones: Seq<Seq<char>>,
) -> Map<Seq<char>, Seq<char>>
    decreases phones.len(),
{
    if phones.len() == 0 {
        m
    } else {
        insert_phones(insert_phone(m, name, phones.first()), name, phones.drop_first())
    }
}

/// The cards entered in order.
pub open spec fn insert_cards(m: Map<Seq<char>, Seq<char>>, cards: Seq<Seq<char>>) -> Map<
    Seq<char>,
    Seq<char>,
>
    decreases cards.len(),
{
    if cards.len() == 0 {
        m
    } else {
        insert_cards(
            match parse_vcard_spec(cards.first()) {
                Some(c) => insert_phones(m, c.name, c.phone_numbers),
                None => m,
            },
            cards.drop_first(),
        )
    }
}

/// The reverse index a list of cards gives.
pub open spec fn directory_map(cards: Seq<Seq<char>>) -> Map<Seq<char>, Seq<char>> {
    insert_cards(Map::empty(), cards)
}

/// The contacts a list of cards gives, in card order.
pub open spec fn parsed_contacts(cards: Seq<Seq<char>>) -> Seq<ContactView>
    decreases cards.len(),
{
    if cards.len() == 0 {
        Seq::empty()
    } else {
        parsed_contacts(cards.drop_last()) + match parse_vcard_spec(cards.last()) {
            Some(c) => seq![c],
            None => Seq::<ContactView>::empty(),
        }
    }
}

proof fn lemma_lookup_push(es: Seq<(Seq<char>, Seq<char>)>, kv: (Seq<char>, Seq<char>), k: Seq<char>)
    requires
        forall|j: int| 0 <= j < es.len() ==> (#[trigger] es[j]).0 != kv.0,
    ensures
        lookup(es.push(kv), k) == if k == kv.0 {
            Some(kv.1)
        } else {
            lookup(es, k)
        },
    decreases es.len(),
{
    if es.len() == 0 {
        assert(es.push(kv).first() == kv);
        assert(es.push(kv).drop_first() =~= es);
    } else {
        assert(es.push(kv).first() == es.first());
        assert(es.push(kv).drop_first() =~= es.drop_first().push(kv));
        assert(forall|j: int|
            0 <= j < es.drop_first().len() ==> (#[trigger] es.drop_first()[j]).0 != kv.0);
        lemma_lookup_push(es.drop_first(), kv, k);
    }
}

proof fn lemma_lookup_update(
    es: Seq<(Seq<char>, Seq<char>)>,
    i: int,
    kv: (Seq<char>, Seq<char>),
    k: Seq<char>,
)
    requires
        0 <= i < es.len(),
        es[i].0 == kv.0,
        forall|j: int| 0 <= j < i ==> (#[trigger] es[j]).0 != kv.0,
    ensures
        lookup(es.update(i, kv), k) == if k == kv.0 {
            Some(kv.1)
        } else {
            lookup(es, k)
        },
    decreases i,
{
    if i == 0 {
        assert(es.update(0, kv).first() == kv);
        assert(es.update(0, kv).drop_first() =~= es.drop_first());
        assert(es.first().0 == kv.0);
    } else {
        assert(es.update(i, kv).first() == es.first());
        assert(es.update(i, kv).drop_first() =~= es.drop_first().update(i - 1, kv));
        assert(forall|j: int|
            0 <= j < i - 1 ==> (#[trigger] es.drop_first()[j]).0 != kv.0);
        lemma_lookup_update(es.drop_first(), i - 1, kv, k);
    }
}

proof fn lemma_lookup_skip(es: Seq<(Seq<char>, Seq<char>)>, i: int, k: Seq<char>)
    requires
        0 <= i <= es.len(),
        forall|j: int| 0 <= j < i ==> (#[trigger] es[j]).0 != k,
    ensures
        lookup(es, k) == lookup(es.skip(i), k),
    decreases i,
{
    if i == 0 {
        assert(es.skip(0) =~= es);
    } else {
        assert(es.first().0 != k);
        assert(es.drop_first().skip(i - 1) =~= es.skip(i));
        assert(forall|j: int|
            0 <= j < i - 1 ==> (#[trigger] es.drop_first()[j]).0 != k);
        lemma_lookup_skip(es.drop_first(), i - 1, k);
    }
}

fn upsert(entries: &mut Vec<(String, String)>, key: String, val: String)
    ensures
        forall|k: Seq<char>| #[trigger]
            lookup(entries_views(final(entries)@), k) == (if k == key@ {
                Some(val@)
            } else {
                lookup(entries_views(old(entries)@), k)
            }),
{
    let ghost ev = entries_views(entries@);
    let mut i: usize = 0;
    while i < entries.len()
        invariant
            i <= entries@.len(),
            entries@ == old(entries)@,
            ev == entries_views(entries@),
            forall|j: int| 0 <= j < i ==> (#[trigger] ev[j]).0 != key@,
        decreases entries@.len() - i,
    {
        if str_eq(entries[i].0.as_str(), key.as_str()) {
            proof {
                assert(ev[i as int].0 == key@);
            }
            entries[i] = (key, val);
            proof {
                assert(entries_views(entries@) =~= ev.update(
                    i as int,
                    (entries@[i as int].0@, entries@[i as int].1@),
                ));
                assert forall|k: Seq<char>| #[trigger]
                    lookup(entries_views(entries@), k) == (if k == entries@[i as int].0@ {
                        Some(entries@[i as int].1@)
                    } else {
                        lookup(ev, k)
                    }) by {
                    lemma_lookup_update(
                        ev,
                        i as int,
                        (entries@[i as int].0@, entries@[i as int].1@),
                        k,
                    );
                }
            }
            return ;
        }
        i = i + 1;
    }
    let ghost kv = (key@, val@);
    entries.push((key, val));
    proof {
        assert(entries_views(entries@) =~= ev.push(kv));
        assert forall|k: Seq<char>| #[trigger]
            lookup(entries_views(entries@), k) == (if k == kv.0 {
                Some(kv.1)
            } else {
                lookup(ev, k)
            }) by {
            lemma_lookup_push(ev, kv, k);
        }
    }
}

/// What `str::to_lowercase` returns for a given character sequence.
pub uninterp spec fn lower_of(s: Seq<char>) -> Seq<char>;

/// Relies on `str::to_lowercase`: the result depends on the characters
/// alone.
#[verifier::external_body]
fn to_lowercase(s: &str) -> (r: String)
    ensures
        r@ == lower_of(s@),
{
    s.to_lowercase()
}

/// Contacts in case-insensitive name order.
pub open spec fn sorted_by_name(s: Seq<ContactView>) -> bool {
    forall|i: int, j: int|
        0 <= i < j < s.len() ==> lex_le(lower_of(s[i].name), lower_of(s[j].name))
}

proof fn lemma_contacts_views_insert(s: Seq<Contact>, pos: int, x: Contact)
    requires
        0 <= pos <= s.len(),
    ensures
        contacts_views(s.insert(pos, x)) =~= contacts_views(s).insert(pos, x@),
{
    s.insert_ensures(pos, x);
    contacts_views(s).insert_ensures(pos, x@);
}

fn insert_sorted_contact(out: &mut Vec<Contact>, x: Contact)
    requires
        sorted_by_name(contacts_views(old(out)@)),
    ensures
        sorted_by_name(contacts_views(final(out)@)),
        final(out)@.len() == old(out)@.len() + 1,
        contacts_views(final(out)@).to_multiset() == contacts_views(old(out)@).to_multiset().insert(
            x@,
        ),
{
    let xkey = to_lowercase(x.name.as_str());
    let mut pos: usize = 0;
    loop
        invariant
            pos <= out@.len(),
            out@ == old(out)@,
            xkey@ == lower_of(x.name@),
            forall|i: int| 0 <= i < pos ==> lex_le(lower_of(out@[i].name@), lower_of(x.name@)),
        ensures
            pos <= out@.len(),
            forall|i: int| 0 <= i < pos ==> lex_le(lower_of(out@[i].name@), lower_of(x.name@)),
            pos == out@.len() || !lex_le(lower_of(out@[pos as int].name@), lower_of(x.name@)),
        decreases out@.len() - pos,
    {
        if pos == out.len() {
            break ;
        }
        let ckey = to_lowercase(out[pos].name.as_str());
        if !crate::text::str_lex_le(ckey.as_str(), xkey.as_str()) {
            break ;
        }
        pos = pos + 1;
    }
    proof {
        if pos < out@.len() {
            crate::text::lemma_lex_le_total(lower_of(out@[pos as int].name@), lower_of(x.name@));
        }
        old(out)@.insert_ensures(pos as int, x);
        lemma_contacts_views_insert(old(out)@, pos as int, x);
        crate::sms::lemma_seq_insert_to_multiset(contacts_views(old(out)@), pos as int, x@);
    }
    out.insert(pos, x);
    proof {
        let new = out@;
        let prev = old(out)@;
        assert forall|a: int, b: int| 0 <= a < b < prev.len() implies lex_le(
            lower_of(prev[a].name@),
            lower_of(prev[b].name@),
        ) by {
            assert(contacts_views(prev)[a].name == prev[a].name@);
            assert(contacts_views(prev)[b].name == prev[b].name@);
        }
        assert forall|i: int, j: int| 0 <= i < j < contacts_views(new).len() implies lex_le(
            lower_of(contacts_views(new)[i].name),
            lower_of(contacts_views(new)[j].name),
        ) by {
            assert(contacts_views(new)[i].name == new[i].name@);
            assert(contacts_views(new)[j].name == new[j].name@);
            if j == pos {
                assert(new[i] == prev[i]);
            } else if j > pos {
                if i < pos {
                    assert(new[i] == prev[i] && new[j] == prev[j - 1]);
                } else if i == pos {
                    assert(new[j] == prev[j - 1] && j - 1 >= pos);
                    if j - 1 > pos {
                        crate::text::lemma_lex_le_trans(
                            lower_of(x.name@),
                            lower_of(prev[pos as int].name@),
                            lower_of(prev[j - 1].name@),
                        );
                    }
                } else {
                    assert(new[i] == prev[i - 1] && new[j] == prev[j - 1]);
                }
            } else {
                assert(new[i] == prev[i] && new[j] == prev[j]);
            }
        }
    }
}

/// The contact directory: a reverse index from normalized phone numbers to
/// display names, and the contact list in case-insensitive name order.
#[derive(Debug, Clone)]
pub struct ContactLookup {
    phone_to_name: Vec<(String, String)>,
    contacts: Vec<Contact>,
}

/// The mathematical model of a [`ContactLookup`].
pub ghost struct LookupView {
    pub entries: Seq<(Seq<char>, Seq<char>)>,
    pub contacts: Seq<ContactView>,
}

impl View for ContactLookup {
    type V = LookupView;

    closed spec fn view(&self) -> LookupView {
        LookupView {
            entries: entries_views(self.phone_to_name@),
            contacts: contacts_views(self.contacts@),
        }
    }
}

impl Default for ContactLookup {
    /// An empty directory.
    fn default() -> (r: Self)
        ensures
            r@.entries.len() == 0,
            r@.contacts.len() == 0,
    {
        ContactLookup::new()
    }
}

impl ContactLookup {
    /// An empty directory: no index entries and no contacts.
    pub fn new() -> (r: Self)
        ensures
            r@.entries.len() == 0,
            r@.contacts.len() == 0,
    {
        let r = ContactLookup { phone_to_name: Vec::new(), contacts: Vec::new() };
        proof {
            assert(r@.entries =~= Seq::<(Seq<char>, Seq<char>)>::empty());
            assert(r@.contacts =~= Seq::<ContactView>::empty());
        }
        r
    }

    /// Build the directory from the contents of a device's contact-card
    /// files.  Each card that parses contributes its contact; every phone
    /// number is normalized and entered in the reverse index, later entries
    /// overwriting earlier ones for the same normalized number; and the
    /// contact list is sorted case-insensitively by name.
    #[verifier::loop_isolation(false)]
    pub fn load_from_cards(cards: &Vec<String>) -> (r: Self)
        ensures
            forall|k: Seq<char>| #[trigger]
                lookup(r@.entries, k) == map_opt(directory_map(strs_views(cards@)), k),
            r@.contacts.to_multiset() == parsed_contacts(strs_views(cards@)).to_multiset(),
            sorted_by_name(r@.contacts),
            r@.contacts.len() == parsed_contacts(strs_views(cards@)).len(),
    {
        let ghost cv = strs_views(cards@);
        let mut entries: Vec<(String, String)> = Vec::new();
        let mut parsed: Vec<Contact> = Vec::new();
        let ghost mut m: Map<Seq<char>, Seq<char>> = Map::empty();
        let mut i: usize = 0;
        proof {
            assert(entries_views(entries@) =~= Seq::<(Seq<char>, Seq<char>)>::empty());
            assert(contacts_views(parsed@) =~= Seq::<ContactView>::empty());
            assert(cv.skip(0) =~= cv);
            assert(contacts_views(parsed@) =~= parsed_contacts(cv.take(0)));
        }
        while i < cards.len()
            invariant
                i <= cards@.len(),
                cv == strs_views(cards@),
                cv.len() == cards@.len(),
                forall|k: Seq<char>| #[trigger] lookup(entries_views(entries@), k) == map_opt(m, k),
                insert_cards(m, cv.skip(i as int)) == insert_cards(Map::empty(), cv),
                contacts_views(parsed@) == parsed_contacts(cv.take(i as int)),
            decreases cards@.len() - i,
        {
            let card = &cards[i];
            proof {
                assert(cv[i as int] == card@);
                assert(cv.skip(i as int).first() == cv[i as int]);
                assert(cv.skip(i as int).drop_first() =~= cv.skip(i + 1));
                assert(cv.take(i + 1).drop_last() =~= cv.take(i as int));
                assert(cv.take(i + 1).last() == card@);
            }
            match parse_vcard(card.as_str()) {
                Some(contact) => {
                    let ghost c = parse_vcard_spec(card@)->Some_0;
                    let mut t: usize = 0;
                    let ghost phones = c.phone_numbers;
                    let ghost m0 = m;
                    proof {
                        assert(contact@ == c);
                        assert(contact.phone_numbers@.map_values(|p: String| p@) == phones);
                        assert(phones.skip(0) =~= phones);
                    }
                    while t < contact.phone_numbers.len()
                        invariant
                            t <= contact.phone_numbers@.len(),
                            phones.len() == contact.phone_numbers@.len(),
                            forall|k: Seq<char>| #[trigger]
                                lookup(entries_views(entries@), k) == map_opt(m, k),
                            insert_phones(m, c.name, phones.skip(t as int)) == insert_phones(
                                m0,
                                c.name,
                                phones,
                            ),
                        decreases contact.phone_numbers@.len() - t,
                    {
                        let phone = &contact.phone_numbers[t];
                        proof {
                            assert(phones[t as int] == phone@);
                            assert(phones.skip(t as int).first() == phones[t as int]);
                            assert(phones.skip(t as int).drop_first() =~= phones.skip(t + 1));
                        }
                        let normalized = normalize_phone_number(phone.as_str());
                        if normalized.unicode_len() > 0 {
                            upsert(&mut entries, normalized, contact.name.clone());
                            proof {
                                m = m.insert(normalize_spec(phone@), c.name);
                            }
                        }
                        t = t + 1;
                    }
                    proof {
                        assert(phones.skip(phones.len() as int) =~= Seq::<Seq<char>>::empty());
                    }
                    let ghost prev_parsed = parsed@;
                    parsed.push(contact);
                    proof {
                        broadcast use vstd::prelude::Seq::lemma_push_map_commute;

                        assert(contacts_views(parsed@) =~= contacts_views(prev_parsed).push(c));
                        assert(contacts_views(parsed@) =~= parsed_contacts(cv.take(i + 1)));
                    }
                },
                None => {
                    proof {
                        assert(contacts_views(parsed@) =~= parsed_contacts(cv.take(i + 1)));
                    }
                },
            }
            i = i + 1;
        }
        proof {
            assert(cv.skip(cards@.len() as int) =~= Seq::<Seq<char>>::empty());
            assert(cv.take(cards@.len() as int) =~= cv);
            assert(m == directory_map(cv));
        }
        let ghost parsed_views = contacts_views(parsed@);
        let mut rest = parsed;
        let mut sorted: Vec<Contact> = Vec::new();
        proof {
            broadcast use vstd::multiset::group_multiset_axioms;
            broadcast use vstd::seq_lib::group_to_multiset_ensures;

            assert(contacts_views(sorted@) =~= Seq::<ContactView>::empty());
            assert(contacts_views(sorted@).to_multiset() =~= Multiset::<ContactView>::empty());
            assert(contacts_views(sorted@).to_multiset().add(contacts_views(rest@).to_multiset())
                =~= parsed_views.to_multiset());
        }
        while rest.len() > 0
            invariant
                sorted_by_name(contacts_views(sorted@)),
                sorted@.len() + rest@.len() == parsed_views.len(),
                contacts_views(sorted@).to_multiset().add(contacts_views(rest@).to_multiset())
                    =~= parsed_views.to_multiset(),
            decreases rest@.len(),
        {
            let ghost prev_rest = rest@;
            let x = rest.pop().unwrap();
            proof {
                vstd::seq_lib::to_multiset_build(contacts_views(rest@), x@);
                assert(contacts_views(rest@).push(x@) =~= contacts_views(prev_rest));
                assert(contacts_views(prev_rest).to_multiset() == contacts_views(
                    rest@,
                ).to_multiset().insert(x@));
            }
            insert_sorted_contact(&mut sorted, x);
            proof {
                broadcast use vstd::multiset::group_multiset_axioms;

                assert(contacts_views(sorted@).to_multiset().add(
                    contacts_views(rest@).to_multiset(),
                ) =~= parsed_views.to_multiset());
            }
        }
        proof {
            broadcast use vstd::multiset::group_multiset_axioms;
            broadcast use vstd::seq_lib::group_to_multiset_ensures;

            assert(contacts_views(rest@) =~= Seq::<ContactView>::empty());
            assert(contacts_views(rest@).to_multiset() =~= Multiset::<ContactView>::empty());
            assert(contacts_views(sorted@).to_multiset() =~= parsed_views.to_multiset());
            assert(parsed_views.len() == parsed_contacts(cv).len());
        }
        ContactLookup { phone_to_name: entries, contacts: sorted }
    }

    /// Look up a contact name by phone number, under the normalized form of
    /// the number.
    pub fn get_name(&self, phone_number: &str) -> (r: Option<&str>)
        ensures
            r is Some == lookup(self@.entries, normalize_spec(phone_number@)) is Some,
            r is Some ==> r->Some_0@ == lookup(
                self@.entries,
                normalize_spec(phone_number@),
            )->Some_0,
    {
        let key = normalize_phone_number(phone_number);
        let ghost ev = self@.entries;
        let mut i: usize = 0;
        while i < self.phone_to_name.len()
            invariant
                i <= self.phone_to_name@.len(),
                ev == entries_views(self.phone_to_name@),
                key@ == normalize_spec(phone_number@),
                forall|j: int| 0 <= j < i ==> (#[trigger] ev[j]).0 != key@,
            decreases self.phone_to_name@.len() - i,
        {
            if str_eq(self.phone_to_name[i].0.as_str(), key.as_str()) {
                proof {
                    lemma_lookup_skip(ev, i as int, key@);
                    assert(ev.skip(i as int).first() == ev[i as int]);
                }
                return Some(self.phone_to_name[i].1.as_str());
            }
            i = i + 1;
        }
        proof {
            lemma_lookup_skip(ev, i as int, key@);
            assert(ev.skip(i as int) =~= Seq::<(Seq<char>, Seq<char>)>::empty());
        }
        None
    }

    /// Look up a contact name by phone number, falling back to the phone
    /// string itself, unchanged, when no contact matches or the matched name
    /// is blank.
    pub fn get_name_or_number(&self, phone_number: &str) -> (r: String)
        ensures
            ({
                let found = lookup(self@.entries, normalize_spec(phone_number@));
                match found {
                    Some(name) => if trim_spec(name).len() > 0 {
                        r@ == name
                    } else {
                        r@ == phone_number@
                    },
                    None => r@ == phone_number@,
                }
            }),
    {
        match self.get_name(phone_number) {
            Some(name) => {
                let trimmed = trim(name);
                if trimmed.unicode_len() > 0 {
                    name.to_owned()
                } else {
                    phone_number.to_owned()
                }
            },
            None => phone_number.to_owned(),
        }
    }

    /// The number of phone-number entries in the reverse index.
    pub fn len(&self) -> (r: usize)
        ensures
            r == self@.entries.len(),
    {
        self.phone_to_name.len()
    }

    /// Whether the reverse index is empty.
    pub fn is_empty(&self) -> (r: bool)
        ensures
            r == (self@.entries.len() == 0),
    {
        self.phone_to_name.is_empty()
    }

    /// Search contacts whose name contains the query, case-insensitively,
    /// keeping the sorted order; at most `limit` results, and none at all
    /// for an empty query.
    #[verifier::loop_isolation(false)]
    pub fn search_by_name(&self, query: &str, limit: usize) -> (r: Vec<Contact>)
        ensures
            query@.len() == 0 ==> r@.len() == 0,
            query@.len() > 0 ==> ({
                let found = self@.contacts.filter(matching(query@));
                if found.len() <= limit {
                    contacts_views(r@) == found
                } else {
                    contacts_views(r@) == found.take(limit as int)
                }
            }),
    {
        let mut out: Vec<Contact> = Vec::new();
        if query.unicode_len() == 0 {
            return out;
        }
        let ghost mq = matching(query@);
        let ghost cview = self@.contacts;
        let q_lower = to_lowercase(query);
        let n = self.contacts.len();
        let mut i: usize = 0;
        proof {
            reveal(Seq::filter);
            assert(contacts_views(out@) =~= Seq::<ContactView>::empty());
            assert(cview.take(0) =~= Seq::<ContactView>::empty());
            assert(contacts_views(out@) =~= cview.take(0).filter(mq));
        }
        while i < n && out.len() < limit
            invariant
                i <= n,
                out@.len() <= limit,
                contacts_views(out@) == cview.take(i as int).filter(mq),
            decreases n - i,
        {
            let c = &self.contacts[i];
            proof {
                reveal(Seq::filter);
                assert(cview[i as int] == c@);
                assert(cview.take(i + 1).drop_last() =~= cview.take(i as int));
                assert(cview.take(i + 1).last() == c@);
            }
            let name_lower = to_lowercase(c.name.as_str());
            let ghost prev_out = out@;
            if crate::text::contains_substring(name_lower.as_str(), q_lower.as_str()) {
                let copied = clone_contact(c);
                out.push(copied);
                proof {
                    broadcast use vstd::prelude::Seq::lemma_push_map_commute;

                    assert(contacts_views(out@) =~= contacts_views(prev_out).push(c@));
                    assert(contacts_views(out@) =~= cview.take(i + 1).filter(mq));
                }
            } else {
                proof {
                    assert(contacts_views(out@) =~= cview.take(i + 1).filter(mq));
                }
            }
            i = i + 1;
        }
        proof {
            let found = cview.filter(mq);
            if i == n {
                assert(cview.take(i as int) =~= cview);
                assert(contacts_views(out@) == found);
                vstd::prelude::Seq::lemma_filter_len(cview, mq);
                if found.len() > limit {
                    assert(out@.len() <= limit);
                    assert(false);
                }
            } else {
                assert(out@.len() == limit);
                let a = cview.take(i as int).filter(mq);
                let b = cview.skip(i as int).filter(mq);
                assert(cview.take(i as int) + cview.skip(i as int) =~= cview);
                vstd::prelude::Seq::filter_distributes_over_add(
                    cview.take(i as int),
                    cview.skip(i as int),
                    mq,
                );
                assert(found == a + b);
                if found.len() <= limit {
                    assert(b.len() == 0);
                    assert(found =~= a);
                } else {
                    assert(found.take(limit as int) =~= a);
                }
            }
        }
        out
    }

    /// The loaded contacts, sorted case-insensitively by name.
    pub fn all_contacts(&self) -> (r: &Vec<Contact>)
        ensures
            contacts_views(r@) == self@.contacts,
    {
        &self.contacts
    }
}

/// With no cards at all, the directory is empty: no number resolves to a
/// name and no contact is listed.
pub proof fn lemma_no_cards_empty_directory(k: Seq<char>)
    ensures
        map_opt(directory_map(Seq::<Seq<char>>::empty()), k) is None,
        parsed_contacts(Seq::<Seq<char>>::empty()).len() == 0,
{
    broadcast use vstd::map::group_map_axioms;

}

/// A contact whose name contains the query, case-insensitively.
pub open spec fn matching(q: Seq<char>) -> spec_fn(ContactView) -> bool {
    |c: ContactView| is_substring_of(lower_of(q), lower_of(c.name))
}

/// Copy a contact value.
fn clone_contact(c: &Contact) -> (r: Contact)
    ensures
        r@ == c@,
{
    let mut phones: Vec<String> = Vec::new();
    let mut i: usize = 0;
    while i < c.phone_numbers.len()
        invariant
            i <= c.phone_numbers@.len(),
            phones@.len() == i,
            forall|j: int| 0 <= j < i ==> #[trigger] phones@[j]@ == c.phone_numbers@[j]@,
        decreases c.phone_numbers@.len() - i,
    {
        phones.push(c.phone_numbers[i].clone());
        i = i + 1;
    }
    let r = Contact { name: c.name.clone(), phone_numbers: phones };
    proof {
        assert(r@.phone_numbers =~= c@.phone_numbers);
    }
    r
}

} // verus!
