use phone_companion::contacts::parse_vcard;
use phone_companion::contacts::ContactLookup;

#[test]
fn vcard_basic() {
    let card = "BEGIN:VCARD\nFN:Alice Example\nTEL;CELL:(555) 123-4567\nEND:VCARD\n";
    let c = parse_vcard(card).unwrap();
    assert_eq!(c.name, "Alice Example");
    assert_eq!(c.phone_numbers, vec!["(555) 123-4567".to_string()]);
}

#[test]
fn vcard_tel_variants_and_crlf() {
    let card = "FN:Bob\r\nTEL:111\r\nTEL;TYPE=CELL:222\r\nTEL;X:  333  \r\n";
    let c = parse_vcard(card).unwrap();
    assert_eq!(c.name, "Bob");
    assert_eq!(c.phone_numbers, vec!["111", "222", "333"]);
}

#[test]
fn vcard_skips_encoded_and_empty_numbers() {
    let card = "FN:Carol\nTEL;ENCODING=QUOTED-PRINTABLE:=31=32\nTEL:\nTEL:444\n";
    let c = parse_vcard(card).unwrap();
    assert_eq!(c.phone_numbers, vec!["444"]);
}

#[test]
fn vcard_last_name_line_wins() {
    let card = "FN:First\nTEL:1234\nFN:  Second  \n";
    let c = parse_vcard(card).unwrap();
    assert_eq!(c.name, "Second");
}

#[test]
fn vcard_discarded_only_when_name_and_phones_missing() {
    assert!(parse_vcard("").is_none());
    assert!(parse_vcard("BEGIN:VCARD\nEND:VCARD\n").is_none());
    assert!(parse_vcard("FN:\nNOTE:x\n").is_none());
    let number_only = parse_vcard("TEL:1234\n").unwrap();
    assert_eq!(number_only.name, "");
    assert_eq!(number_only.phone_numbers, vec!["1234"]);
    let name_only = parse_vcard("FN:NoPhones\n").unwrap();
    assert_eq!(name_only.name, "NoPhones");
    assert!(name_only.phone_numbers.is_empty());
    let blank_name = parse_vcard("FN:\nTEL:1234\n").unwrap();
    assert_eq!(blank_name.name, "");
    assert_eq!(blank_name.phone_numbers, vec!["1234"]);
}

fn sample_lookup() -> ContactLookup {
    let cards = vec![
        "FN:bob\nTEL:+1-555-123-4567\n".to_string(),
        "FN:Alice\nTEL:111222\nTEL:333444\n".to_string(),
        "FN:carl\nTEL:999\n".to_string(),
    ];
    ContactLookup::load_from_cards(&cards)
}

#[test]
fn lookup_by_normalized_number() {
    let lookup = sample_lookup();
    assert_eq!(lookup.get_name("(555) 123-4567"), Some("bob"));
    assert_eq!(lookup.get_name("15551234567"), Some("bob"));
    assert_eq!(lookup.get_name("111-222"), Some("Alice"));
    assert_eq!(lookup.get_name("333444"), Some("Alice"));
    assert_eq!(lookup.get_name("000"), None);
}

#[test]
fn later_card_overwrites_duplicate_number() {
    let cards = vec![
        "FN:Old Owner\nTEL:777\n".to_string(),
        "FN:New Owner\nTEL:7 7-7\n".to_string(),
    ];
    let lookup = ContactLookup::load_from_cards(&cards);
    assert_eq!(lookup.get_name("777"), Some("New Owner"));
    assert_eq!(lookup.len(), 1);
}

#[test]
fn contacts_sorted_case_insensitively() {
    let lookup = sample_lookup();
    let names: Vec<&str> = lookup.all_contacts().iter().map(|c| c.name.as_str()).collect();
    assert_eq!(names, vec!["Alice", "bob", "carl"]);
}

#[test]
fn name_or_number_falls_back_to_raw_string() {
    let lookup = sample_lookup();
    assert_eq!(lookup.get_name_or_number("999"), "carl");
    assert_eq!(lookup.get_name_or_number("(555) 123-4567"), "bob");
    assert_eq!(lookup.get_name_or_number("+1 (000) 000-0000"), "+1 (000) 000-0000");
}

#[test]
fn name_or_number_falls_back_on_blank_name() {
    let cards = vec!["FN:   \u{00A0}\nTEL:123\n".to_string()];
    let lookup = ContactLookup::load_from_cards(&cards);
    assert_eq!(lookup.get_name_or_number("123"), "123");
}

#[test]
fn empty_load_gives_empty_index() {
    let lookup = ContactLookup::load_from_cards(&Vec::new());
    assert!(lookup.is_empty());
    assert_eq!(lookup.len(), 0);
    assert!(lookup.all_contacts().is_empty());
    assert_eq!(lookup.get_name("123"), None);
    assert_eq!(lookup.get_name_or_number("123"), "123");
}

#[test]
fn new_lookup_is_empty() {
    let lookup = ContactLookup::new();
    assert!(lookup.is_empty());
    assert_eq!(lookup.get_name("555"), None);
}

#[test]
fn unparsable_cards_are_skipped() {
    let cards = vec![
        "just some text".to_string(),
        "FN:Kept\nTEL:123\n".to_string(),
    ];
    let lookup = ContactLookup::load_from_cards(&cards);
    assert_eq!(lookup.all_contacts().len(), 1);
    assert_eq!(lookup.get_name("123"), Some("Kept"));
}

#[test]
fn search_is_case_insensitive_substring() {
    let lookup = sample_lookup();
    let r = lookup.search_by_name("ALI", 10);
    assert_eq!(r.len(), 1);
    assert_eq!(r[0].name, "Alice");
    let r = lookup.search_by_name("C", 10);
    let names: Vec<&str> = r.iter().map(|c| c.name.as_str()).collect();
    assert_eq!(names, vec!["Alice", "carl"]);
}

#[test]
fn search_respects_limit_and_empty_query() {
    let lookup = sample_lookup();
    assert_eq!(lookup.search_by_name("", 10).len(), 0);
    let r = lookup.search_by_name("a", 1);
    assert_eq!(r.len(), 1);
    assert_eq!(r[0].name, "Alice");
    assert_eq!(lookup.search_by_name("zzz", 10).len(), 0);
}
