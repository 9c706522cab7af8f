use kryss::dictionary::next_page_link;
use kryss::Dictionary;

fn dict() -> Dictionary {
    let mut d = Dictionary::new();
    for w in ["CAT", "DOG", "COT", "HORSE", "OX"] {
        d.add_word("animal", w);
    }
    d.add_word("color", "RED");
    d
}

#[test]
fn new_dictionary_is_empty() {
    let d = Dictionary::new();
    assert_eq!(d.entry_count(), 0);
    assert!(!d.changed);
    assert!(d.lookup("animal", 3, None).is_empty());
}

#[test]
fn lookup_by_length() {
    let d = dict();
    assert_eq!(d.lookup("animal", 3, None), vec!["CAT", "DOG", "COT"]);
    assert_eq!(d.lookup("animal", 2, None), vec!["OX"]);
    assert_eq!(d.lookup("animal", 4, None), Vec::<String>::new());
    assert_eq!(d.lookup("plant", 3, None), Vec::<String>::new());
}

#[test]
fn lookup_by_hint() {
    let d = dict();
    assert_eq!(d.lookup("animal", 3, Some("C..")), vec!["CAT", "COT"]);
    assert_eq!(d.lookup("animal", 3, Some(".O.")), vec!["DOG", "COT"]);
    assert_eq!(d.lookup("animal", 3, Some("..T")), vec!["CAT", "COT"]);
    assert_eq!(d.lookup("animal", 3, Some("...")), vec!["CAT", "DOG", "COT"]);
    assert_eq!(d.lookup("animal", 3, Some("XYZ")), Vec::<String>::new());
    // a short hint constrains only the cells it covers
    assert_eq!(d.lookup("animal", 3, Some("D")), vec!["DOG"]);
}

#[test]
fn add_word_skips_duplicates() {
    let mut d = dict();
    d.changed = false;
    d.add_word("animal", "CAT");
    assert!(!d.changed);
    assert_eq!(d.lookup("animal", 3, None), vec!["CAT", "DOG", "COT"]);
    d.add_word("animal", "EMU");
    assert!(d.changed);
    assert_eq!(d.lookup("animal", 3, None), vec!["CAT", "DOG", "COT", "EMU"]);
    assert_eq!(d.entry_count(), 2);
    assert!(d.contains_key("color"));
    assert!(!d.contains_key("colour"));
    let (k, ws) = d.entry_at(1);
    assert_eq!(k, "color");
    assert_eq!(ws, &vec!["RED".to_string()]);
}

#[test]
fn found_words_replace_and_drop_phrases() {
    let mut d = dict();
    d.changed = false;
    let found = vec![" LION\n".to_string(), "SEA LION".to_string(), "PUMA".to_string()];
    d.add_found_words("animal", &found);
    assert!(d.changed);
    assert_eq!(d.lookup("animal", 4, None), vec!["LION", "PUMA"]);
    assert!(d.lookup("animal", 3, None).is_empty());
    d.set_words("bird", vec!["TIT".to_string()]);
    assert_eq!(d.lookup("bird", 3, None), vec!["TIT"]);
}

#[test]
fn unknown_keys() {
    assert!(Dictionary::is_unknown_key("xxxx"));
    assert!(Dictionary::is_unknown_key("wordxxxxx"));
    assert!(!Dictionary::is_unknown_key("xxx"));
    assert!(!Dictionary::is_unknown_key("xx-xx"));
    assert!(!Dictionary::is_unknown_key(""));
}

#[test]
fn next_page_links() {
    assert_eq!(next_page_link("shFunc.setNextLink('?page=2');"), Some("?page=2".to_string()));
    assert_eq!(next_page_link("shFunc.setNextLink('');"), None);
    assert_eq!(next_page_link("shFunc.setNextLink('a');b');"), Some("ab".to_string()));
    assert_eq!(next_page_link("other('x');"), None);
    assert_eq!(next_page_link(""), None);
}
