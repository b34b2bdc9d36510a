use pinroar::pin::{Pin, PinInfo};
use pinroar::store::{PinError, PinStore};
use pinroar::text::{contains_chars, lower_chars, split_whitespace, trimmed};
use pinroar::url::normalize_url;

fn pin_with_url(url: &str) -> Pin {
    let mut p = Pin::new();
    p.urls = vec![url.to_string()];
    p
}

fn store_with(names: &[&str]) -> PinStore {
    let mut s = PinStore::new();
    for n in names {
        assert!(s.register_user(n.to_string()));
    }
    s
}

#[test]
fn trailing_slash_duplicate_is_refused() {
    let mut s = store_with(&["alice"]);
    let id = s.add_pin("alice", pin_with_url("http://x.com/")).unwrap();
    assert_eq!(s.add_pin("alice", pin_with_url("http://x.com")), Err(PinError::DuplicateUrl(id)));
    assert_eq!(s.list_pins("alice").unwrap().len(), 1);
}

#[test]
fn pin_without_url_is_refused() {
    let mut s = store_with(&["alice"]);
    assert_eq!(s.add_pin("alice", Pin::new()), Err(PinError::MissingUrl));
    assert_eq!(s.add_pin("alice", pin_with_url("   ")), Err(PinError::MissingUrl));
    assert!(s.list_pins("alice").unwrap().is_empty());
    assert_eq!(s.add_pin("alice", pin_with_url(" // ")), Ok(0));
}

#[test]
fn two_adds_are_both_listed_in_order() {
    let mut s = store_with(&["alice"]);
    let a = s.add_pin("alice", pin_with_url("http://a.com")).unwrap();
    let b = s.add_pin("alice", pin_with_url("http://b.com")).unwrap();
    assert_eq!((a, b), (0, 1));
    let pins = s.list_pins("alice").unwrap();
    assert_eq!(pins.len(), 2);
    assert_eq!(pins[0].urls, vec!["http://a.com".to_string()]);
    assert_eq!(pins[0].id, 0);
    assert_eq!(pins[1].urls, vec!["http://b.com".to_string()]);
    assert_eq!(pins[1].id, 1);
}

#[test]
fn user_without_pins_lists_empty() {
    let s = store_with(&["alice"]);
    assert_eq!(s.list_pins("alice").unwrap().len(), 0);
}

#[test]
fn unknown_user_is_refused() {
    let mut s = store_with(&["alice"]);
    assert_eq!(s.add_pin("bob", pin_with_url("http://x.com")), Err(PinError::UserNotFound));
    assert_eq!(s.list_pins("bob").err(), Some(PinError::UserNotFound));
}

#[test]
fn users_have_separate_collections() {
    let mut s = store_with(&["alice", "bob"]);
    assert!(!s.register_user("alice".to_string()));
    s.add_pin("alice", pin_with_url("http://x.com")).unwrap();
    assert_eq!(s.add_pin("bob", pin_with_url("http://x.com/")), Ok(0));
    assert_eq!(s.list_pins("alice").unwrap().len(), 1);
    assert_eq!(s.list_pins("bob").unwrap().len(), 1);
}

#[test]
fn pin_from_form_fields() {
    let info = PinInfo {
        title: Some("Rust".to_string()),
        url: Some("https://rust-lang.org".to_string()),
        description: None,
        tags: Some("  lang  systems\tcode ".to_string()),
        starred: Some("on".to_string()),
        unread: Some("off".to_string()),
    };
    let p = Pin::from_info(info);
    assert_eq!(p.title, "Rust");
    assert_eq!(p.urls, vec!["https://rust-lang.org".to_string()]);
    assert_eq!(p.description, "");
    assert_eq!(p.tags, vec!["lang".to_string(), "systems".to_string(), "code".to_string()]);
    assert!(p.starred);
    assert!(!p.unread);
}

#[test]
fn empty_form_gives_default_pin() {
    let info = PinInfo {
        title: None,
        url: None,
        description: None,
        tags: None,
        starred: None,
        unread: None,
    };
    let p = Pin::from_info(info);
    assert!(p.urls.is_empty());
    assert!(p.tags.is_empty());
    assert!(!p.starred && !p.unread);
}

#[test]
fn url_normalization() {
    let n: String = normalize_url("  http://x.com/path//  ").into_iter().collect();
    assert_eq!(n, "http://x.com/path");
    assert!(normalize_url(" / ").is_empty());
    let t: String = trimmed(&" a b ".chars().collect()).into_iter().collect();
    assert_eq!(t, "a b");
}

#[test]
fn whitespace_split() {
    assert_eq!(split_whitespace("a  b\nc"), vec!["a", "b", "c"]);
    assert!(split_whitespace("   ").is_empty());
}

fn tagged(url: &str, title: &str, description: &str, tags: &[&str]) -> Pin {
    let mut p = pin_with_url(url);
    p.title = title.to_string();
    p.description = description.to_string();
    p.tags = tags.iter().map(|t| t.to_string()).collect();
    p
}

#[test]
fn search_by_tag_title_and_description() {
    let mut s = store_with(&["alice"]);
    s.add_pin("alice", tagged("http://a.com", "Rust Book", "learning", &["lang"])).unwrap();
    s.add_pin("alice", tagged("http://b.com", "Cooking", "RUSTY pans", &["food"])).unwrap();
    s.add_pin("alice", tagged("http://c.com", "Other", "nothing", &["rust-free"])).unwrap();
    assert_eq!(s.search_pins("alice", "rust").unwrap(), vec![0, 1]);
    assert_eq!(s.search_pins("alice", "food").unwrap(), vec![1]);
    assert_eq!(s.search_pins("alice", "rust-free").unwrap(), vec![2]);
    assert_eq!(s.search_pins("alice", "zzz").unwrap(), Vec::<u64>::new());
    assert_eq!(s.search_pins("alice", "rust").unwrap(), vec![0, 1]);
    assert_eq!(s.search_pins("bob", "rust").err(), Some(PinError::UserNotFound));
}

#[test]
fn tag_match_is_exact() {
    let mut s = store_with(&["alice"]);
    s.add_pin("alice", tagged("http://a.com", "", "", &["Lang"])).unwrap();
    assert_eq!(s.search_pins("alice", "lang").unwrap(), Vec::<u64>::new());
    assert_eq!(s.search_pins("alice", "Lang").unwrap(), vec![0]);
}

#[test]
fn lowercase_and_substring_helpers() {
    let l: String = lower_chars(&"AbC-Ü".chars().collect()).into_iter().collect();
    assert_eq!(l, "abc-Ü");
    assert!(contains_chars(&"hello".chars().collect(), &"ell".chars().collect()));
    assert!(contains_chars(&"hello".chars().collect(), &vec![]));
    assert!(!contains_chars(&"he".chars().collect(), &"hello".chars().collect()));
}

#[test]
fn scheme_and_host_case_is_ignored() {
    let mut s = store_with(&["alice"]);
    let id = s.add_pin("alice", pin_with_url("http://x.com/Path")).unwrap();
    assert_eq!(s.add_pin("alice", pin_with_url("HTTP://X.COM/Path/")), Err(PinError::DuplicateUrl(id)));
    assert_eq!(s.add_pin("alice", pin_with_url("http://x.com/path")), Ok(1));
    let n: String = normalize_url(" HTTPS://Example.ORG/A/B/ ").into_iter().collect();
    assert_eq!(n, "https://example.org/A/B");
    let m: String = normalize_url("Example.ORG/A").into_iter().collect();
    assert_eq!(m, "Example.ORG/A");
}

#[test]
fn unicode_whitespace_separates_tags() {
    assert_eq!(split_whitespace("a\u{3000}b\u{A0}c"), vec!["a", "b", "c"]);
}

#[test]
fn new_user_starts_ids_at_zero() {
    let mut s = store_with(&["alice", "bob"]);
    s.add_pin("alice", pin_with_url("http://a.com")).unwrap();
    assert_eq!(s.add_pin("bob", pin_with_url("http://b.com")), Ok(0));
}

#[test]
fn second_urls_of_stored_pins_count_as_taken() {
    let mut s = store_with(&["alice"]);
    let mut p = pin_with_url("http://a.com");
    p.urls.push("http://mirror.a.com/".to_string());
    let id = s.add_pin("alice", p).unwrap();
    assert_eq!(s.add_pin("alice", pin_with_url("http://mirror.a.com")), Err(PinError::DuplicateUrl(id)));
}

#[test]
fn search_ignores_unicode_case() {
    let mut s = store_with(&["alice"]);
    s.add_pin("alice", tagged("http://a.com", "ÉCOLE Straße", "", &[])).unwrap();
    assert_eq!(s.search_pins("alice", "école").unwrap(), vec![0]);
    assert_eq!(s.search_pins("alice", "STRASSE").unwrap(), Vec::<u64>::new());
    assert_eq!(s.search_pins("alice", "STRAßE").unwrap(), vec![0]);
}
