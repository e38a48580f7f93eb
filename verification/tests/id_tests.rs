use lau_adinkra::AdinkraId;
use std::collections::HashSet;

#[test]
fn test_adinkra_id_new() {
    let id = AdinkraId::new("test");
    assert_eq!(id.as_str(), "test");
}

#[test]
fn test_adinkra_id_eq() {
    assert_eq!(AdinkraId::new("a"), AdinkraId::new("a"));
    assert_ne!(AdinkraId::new("a"), AdinkraId::new("b"));
}

#[test]
fn test_adinkra_id_clone() {
    let id = AdinkraId::new("orig");
    let cloned = id.clone();
    assert_eq!(id, cloned);
}

#[test]
fn test_adinkra_id_hash_eq_consistent() {
    let mut set = HashSet::new();
    set.insert(AdinkraId::new("x"));
    assert!(set.contains(&AdinkraId::new("x")));
    assert!(!set.contains(&AdinkraId::new("y")));
}

#[test]
fn adinkra_id_keeps_text_exactly() {
    let id = AdinkraId::new("");
    assert_eq!(id.as_str(), "");
    let id = AdinkraId::new("gye-nyame ✓");
    assert_eq!(id.as_str(), "gye-nyame ✓");
    assert_eq!(id.0, "gye-nyame ✓".to_string());
}
