use rtfm_syntax::collections::{IdentMap, IdentSet};

#[test]
fn map_get_after_insert() {
    let mut m: IdentMap<u32> = IdentMap::new();
    assert!(m.get("a").is_none());
    m.insert("a".to_string(), 1);
    m.insert("b".to_string(), 2);
    assert_eq!(m.get("a"), Some(&1));
    assert_eq!(m.get("b"), Some(&2));
    m.insert("a".to_string(), 3);
    assert_eq!(m.get("a"), Some(&3));
    assert_eq!(m.get("b"), Some(&2));
    assert!(m.get("c").is_none());
}

#[test]
fn set_contains_after_insert() {
    let mut s = IdentSet::new();
    assert!(!s.contains("X"));
    s.insert("X".to_string());
    s.insert("X".to_string());
    s.insert("Y".to_string());
    assert!(s.contains("X") && s.contains("Y"));
    assert!(!s.contains("Z"));
}
