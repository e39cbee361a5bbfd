use fivem_gps::strmap::StrMap;

#[test]
fn insert_get_and_replace() {
    let mut m: StrMap<u32> = StrMap::new();
    assert_eq!(m.len(), 0);
    m.insert("a".to_string(), 1);
    m.insert("b".to_string(), 2);
    m.insert("a".to_string(), 3);
    assert_eq!(m.len(), 2);
    assert_eq!(m.get("a"), Some(&3));
    assert_eq!(m.get("b"), Some(&2));
    assert_eq!(m.get("c"), None);
    assert_eq!(m.key_at(0), "a");
    assert_eq!(m.key_at(1), "b");
    assert_eq!(m.position("b"), Some(1));
    assert_eq!(*m.value_at(0), 3);
}

#[test]
fn remove_moves_last_key_into_place() {
    let mut m: StrMap<u32> = StrMap::new();
    m.insert("a".to_string(), 1);
    m.insert("b".to_string(), 2);
    m.insert("c".to_string(), 3);
    assert_eq!(m.remove("a"), Some(1));
    assert_eq!(m.remove("a"), None);
    assert_eq!(m.len(), 2);
    assert_eq!(m.key_at(0), "c");
    assert_eq!(m.get("c"), Some(&3));
    assert_eq!(m.position("c"), Some(0));
    assert_eq!(m.get("b"), Some(&2));
    assert_eq!(m.remove("b"), Some(2));
    assert_eq!(m.remove("c"), Some(3));
    assert_eq!(m.len(), 0);
}

#[test]
fn push_to_starts_and_extends_lists() {
    let mut m: StrMap<Vec<u32>> = StrMap::new();
    m.push_to("a".to_string(), 1);
    m.push_to("b".to_string(), 2);
    m.push_to("a".to_string(), 3);
    assert_eq!(m.get("a"), Some(&vec![1, 3]));
    assert_eq!(m.get("b"), Some(&vec![2]));
}

#[test]
fn clone_keeps_keys_and_values() {
    let mut m: StrMap<String> = StrMap::new();
    m.insert("k1".to_string(), "v1".to_string());
    m.insert("k2".to_string(), "v2".to_string());
    let c = m.clone();
    assert_eq!(c.len(), 2);
    assert_eq!(c.key_at(0), "k1");
    assert_eq!(c.get("k2").unwrap(), "v2");
}
