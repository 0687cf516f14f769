use nextgen_studio::text_map::TextMap;

#[test]
fn text_map_keeps_one_value_per_key() {
    let mut m = TextMap::new();
    m.insert("a".to_string(), "1".to_string());
    m.insert("b".to_string(), "2".to_string());
    m.insert("a".to_string(), "3".to_string());
    assert_eq!(m.len(), 2);
    assert_eq!(m.get(&"a".to_string()), Some(&"3".to_string()));
    assert_eq!(m.get(&"c".to_string()), None);
    let (k, v) = m.entry(0);
    assert_eq!((k.as_str(), v.as_str()), ("a", "3"));
    m.set_value(1, "9".to_string());
    assert_eq!(m.get(&"b".to_string()), Some(&"9".to_string()));
    let mut other = TextMap::new();
    other.insert("b".to_string(), "x".to_string());
    other.insert("c".to_string(), "y".to_string());
    m.extend_from(&other);
    assert_eq!(m.len(), 3);
    assert_eq!(m.get(&"b".to_string()), Some(&"x".to_string()));
    let copy = m.duplicate();
    assert_eq!(copy.get(&"c".to_string()), Some(&"y".to_string()));
}
