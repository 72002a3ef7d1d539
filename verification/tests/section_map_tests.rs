use inf_rs::{InfEntry, InfSection, InfValue, SectionMap};

#[test]
fn new_map_holds_nothing() {
    let map = SectionMap::new();
    assert!(!map.contains_key("A"));
    assert!(map.get("A").is_none());
    assert!(map.names().is_empty());
    assert_eq!(map, SectionMap::default());
}

#[test]
fn insert_then_get() {
    let mut map = SectionMap::new();
    map.insert(InfSection::new("A".to_string()));
    map.insert(InfSection {
        name: "B".to_string(),
        entries: vec![InfEntry::OnlyValue(InfValue::Raw("x".to_string()))],
    });
    assert!(map.contains_key("A"));
    assert!(!map.contains_key("a"));
    assert_eq!(map.get("B").unwrap().entries.len(), 1);
    assert_eq!(map.get("A").unwrap().name, "A");
    assert_eq!(map.names(), vec!["A", "B"]);
}

#[test]
fn insert_replaces_a_section_of_the_same_name() {
    let mut map = SectionMap::new();
    map.insert(InfSection {
        name: "A".to_string(),
        entries: vec![InfEntry::OnlyValue(InfValue::Raw("x".to_string()))],
    });
    map.insert(InfSection::new("B".to_string()));
    map.insert(InfSection::new("A".to_string()));
    assert!(map.get("A").unwrap().entries.is_empty());
    assert_eq!(map.names(), vec!["A", "B"]);
}

#[test]
fn push_entry_appends_to_the_named_section_only() {
    let mut map = SectionMap::new();
    map.insert(InfSection::new("A".to_string()));
    map.insert(InfSection::new("B".to_string()));
    let first = InfEntry::KeyValue("k".to_string(), None);
    let second = InfEntry::OnlyValue(InfValue::List(vec!["x".to_string()]));
    map.push_entry("B", first.clone());
    map.push_entry("B", second.clone());
    map.push_entry("C", first.clone());
    assert!(map.get("A").unwrap().entries.is_empty());
    assert_eq!(map.get("B").unwrap().entries, vec![first, second]);
    assert!(!map.contains_key("C"));
}
