use sysctl_mutator::name_order::{compare_names, NameOrder};
use sysctl_mutator::string_map::StringMap;

fn map_of(pairs: &[(&str, &str)]) -> StringMap {
    let mut m = StringMap::new();
    for (k, v) in pairs {
        m.insert(k.to_string(), v.to_string());
    }
    m
}

#[test]
fn insert_then_get_reads_back_value() {
    let mut m = StringMap::new();
    assert!(m.is_empty());
    m.insert("b".to_string(), "2".to_string());
    m.insert("a".to_string(), "1".to_string());
    assert_eq!(m.get("a").unwrap(), "1");
    assert_eq!(m.get("b").unwrap(), "2");
    assert!(m.get("c").is_none());
    assert!(m.contains_key("a"));
    assert!(!m.contains_key("c"));
    assert_eq!(m.len(), 2);
}

#[test]
fn insert_replaces_existing_value() {
    let mut m = map_of(&[("k", "old"), ("j", "x")]);
    m.insert("k".to_string(), "new".to_string());
    assert_eq!(m.len(), 2);
    assert_eq!(m.get("k").unwrap(), "new");
    assert_eq!(m.get("j").unwrap(), "x");
}

#[test]
fn entries_come_out_in_ascending_order() {
    let m = map_of(&[("net.ipv4.tcp_rmem", "x"), ("net.core.somaxconn", "y"), ("kernel.shmmax", "z"), ("net.core.somaxconn", "w")]);
    let entries = m.into_entries();
    let keys: Vec<&str> = entries.iter().map(|e| e.0.as_str()).collect();
    assert_eq!(keys, vec!["kernel.shmmax", "net.core.somaxconn", "net.ipv4.tcp_rmem"]);
    assert_eq!(entries[1].1, "w");
}

#[test]
fn extend_prefers_the_other_map() {
    let mut base = map_of(&[("a", "1"), ("b", "2")]);
    let other = map_of(&[("b", "3"), ("c", "4")]);
    base.extend(&other);
    assert_eq!(base.len(), 3);
    assert_eq!(base.get("a").unwrap(), "1");
    assert_eq!(base.get("b").unwrap(), "3");
    assert_eq!(base.get("c").unwrap(), "4");
    assert_eq!(other.len(), 2);
}

#[test]
fn clone_keeps_entries() {
    let m = map_of(&[("a", "1"), ("b", "2")]);
    let c = m.clone();
    assert_eq!(c.len(), 2);
    assert_eq!(c.get("a").unwrap(), "1");
    assert_eq!(c.get("b").unwrap(), "2");
}

#[test]
fn from_pairs_later_pair_wins() {
    let pairs = vec![
        ("x".to_string(), "1".to_string()),
        ("y".to_string(), "2".to_string()),
        ("x".to_string(), "3".to_string()),
    ];
    let m = StringMap::from_pairs(&pairs);
    assert_eq!(m.len(), 2);
    assert_eq!(m.get("x").unwrap(), "3");
    assert_eq!(m.get("y").unwrap(), "2");
}

#[test]
fn names_compare_like_strings() {
    let names = ["", "a", "ab", "b", "net.core", "net.core.somaxconn", "net.ipv4", "zé", "z\u{10000}", "é"];
    for x in names.iter() {
        for y in names.iter() {
            let expected = if x < y {
                NameOrder::Less
            } else if x == y {
                NameOrder::Equal
            } else {
                NameOrder::Greater
            };
            assert_eq!(compare_names(x, y), expected, "{} vs {}", x, y);
        }
    }
}
