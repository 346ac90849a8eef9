use yml_diff::key::ConfigKey;
use yml_diff::path_map::PathMap;

fn key(s: &str) -> ConfigKey {
    ConfigKey::from(s)
}

fn listing(map: &PathMap<u32>) -> Vec<(String, u32)> {
    let mut out = Vec::new();
    let mut i = 0;
    while let Some((k, v)) = map.entry(i) {
        out.push((k.0.clone(), *v));
        i += 1;
    }
    out
}

#[test]
fn new_map_is_empty() {
    let map: PathMap<u32> = PathMap::new();
    assert!(map.is_empty());
    assert_eq!(map.len(), 0);
    assert!(map.entry(0).is_none());
    assert!(map.get(&key("a")).is_none());
    assert!(!map.contains_key(&key("a")));
}

#[test]
fn entries_are_listed_in_path_order() {
    let mut map = PathMap::new();
    map.insert(key("db.port"), 1);
    map.insert(key("b"), 2);
    map.insert(key("db"), 3);
    map.insert(key("db.a.b"), 4);
    map.insert(key("db.host"), 5);
    assert_eq!(
        listing(&map),
        vec![
            ("b".to_string(), 2),
            ("db".to_string(), 3),
            ("db.host".to_string(), 5),
            ("db.port".to_string(), 1),
            ("db.a.b".to_string(), 4),
        ]
    );
    assert_eq!(map.len(), 5);
    assert!(!map.is_empty());
    assert!(map.entry(5).is_none());
}

#[test]
fn insert_replaces_the_value_of_a_path() {
    let mut map = PathMap::new();
    map.insert(key("a"), 1);
    map.insert(key("b"), 2);
    map.insert(key("a"), 3);
    assert_eq!(listing(&map), vec![("a".to_string(), 3), ("b".to_string(), 2)]);
    assert_eq!(map.get(&key("a")), Some(&3));
    assert_eq!(map.get(&key("b")), Some(&2));
    assert_eq!(map.get(&key("c")), None);
    assert!(map.contains_key(&key("b")));
    assert!(!map.contains_key(&key("a.b")));
}
