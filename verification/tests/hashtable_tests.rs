use mini_redis::hashtable::{str_hash, ChainNode, Entry, HMap, HNode, HTab};

fn entry(key: &str, val: &str) -> Entry {
    Entry::new(key.to_string(), val.to_string())
}

#[test]
fn str_hash_is_fnv1a_64() {
    assert_eq!(str_hash(""), 14695981039346656037);
    assert_eq!(str_hash("a"), 0xaf63dc4c8601ec8c);
    assert_eq!(str_hash("foobar"), 0x85944171f73967e8);
    // hashes the UTF-8 bytes
    assert_eq!(str_hash("é"), 775207407765167617);
}

#[test]
fn entry_carries_hash_of_key() {
    let e = entry("k", "v");
    assert_eq!(e.node.hcode, str_hash("k"));
    assert_eq!(e.key, "k");
    assert_eq!(e.val, "v");
}

#[test]
fn htab_insert_lookup_remove() {
    let mut t = HTab::new(8);
    assert_eq!(t.buckets.len(), 8);
    assert_eq!(t.mask, 7);
    assert_eq!(t.size, 0);
    t.insert(entry("a", "1"));
    t.insert(entry("b", "2"));
    assert_eq!(t.size, 2);
    let h = str_hash("a");
    assert_eq!(t.lookup("a", h).map(|e| e.val.clone()), Some("1".to_string()));
    assert!(t.lookup("zz", str_hash("zz")).is_none());
    if let Some(e) = t.lookup_mut("a", h) {
        e.val = "one".to_string();
    }
    assert_eq!(t.lookup("a", h).unwrap().val, "one");
    let removed = t.remove("a", h).unwrap();
    assert_eq!((removed.key.as_str(), removed.val.as_str()), ("a", "one"));
    assert_eq!(t.size, 1);
    assert!(t.remove("a", h).is_none());
    assert_eq!(t.size, 1);
}

#[test]
fn htab_newest_entry_is_found_first() {
    let mut t = HTab::new(4);
    t.insert(entry("dup", "old"));
    t.insert(entry("dup", "new"));
    let h = str_hash("dup");
    assert_eq!(t.lookup("dup", h).unwrap().val, "new");
    assert_eq!(t.remove("dup", h).unwrap().val, "new");
    assert_eq!(t.lookup("dup", h).unwrap().val, "old");
}

#[test]
fn htab_remove_keeps_the_rest_of_the_chain() {
    // all in bucket 0 of a one-bucket table
    let mut t = HTab::new(1);
    for k in ["x", "y", "z"] {
        t.insert(entry(k, k));
    }
    assert!(t.remove("y", str_hash("y")).is_some());
    assert!(t.lookup("x", str_hash("x")).is_some());
    assert!(t.lookup("z", str_hash("z")).is_some());
    assert_eq!(t.size, 2);
}

#[test]
fn htab_on_empty_table() {
    let mut t = HTab { buckets: vec![], mask: 0, size: 0 };
    assert!(t.lookup("a", 1).is_none());
    assert!(t.lookup_mut("a", 1).is_none());
    assert!(t.remove("a", 1).is_none());
}

#[test]
fn htab_pop_one_walks_buckets_in_order() {
    let mut t = HTab::new(4);
    // hand-placed entries in buckets 1 and 3
    t.buckets[1] = Some(Box::new(ChainNode {
        entry: Entry { node: HNode { hcode: 1 }, key: "p".to_string(), val: "1".to_string() },
        next: None,
    }));
    t.buckets[3] = Some(Box::new(ChainNode {
        entry: Entry { node: HNode { hcode: 7 }, key: "q".to_string(), val: "2".to_string() },
        next: None,
    }));
    t.size = 2;
    let mut pos = 0usize;
    let e = t.pop_one(&mut pos).unwrap();
    assert_eq!((e.key.as_str(), pos), ("p", 1));
    let e = t.pop_one(&mut pos).unwrap();
    assert_eq!((e.key.as_str(), pos), ("q", 3));
    assert!(t.pop_one(&mut pos).is_none());
    assert_eq!(pos, 4);
    assert_eq!(t.size, 0);
    let mut far = 10usize;
    assert!(t.pop_one(&mut far).is_none());
    assert_eq!(far, 10);
}

#[test]
fn hmap_set_get_del() {
    let mut m = HMap::new();
    assert_eq!(m.len(), 0);
    assert_eq!(m.get("k"), None);
    m.set("k".to_string(), "v".to_string());
    assert_eq!(m.get("k"), Some("v".to_string()));
    assert_eq!(m.len(), 1);
    m.set("k".to_string(), "w".to_string());
    assert_eq!(m.get("k"), Some("w".to_string()));
    assert_eq!(m.len(), 1);
    assert!(m.del("k"));
    assert!(!m.del("k"));
    assert_eq!(m.get("k"), None);
    assert_eq!(m.len(), 0);
}

#[test]
fn hmap_survives_resizing() {
    let mut m = HMap::new();
    let n = 5000;
    for i in 0..n {
        m.set(format!("key{}", i), format!("val{}", i));
        assert_eq!(m.len(), i + 1);
    }
    for i in 0..n {
        assert_eq!(m.get(&format!("key{}", i)), Some(format!("val{}", i)));
    }
    // overwrite every other key while migration may still be going on
    for i in (0..n).step_by(2) {
        m.set(format!("key{}", i), "again".to_string());
    }
    assert_eq!(m.len(), n);
    for i in 0..n {
        let want = if i % 2 == 0 { "again".to_string() } else { format!("val{}", i) };
        assert_eq!(m.get(&format!("key{}", i)), Some(want));
    }
    for i in 0..n {
        assert!(m.del(&format!("key{}", i)));
        assert_eq!(m.len(), n - i - 1);
    }
    assert_eq!(m.get("key0"), None);
}

#[test]
fn hmap_all_keys() {
    let mut m = HMap::new();
    assert!(m.all_keys().is_empty());
    for i in 0..100 {
        m.set(format!("k{}", i), "x".to_string());
    }
    m.del("k5");
    let mut keys = m.all_keys();
    keys.sort();
    let mut want: Vec<String> = (0..100).filter(|&i| i != 5).map(|i| format!("k{}", i)).collect();
    want.sort();
    assert_eq!(keys, want);
}

#[test]
fn hmap_set_then_del_restores_the_map() {
    let mut m = HMap::new();
    m.set("a".to_string(), "1".to_string());
    m.set("b".to_string(), "2".to_string());
    m.set("k".to_string(), "v".to_string());
    assert!(m.del("k"));
    assert!(!m.del("k"));
    assert_eq!(m.len(), 2);
    assert_eq!(m.get("k"), None);
    assert_eq!(m.get("a"), Some("1".to_string()));
    assert_eq!(m.get("b"), Some("2".to_string()));
}
