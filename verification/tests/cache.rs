use offline_store::cache::CacheTable;

#[test]
fn set_then_set_then_get_returns_latest() {
    let mut c = CacheTable::new();
    c.set("k", "v1", 10);
    c.set("k", "v2", 20);
    let e = c.get("k").expect("entry must be present");
    assert_eq!(e.value, "v2");
    assert_eq!(e.updated_at, 20);
}

#[test]
fn updated_at_never_decreases() {
    let mut c = CacheTable::new();
    c.set("k", "v1", 100);
    c.set("k", "v2", 40); // the clock went backwards
    let e = c.get("k").expect("entry must be present");
    assert_eq!(e.value, "v2");
    assert_eq!(e.updated_at, 100);
    c.set("k", "v3", 150);
    let e = c.get("k").expect("entry must be present");
    assert_eq!(e.updated_at, 150);
}

#[test]
fn get_absent_key_is_none() {
    let c = CacheTable::new();
    assert!(c.get("nope").is_none());
}

#[test]
fn delete_removes_only_that_key() {
    let mut c = CacheTable::new();
    c.set("a", "1", 1);
    c.set("b", "2", 2);
    c.delete("a");
    assert!(c.get("a").is_none());
    assert_eq!(c.get("b").expect("kept").value, "2");
    // deleting again is a no-op
    c.delete("a");
    assert!(c.get("a").is_none());
}

#[test]
fn delete_prefix_removes_exactly_the_namespace() {
    let mut c = CacheTable::new();
    c.set("a/1", "x", 1);
    c.set("a/2", "y", 2);
    c.set("a", "bare", 3);
    c.set("b/1", "z", 4);
    c.delete_prefix("a/");
    assert!(c.get("a/1").is_none());
    assert!(c.get("a/2").is_none());
    assert_eq!(c.get("a").expect("no slash, kept").value, "bare");
    assert_eq!(c.get("b/1").expect("other namespace, kept").value, "z");
}

#[test]
fn delete_prefix_empty_prefix_clears_everything() {
    let mut c = CacheTable::new();
    c.set("a", "1", 1);
    c.set("b", "2", 2);
    c.delete_prefix("");
    assert!(c.get("a").is_none());
    assert!(c.get("b").is_none());
}

#[test]
fn round_trip_is_structural_for_nested_values() {
    // The store keeps values as opaque serialized text; what was set is
    // returned byte for byte, so the decoded structure is equal too.
    let cases = [
        "{\"a\":{\"b\":[1,2,3]},\"c\":null}",
        "{}",
        "[]",
        "{\"text\":\"héllo wörld ☃\",\"empty\":{},\"list\":[]}",
        "\"\"",
    ];
    let mut c = CacheTable::new();
    for (i, raw) in cases.iter().enumerate() {
        let v: serde_json::Value = serde_json::from_str(raw).expect("valid JSON");
        let stored = serde_json::to_string(&v).expect("serializable");
        let key = format!("k{}", i);
        c.set(&key, &stored, i as u64);
        let got = c.get(&key).expect("present").value.clone();
        let back: serde_json::Value = serde_json::from_str(&got).expect("still valid JSON");
        assert_eq!(back, v);
    }
}

#[test]
fn rows_enumerate_every_entry() {
    let mut c = CacheTable::new();
    c.set("a", "1", 1);
    c.set("b", "2", 2);
    c.set("a", "3", 3);
    let mut rows: Vec<(String, String, u64)> =
        c.rows().iter().map(|e| (e.key.clone(), e.value.clone(), e.updated_at)).collect();
    rows.sort();
    assert_eq!(
        rows,
        vec![
            ("a".to_string(), "3".to_string(), 3),
            ("b".to_string(), "2".to_string(), 2)
        ]
    );
}

#[test]
fn delete_prefix_handles_unicode_keys() {
    let mut c = CacheTable::new();
    c.set("ä/1", "x", 1);
    c.set("ä/2", "y", 2);
    c.set("ö/1", "z", 3);
    c.delete_prefix("ä/");
    assert!(c.get("ä/1").is_none());
    assert!(c.get("ä/2").is_none());
    assert_eq!(c.get("ö/1").expect("kept").value, "z");
}
