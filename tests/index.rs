use keyvalue_db::index::Index;
use keyvalue_db::record::KVPair;

fn rec(k: &str, v: &str, e: Option<u64>) -> KVPair {
    KVPair { key: k.to_string(), value: v.to_string(), expires_at: e }
}

#[test]
fn insert_overwrites_and_remove_returns_record() {
    let mut ix = Index::new();
    ix.insert(rec("a", "1", None));
    ix.insert(rec("b", "2", Some(9)));
    ix.insert(rec("a", "3", None));
    assert_eq!(ix.lookup(&"a".to_string()).map(|p| p.value.clone()), Some("3".to_string()));
    assert_eq!(ix.keys().len(), 2);
    let removed = ix.remove(&"b".to_string()).unwrap();
    assert_eq!(removed.value, "2");
    assert_eq!(removed.expires_at, Some(9));
    assert!(ix.lookup(&"b".to_string()).is_none());
    assert!(ix.remove(&"b".to_string()).is_none());
    assert_eq!(ix.snapshot().len(), 1);
}

#[test]
fn purge_keeps_live_records_in_order() {
    let mut ix = Index::new();
    ix.insert(rec("x", "1", Some(5)));
    ix.insert(rec("y", "2", None));
    ix.insert(rec("z", "3", Some(20)));
    ix.insert(rec("w", "4", Some(10)));
    ix.purge_expired(10);
    let keys: Vec<String> = ix.snapshot().into_iter().map(|p| p.key).collect();
    assert_eq!(keys, vec!["y".to_string(), "z".to_string(), "w".to_string()]);
}

#[test]
fn from_lines_replays_in_order() {
    let lines = vec![Some(rec("a", "1", None)), Some(rec("b", "2", None)), None, Some(rec("a", "5", None))];
    let ix = Index::from_lines(&lines);
    assert_eq!(ix.lookup(&"a".to_string()).map(|p| p.value.clone()), Some("5".to_string()));
    assert_eq!(ix.lookup(&"b".to_string()).map(|p| p.value.clone()), Some("2".to_string()));
    assert_eq!(ix.keys().len(), 2);
}

#[test]
fn record_liveness_boundary() {
    assert!(rec("a", "1", None).is_live(u64::MAX));
    assert!(rec("a", "1", Some(10)).is_live(10));
    assert!(!rec("a", "1", Some(10)).is_live(11));
    let d = rec("k", "v", Some(3)).duplicate();
    assert_eq!((d.key, d.value, d.expires_at), ("k".to_string(), "v".to_string(), Some(3)));
}
