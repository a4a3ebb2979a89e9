use keyvalue_db::record::KVPair;
use keyvalue_db::store::{KVStore, LogWrite};

fn empty_store() -> KVStore {
    KVStore::new(&Vec::new())
}

fn s(x: &str) -> String {
    x.to_string()
}

fn rec(k: &str, v: &str, e: Option<u64>) -> KVPair {
    KVPair { key: s(k), value: s(v), expires_at: e }
}

fn apply(log: &mut Vec<KVPair>, w: LogWrite) {
    match w {
        LogWrite::Append(p) => log.push(p),
        LogWrite::Rewrite(ps) => *log = ps,
        LogWrite::Nothing => {}
    }
}

fn reopen(log: &Vec<KVPair>) -> KVStore {
    let lines: Vec<Option<KVPair>> = log.iter().map(|p| Some(p.clone())).collect();
    KVStore::new(&lines)
}

#[test]
fn unset_key_is_absent() {
    let mut st = empty_store();
    assert_eq!(st.get("missing", 0), None);
    st.set(s("a"), s("1"), None, 0);
    assert_eq!(st.get("b", 0), None);
}

#[test]
fn set_without_ttl_stays_until_overwritten() {
    let mut st = empty_store();
    st.set(s("k"), s("v"), None, 100);
    assert_eq!(st.get("k", 100), Some(s("v")));
    assert_eq!(st.get("k", u64::MAX), Some(s("v")));
    st.set(s("other"), s("x"), None, 100);
    st.delete("other");
    st.compact(5000);
    assert_eq!(st.get("k", 5000), Some(s("v")));
    st.set(s("k"), s("w"), None, 200);
    assert_eq!(st.get("k", 200), Some(s("w")));
}

#[test]
fn set_with_ttl_expires_after_ttl() {
    let mut st = empty_store();
    st.set(s("t"), s("x"), Some(10), 1000);
    assert_eq!(st.get("t", 1000), Some(s("x")));
    assert_eq!(st.get("t", 1010), Some(s("x")));
    assert_eq!(st.get("t", 1011), None);
}

#[test]
fn ttl_sum_saturates() {
    let mut st = empty_store();
    let w = st.set(s("t"), s("x"), Some(u64::MAX), 5);
    match w {
        LogWrite::Append(p) => assert_eq!(p.expires_at, Some(u64::MAX)),
        _ => panic!("expected an append"),
    }
    assert_eq!(st.get("t", u64::MAX), Some(s("x")));
}

#[test]
fn delete_hides_key_and_returns_value() {
    let mut st = empty_store();
    st.set(s("k"), s("v"), None, 0);
    let (old, w) = st.delete("k");
    assert_eq!(old, Some(s("v")));
    assert!(matches!(w, LogWrite::Rewrite(ref ps) if ps.is_empty()));
    assert_eq!(st.get("k", 0), None);
    let (again, w2) = st.delete("k");
    assert_eq!(again, None);
    assert!(matches!(w2, LogWrite::Nothing));
}

#[test]
fn delete_returns_expired_value() {
    let mut st = empty_store();
    st.set(s("k"), s("v"), Some(1), 0);
    assert_eq!(st.get("k", 5), None);
    assert_eq!(st.delete("k").0, Some(s("v")));
}

#[test]
fn restart_rebuilds_last_values() {
    let mut st = empty_store();
    let mut log: Vec<KVPair> = Vec::new();
    apply(&mut log, st.set(s("a"), s("1"), None, 0));
    apply(&mut log, st.set(s("b"), s("2"), None, 0));
    apply(&mut log, st.set(s("a"), s("3"), None, 0));
    apply(&mut log, st.set(s("c"), s("4"), None, 0));
    apply(&mut log, st.delete("c").1);
    apply(&mut log, st.set(s("d"), s("5"), Some(100), 0));
    let again = reopen(&log);
    assert_eq!(again.get("a", 10), Some(s("3")));
    assert_eq!(again.get("b", 10), Some(s("2")));
    assert_eq!(again.get("c", 10), None);
    assert_eq!(again.get("d", 10), Some(s("5")));
    assert_eq!(again.get("d", 101), None);
}

#[test]
fn load_skips_undecoded_lines_and_keeps_last_write() {
    let lines = vec![
        Some(rec("a", "1", None)),
        None,
        Some(rec("a", "2", None)),
        Some(rec("old", "x", Some(3))),
    ];
    let st = KVStore::new(&lines);
    assert_eq!(st.get("a", 10), Some(s("2")));
    assert_eq!(st.get("old", 10), None);
    let mut keys = st.list_keys();
    keys.sort();
    assert_eq!(keys, vec![s("a"), s("old")]);
}

#[test]
fn list_keys_includes_expired() {
    let mut st = empty_store();
    st.set(s("temp"), s("x"), Some(3), 0);
    st.set(s("keep"), s("y"), None, 0);
    assert_eq!(st.get("temp", 5), None);
    let mut keys = st.list_keys();
    keys.sort();
    assert_eq!(keys, vec![s("keep"), s("temp")]);
}

#[test]
fn compaction_purges_expired_and_is_idempotent() {
    let mut st = empty_store();
    st.set(s("temp"), s("x"), Some(3), 0);
    st.set(s("keep"), s("y"), None, 0);
    st.set(s("later"), s("z"), Some(50), 0);
    let first = match st.compact(10) {
        LogWrite::Rewrite(ps) => ps,
        _ => panic!("expected a rewrite"),
    };
    let keys: Vec<String> = first.iter().map(|p| p.key.clone()).collect();
    assert_eq!(keys, vec![s("keep"), s("later")]);
    assert_eq!(st.list_keys().len(), 2);
    let second = match st.compact(10) {
        LogWrite::Rewrite(ps) => ps,
        _ => panic!("expected a rewrite"),
    };
    let keys2: Vec<String> = second.iter().map(|p| p.key.clone()).collect();
    assert_eq!(keys, keys2);
    assert_eq!(st.get("keep", 10), Some(s("y")));
    assert_eq!(st.get("later", 10), Some(s("z")));
}

#[test]
fn backup_restore_round_trip() {
    let mut st = empty_store();
    let mut log: Vec<KVPair> = Vec::new();
    apply(&mut log, st.set(s("k1"), s("v1"), None, 0));
    let backup = log.clone();
    apply(&mut log, st.set(s("k1"), s("v2"), None, 0));
    assert_eq!(st.get("k1", 0), Some(s("v2")));
    let lines: Vec<Option<KVPair>> = backup.into_iter().map(Some).collect();
    st.restore(&lines);
    assert_eq!(st.get("k1", 0), Some(s("v1")));
}

#[test]
fn name_and_temp_scenario() {
    let mut st = empty_store();
    let t0: u64 = 1_700_000_000;
    st.set(s("name"), s("Alice"), None, t0);
    assert_eq!(st.get("name", t0), Some(s("Alice")));
    st.set(s("name"), s("Bob"), None, t0);
    assert_eq!(st.get("name", t0), Some(s("Bob")));
    st.set(s("temp"), s("x"), Some(10), t0);
    assert_eq!(st.get("temp", t0), Some(s("x")));
    assert_eq!(st.get("temp", t0 + 11), None);
}

#[test]
fn snapshot_holds_one_record_per_key() {
    let mut st = empty_store();
    st.set(s("key1"), s("value1"), None, 0);
    st.set(s("key2"), s("value2"), None, 0);
    st.set(s("key1"), s("value3"), None, 0);
    let mut snap: Vec<(String, String)> =
        st.write_snapshot().into_iter().map(|p| (p.key, p.value)).collect();
    snap.sort();
    assert_eq!(snap, vec![(s("key1"), s("value3")), (s("key2"), s("value2"))]);
}
