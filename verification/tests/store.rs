use coffer::coffer::{CofferError, CofferKey, CofferMap, CofferShard, CofferValue};

fn key(shard: &str, key: &str) -> CofferKey {
    CofferKey { shard: shard.to_string(), key: key.to_string() }
}

fn as_str(v: &CofferValue) -> &str {
    match v {
        CofferValue::Str(s) => s.as_str(),
        _ => panic!("expected a string value"),
    }
}

#[test]
fn put_then_get() {
    let mut m = CofferMap::new();
    assert!(m.put(key("s", "k"), CofferValue::Str("v".to_string())).is_ok());
    let got = m.get(&key("s", "k")).expect("value stored");
    assert_eq!(as_str(&got), "v");
}

#[test]
fn put_is_exclusive() {
    let mut m = CofferMap::new();
    assert!(m.put(key("s", "k"), CofferValue::Str("first".to_string())).is_ok());
    let second = m.put(key("s", "k"), CofferValue::Str("second".to_string()));
    assert_eq!(second, Err(CofferError::KeyExists));
    let got = m.get(&key("s", "k")).expect("value stored");
    assert_eq!(as_str(&got), "first");
}

#[test]
fn push_replaces() {
    let mut m = CofferMap::new();
    m.push(key("s", "k"), CofferValue::Str("first".to_string()));
    m.push(key("s", "k"), CofferValue::Str("second".to_string()));
    let got = m.get(&key("s", "k")).expect("value stored");
    assert_eq!(as_str(&got), "second");
}

#[test]
fn get_miss_on_absent_shard_or_key() {
    let mut m = CofferMap::new();
    assert!(m.get(&key("s", "k")).is_none());
    m.push(key("s", "k"), CofferValue::Boolean(true));
    assert!(m.get(&key("s", "other")).is_none());
    assert!(m.get(&key("other", "k")).is_none());
}

#[test]
fn keys_are_per_shard() {
    let mut m = CofferMap::new();
    assert!(m.put(key("a", "k"), CofferValue::Integer(1)).is_ok());
    assert!(m.put(key("b", "k"), CofferValue::Integer(2)).is_ok());
    assert!(matches!(m.get(&key("a", "k")), Some(CofferValue::Integer(1))));
    assert!(matches!(m.get(&key("b", "k")), Some(CofferValue::Integer(2))));
}

#[test]
fn push_creates_missing_shard() {
    let mut m = CofferMap::new();
    m.push(key("fresh", "k"), CofferValue::Integer(9));
    assert!(matches!(m.get(&key("fresh", "k")), Some(CofferValue::Integer(9))));
    assert!(m.get_shard(&"fresh".to_string()).is_some());
}

#[test]
fn get_shard_snapshot() {
    let mut m = CofferMap::new();
    assert!(m.put(key("a", "x"), CofferValue::Integer(1)).is_ok());
    assert!(m.put(key("b", "y"), CofferValue::Integer(2)).is_ok());
    assert!(m.put(key("a", "z"), CofferValue::Boolean(false)).is_ok());
    let CofferShard(pairs) = m.get_shard(&"a".to_string()).expect("shard exists");
    assert_eq!(pairs.len(), 2);
    assert_eq!(pairs[0].0, "x");
    assert!(matches!(pairs[0].1, CofferValue::Integer(1)));
    assert_eq!(pairs[1].0, "z");
    assert!(matches!(pairs[1].1, CofferValue::Boolean(false)));
    assert!(m.get_shard(&"c".to_string()).is_none());
}
