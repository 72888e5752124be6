use coffer::bootstrap::from_toml;
use coffer::certificate::Certificate;
use coffer::coffer::{CofferError, CofferKey, CofferValue};
use coffer::keyring::{Keyring, KeyringError};

fn key(shard: &str, key: &str) -> CofferKey {
    CofferKey { shard: shard.to_string(), key: key.to_string() }
}

const ID_A: &str = "0101010101010101010101010101010101010101010101010101010101010101";
const ID_B: &str = "0202020202020202020202020202020202020202020202020202020202020202";

#[test]
fn loads_flat_shard() {
    let doc = format!(
        "[c1]\nid = \"{}\"\npasswd = \"hunter2\"\nport = 8080\n",
        ID_A
    );
    let store = from_toml(&doc).expect("valid bootstrap");
    let passwd = store.get(&key(ID_A, "passwd")).expect("passwd stored");
    assert!(matches!(passwd, CofferValue::Str(s) if s == "hunter2"));
    let port = store.get(&key(ID_A, "port")).expect("port stored");
    assert!(matches!(port, CofferValue::Integer(8080)));
    assert!(store.get(&key(ID_A, "id")).is_none());
}

#[test]
fn loads_grouped_shards() {
    let doc = format!(
        "[app]\n[app.frontend]\nid = \"{}\"\npassword = \"admin\"\n[app.backend]\nid = \"{}\"\ncors = true\n",
        ID_A, ID_B
    );
    let store = from_toml(&doc).expect("valid bootstrap");
    assert!(matches!(
        store.get(&key(ID_A, "password")),
        Some(CofferValue::Str(s)) if s == "admin"
    ));
    assert!(matches!(store.get(&key(ID_B, "cors")), Some(CofferValue::Boolean(true))));
}

#[test]
fn loads_float_narrowed() {
    let doc = format!("[c1]\nid = \"{}\"\nfont_size = 1.4\n", ID_A);
    let store = from_toml(&doc).expect("valid bootstrap");
    let got = store.get(&key(ID_A, "font_size")).expect("float stored");
    assert!(matches!(got, CofferValue::Float(bits) if bits == (1.4f64 as f32).to_bits()));
}

#[test]
fn duplicate_key_fails_load() {
    // two shards with one id and one overlapping key: the load reports
    // the duplicate instead of silently picking a winner
    let doc = format!(
        "[a]\nid = \"{}\"\nk = \"one\"\n[b]\nid = \"{}\"\nk = \"two\"\n",
        ID_A, ID_A
    );
    assert_eq!(from_toml(&doc).unwrap_err(), CofferError::KeyExists);
}

#[test]
fn nested_shard_rejected() {
    let doc = format!(
        "[app]\nid = \"{}\"\n[app.inner]\nid = \"{}\"\n",
        ID_A, ID_B
    );
    assert_eq!(from_toml(&doc).unwrap_err(), CofferError::Parse);
}

#[test]
fn unsupported_value_rejected() {
    let doc = format!("[c1]\nid = \"{}\"\nlist = [1, 2]\n", ID_A);
    assert_eq!(from_toml(&doc).unwrap_err(), CofferError::Parse);
    let doc = format!("[c1]\nid = \"{}\"\nwhen = 2020-01-01\n", ID_A);
    assert_eq!(from_toml(&doc).unwrap_err(), CofferError::Parse);
}

#[test]
fn out_of_range_integer_rejected() {
    let doc = format!("[c1]\nid = \"{}\"\nbig = 4294967296\n", ID_A);
    assert_eq!(from_toml(&doc).unwrap_err(), CofferError::Parse);
}

#[test]
fn non_table_document_rejected() {
    assert_eq!(from_toml("not = valid = toml").unwrap_err(), CofferError::Parse);
    assert_eq!(from_toml("top = 1"). unwrap_err(), CofferError::Parse);
}

#[test]
fn non_string_id_rejected() {
    let doc = "[c1]\nid = 7\n";
    assert_eq!(from_toml(doc).unwrap_err(), CofferError::Parse);
}

#[test]
fn keyring_learns_bootstrap_ids() {
    let doc = format!(
        "[group]\n[group.a]\nid = \"{}\"\nx = 1\n[group.b]\nid = \"{}\"\n",
        ID_A, ID_B
    );
    let mut ring = Keyring::new(Certificate::new());
    ring.add_known_keys_toml(&doc).expect("valid bootstrap");
    let sealed = ring.seal(&[1u8; 32], b"m").expect("first id registered");
    assert!(!sealed.is_empty());
    assert!(ring.seal(&[2u8; 32], b"m").is_ok());
    assert!(ring.seal(&[3u8; 32], b"m").is_err());
}

#[test]
fn keyring_rejects_bad_ids() {
    let mut ring = Keyring::new(Certificate::new());
    let bad_hex = "[c1]\nid = \"zz\"\n";
    assert_eq!(ring.add_known_keys_toml(bad_hex), Err(KeyringError::Parse));
    let short = "[c1]\nid = \"0101\"\n";
    assert_eq!(ring.add_known_keys_toml(short), Err(KeyringError::InvalidClientKey));
    let not_toml = "this is not toml";
    assert_eq!(ring.add_known_keys_toml(not_toml), Err(KeyringError::Parse));
}

#[test]
fn uppercase_id_normalized_to_lower() {
    // identifiers are normalized to lowercase hex at load, so a lookup
    // by a hex-encoded public key hits whatever case the document used
    let lower = "abababababababababababababababababababababababababababababababab";
    let upper = lower.to_uppercase();
    let doc = format!("[c1]\nid = \"{}\"\nv = 1\n", upper);
    let store = from_toml(&doc).expect("valid bootstrap");
    assert!(store.get(&key(&upper, "v")).is_none());
    assert!(store.get(&key(lower, "v")).is_some());
    let mut ring = Keyring::new(Certificate::new());
    ring.add_known_keys_toml(&doc).expect("valid bootstrap");
    assert!(ring.seal(&[0xabu8; 32], b"m").is_ok());
}

#[test]
fn invalid_hex_id_fails_store_load() {
    let doc = "[c1]\nid = \"nothex\"\nv = 1\n";
    assert_eq!(from_toml(doc).unwrap_err(), CofferError::Parse);
}
