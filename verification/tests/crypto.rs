use coffer::certificate::{Certificate, CertificateError};
use coffer::keyring::{Keyring, KeyringError};

#[test]
fn seal_open_round_trip() {
    let cert = Certificate::new();
    let message = b"the quick brown fox";
    let sealed = cert.seal(message).expect("sealing cannot fail");
    assert_eq!(sealed.len(), message.len() + 48);
    let opened = cert.open(&sealed).expect("own box opens");
    assert_eq!(opened, message);
}

#[test]
fn seal_open_round_trip_empty() {
    let cert = Certificate::new();
    let sealed = cert.seal(b"").expect("sealing cannot fail");
    let opened = cert.open(&sealed).expect("own box opens");
    assert!(opened.is_empty());
}

#[test]
fn wrong_key_does_not_open() {
    let cert = Certificate::new();
    let other = Certificate::new();
    let sealed = cert.seal(b"secret").expect("sealing cannot fail");
    assert_eq!(other.open(&sealed), Err(CertificateError::Crypto));
}

#[test]
fn tampered_box_does_not_open() {
    let cert = Certificate::new();
    let mut sealed = cert.seal(b"secret").expect("sealing cannot fail");
    let last = sealed.len() - 1;
    sealed[last] ^= 0x20;
    assert_eq!(cert.open(&sealed), Err(CertificateError::Crypto));
}

#[test]
fn certificate_cbor_round_trip() {
    let cert = Certificate::new();
    let bytes = cert.to_cbor();
    let loaded = Certificate::new_from_cbor(&bytes).expect("own record loads");
    assert_eq!(loaded.public_key(), cert.public_key());
    assert_eq!(loaded.secret_key(), cert.secret_key());
}

#[test]
fn certificate_cbor_layout() {
    let cert = Certificate::new();
    let bytes = cert.to_cbor();
    assert_eq!(bytes.len(), 92);
    assert_eq!(bytes[0], 0xa2);
    assert_eq!(bytes[1], 0x6a);
    assert_eq!(&bytes[2..12], b"public_key");
    assert_eq!(&bytes[12..14], &[0x58, 0x20]);
    assert_eq!(&bytes[14..46], cert.public_key().as_slice());
    assert_eq!(bytes[46], 0x6b);
    assert_eq!(&bytes[47..58], b"private_key");
    assert_eq!(&bytes[58..60], &[0x58, 0x20]);
    assert_eq!(&bytes[60..92], cert.secret_key().as_slice());
}

#[test]
fn certificate_loads_with_fields_in_either_order() {
    let cert = Certificate::new();
    // write the record with private_key first, as a key-sorting CBOR
    // writer would
    let mut swapped: Vec<u8> = vec![0xa2, 0x6b];
    swapped.extend_from_slice(b"private_key");
    swapped.extend_from_slice(&[0x58, 0x20]);
    swapped.extend_from_slice(&cert.secret_key());
    swapped.push(0x6a);
    swapped.extend_from_slice(b"public_key");
    swapped.extend_from_slice(&[0x58, 0x20]);
    swapped.extend_from_slice(&cert.public_key());
    let loaded = Certificate::new_from_cbor(&swapped).expect("reordered record loads");
    assert_eq!(loaded.public_key(), cert.public_key());
    assert_eq!(loaded.secret_key(), cert.secret_key());
}

#[test]
fn certificate_loads_serde_cbor_sorted_map() {
    // serde_cbor sorts map keys, which puts private_key first
    let cert = Certificate::new();
    let mut map: std::collections::BTreeMap<serde_cbor::Value, serde_cbor::Value> =
        std::collections::BTreeMap::new();
    map.insert(
        serde_cbor::Value::Text("public_key".to_string()),
        serde_cbor::Value::Bytes(cert.public_key()),
    );
    map.insert(
        serde_cbor::Value::Text("private_key".to_string()),
        serde_cbor::Value::Bytes(cert.secret_key()),
    );
    let bytes = serde_cbor::to_vec(&serde_cbor::Value::Map(map)).expect("serde_cbor encodes");
    let loaded = Certificate::new_from_cbor(&bytes).expect("sorted record loads");
    assert_eq!(loaded.public_key(), cert.public_key());
    assert_eq!(loaded.secret_key(), cert.secret_key());
}

#[test]
fn certificate_rejects_wrong_records() {
    let cert = Certificate::new();
    // two fields with one name
    let mut doubled: Vec<u8> = vec![0xa2];
    for _ in 0..2 {
        doubled.push(0x6a);
        doubled.extend_from_slice(b"public_key");
        doubled.extend_from_slice(&[0x58, 0x20]);
        doubled.extend_from_slice(&cert.public_key());
    }
    assert!(Certificate::new_from_cbor(&doubled).is_err());
    // trailing garbage
    let mut long = cert.to_cbor();
    long.push(0);
    assert!(Certificate::new_from_cbor(&long).is_err());
    // truncated record
    let short = &cert.to_cbor()[..91];
    assert!(Certificate::new_from_cbor(short).is_err());
}

#[test]
fn certificate_rejects_garbage() {
    assert!(matches!(
        Certificate::new_from_cbor(b"not cbor at all"),
        Err(CertificateError::Cbor)
    ));
    assert!(matches!(Certificate::new_from_cbor(&[]), Err(CertificateError::Cbor)));
}

#[test]
fn keyring_seal_for_registered_client() {
    let server = Certificate::new();
    let client = Certificate::new();
    let mut ring = Keyring::new(server);
    ring.add_known_key(&client.public_key()).expect("key has key length");
    let sealed = ring.seal(&client.public_key(), b"bundle").expect("client known");
    let opened = client.open(&sealed).expect("client opens its box");
    assert_eq!(opened, b"bundle");
}

#[test]
fn keyring_refuses_unknown_client() {
    let server = Certificate::new();
    let client = Certificate::new();
    let ring = Keyring::new(server);
    assert_eq!(
        ring.seal(&client.public_key(), b"bundle"),
        Err(KeyringError::UnknownClientKey)
    );
}

#[test]
fn keyring_refuses_short_key() {
    let server = Certificate::new();
    let mut ring = Keyring::new(server);
    assert_eq!(ring.add_known_key(&[1, 2, 3]), Err(KeyringError::InvalidClientKey));
}

#[test]
fn keyring_open_delegates_to_certificate() {
    let server = Certificate::new();
    let sealed = server.seal(b"startup secrets").expect("sealing cannot fail");
    let ring = Keyring::new(server);
    assert_eq!(ring.open(&sealed).expect("own box opens"), b"startup secrets");
    assert_eq!(ring.open(b"junk"), Err(KeyringError::Crypto));
}

#[test]
fn library_opens_sodiumoxide_sealed_box() {
    let cert = Certificate::new();
    let pk = sodiumoxide::crypto::box_::PublicKey::from_slice(&cert.public_key()).unwrap();
    let sealed = sodiumoxide::crypto::sealedbox::seal(b"cross check", &pk);
    assert_eq!(cert.open(&sealed).expect("box opens"), b"cross check");
}
