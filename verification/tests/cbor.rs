use std::collections::BTreeMap;

use coffer::cbor::{shard_from_cbor, shard_to_cbor};
use coffer::coffer::{CofferShard, CofferValue};
use coffer::floatbits::f32_narrow;

fn sample_shard() -> CofferShard {
    CofferShard(vec![
        ("passwd".to_string(), CofferValue::Str("hunter2".to_string())),
        ("port".to_string(), CofferValue::Integer(8080)),
        ("debt".to_string(), CofferValue::Integer(-5)),
        ("ratio".to_string(), CofferValue::Float(0.1f32.to_bits())),
        ("cors".to_string(), CofferValue::Boolean(true)),
    ])
}

fn tagged(tag: &str, v: serde_cbor::Value) -> serde_cbor::Value {
    let mut m: BTreeMap<serde_cbor::Value, serde_cbor::Value> = BTreeMap::new();
    m.insert(serde_cbor::Value::Text(tag.to_string()), v);
    serde_cbor::Value::Map(m)
}

fn sample_value() -> serde_cbor::Value {
    serde_cbor::Value::Array(vec![
        serde_cbor::Value::Array(vec![
            serde_cbor::Value::Text("passwd".to_string()),
            tagged("String", serde_cbor::Value::Text("hunter2".to_string())),
        ]),
        serde_cbor::Value::Array(vec![
            serde_cbor::Value::Text("port".to_string()),
            tagged("Integer", serde_cbor::Value::Integer(8080)),
        ]),
        serde_cbor::Value::Array(vec![
            serde_cbor::Value::Text("debt".to_string()),
            tagged("Integer", serde_cbor::Value::Integer(-5)),
        ]),
        serde_cbor::Value::Array(vec![
            serde_cbor::Value::Text("ratio".to_string()),
            tagged("Float", serde_cbor::Value::Float(0.1f32 as f64)),
        ]),
        serde_cbor::Value::Array(vec![
            serde_cbor::Value::Text("cors".to_string()),
            tagged("Boolean", serde_cbor::Value::Bool(true)),
        ]),
    ])
}

#[test]
fn shard_encoding_matches_serde_cbor() {
    let ours = shard_to_cbor(&sample_shard());
    let theirs = serde_cbor::to_vec(&sample_value()).expect("serde_cbor encodes");
    assert_eq!(ours, theirs);
}

#[test]
fn shard_round_trip() {
    let bytes = shard_to_cbor(&sample_shard());
    let CofferShard(pairs) = shard_from_cbor(&bytes).expect("own encoding decodes");
    assert_eq!(pairs.len(), 5);
    assert_eq!(pairs[0].0, "passwd");
    assert!(matches!(&pairs[0].1, CofferValue::Str(s) if s == "hunter2"));
    assert!(matches!(pairs[1].1, CofferValue::Integer(8080)));
    assert!(matches!(pairs[2].1, CofferValue::Integer(-5)));
    assert!(matches!(pairs[3].1, CofferValue::Float(bits) if bits == 0.1f32.to_bits()));
    assert!(matches!(pairs[4].1, CofferValue::Boolean(true)));
}

#[test]
fn empty_shard_round_trip() {
    let bytes = shard_to_cbor(&CofferShard(Vec::new()));
    assert_eq!(bytes, vec![0x80]);
    let CofferShard(pairs) = shard_from_cbor(&bytes).expect("empty shard decodes");
    assert!(pairs.is_empty());
}

#[test]
fn serde_cbor_reads_our_encoding() {
    let bytes = shard_to_cbor(&sample_shard());
    let value: serde_cbor::Value = serde_cbor::from_slice(&bytes).expect("valid CBOR");
    assert_eq!(value, sample_value());
}

#[test]
fn decoder_rejects_junk() {
    assert!(shard_from_cbor(b"").is_none());
    assert!(shard_from_cbor(b"\xa1").is_none());
    assert!(shard_from_cbor(b"\x81\x00").is_none());
    let mut bytes = shard_to_cbor(&sample_shard());
    bytes.push(0);
    assert!(shard_from_cbor(&bytes).is_none());
}

#[test]
fn integer_extremes_round_trip() {
    let shard = CofferShard(vec![
        ("lo".to_string(), CofferValue::Integer(i32::MIN)),
        ("hi".to_string(), CofferValue::Integer(i32::MAX)),
        ("z".to_string(), CofferValue::Integer(0)),
        ("m".to_string(), CofferValue::Integer(-1)),
    ]);
    let bytes = shard_to_cbor(&shard);
    let decoded = shard_from_cbor(&bytes).expect("own encoding decodes");
    assert_eq!(decoded, shard);
    let theirs = serde_cbor::to_vec(&serde_cbor::Value::Array(vec![
        serde_cbor::Value::Array(vec![
            serde_cbor::Value::Text("lo".to_string()),
            tagged("Integer", serde_cbor::Value::Integer(i32::MIN as i128)),
        ]),
        serde_cbor::Value::Array(vec![
            serde_cbor::Value::Text("hi".to_string()),
            tagged("Integer", serde_cbor::Value::Integer(i32::MAX as i128)),
        ]),
        serde_cbor::Value::Array(vec![
            serde_cbor::Value::Text("z".to_string()),
            tagged("Integer", serde_cbor::Value::Integer(0)),
        ]),
        serde_cbor::Value::Array(vec![
            serde_cbor::Value::Text("m".to_string()),
            tagged("Integer", serde_cbor::Value::Integer(-1)),
        ]),
    ]))
    .expect("serde_cbor encodes");
    assert_eq!(bytes, theirs);
}

#[test]
fn wide_heads_round_trip() {
    // enough entries for a two-byte array head, and a long text value
    let mut pairs: Vec<(String, CofferValue)> = Vec::new();
    for i in 0..300 {
        pairs.push((format!("key{:03}", i), CofferValue::Integer(i)));
    }
    pairs.push(("long".to_string(), CofferValue::Str("x".repeat(70_000))));
    let shard = CofferShard(pairs);
    let bytes = shard_to_cbor(&shard);
    let decoded = shard_from_cbor(&bytes).expect("own encoding decodes");
    assert_eq!(decoded, shard);
}

#[test]
fn narrowing_matches_hardware() {
    let samples: [f64; 12] = [
        0.0,
        -0.0,
        1.0,
        1.5,
        0.1,
        -2.75,
        8080.125,
        3.5e38,
        -3.5e38,
        1.0e-40,
        1.0e-50,
        123456789.123456789,
    ];
    for v in samples {
        assert_eq!(
            f32_narrow(v.to_bits()),
            (v as f32).to_bits(),
            "narrowing differs for {}",
            v
        );
    }
    assert_eq!(f32_narrow(f64::INFINITY.to_bits()), f32::INFINITY.to_bits());
    assert_eq!(f32_narrow(f64::NEG_INFINITY.to_bits()), f32::NEG_INFINITY.to_bits());
    assert!(f32::from_bits(f32_narrow(f64::NAN.to_bits())).is_nan());
}
