use slotmap::{Key, SerKey, SlotMap};

fn key_to_json(k: Key) -> String {
    let s = k.encode();
    format!("{{\"idx\":{},\"version\":{}}}", s.idx, s.version)
}

fn key_from_json(text: &str) -> Key {
    let v: serde_json::Value = serde_json::from_str(text).unwrap();
    let idx = v["idx"].as_u64().unwrap() as u32;
    let version = v["version"].as_u64().unwrap() as u32;
    Key::decode(SerKey { idx, version })
}

#[test]
fn key_serde() {
    // Check round-trip through a JSON encoding of the serialized record.
    let mut sm = SlotMap::new();
    let k = sm.insert(42);
    let ser = key_to_json(k);
    let de: Key = key_from_json(&ser);
    assert_eq!(k, de);

    // Even if a malicious entity sends up even (unoccupied) versions in the
    // key, we make the version point to the occupied version.
    let malicious = key_from_json(r#"{"idx":0,"version":4}"#);
    assert_eq!(malicious.version, 5);
}

#[test]
fn null_key_invariance() {
    let a = Key::null();
    let b = Key::default();
    assert_eq!(a, b);
    assert!(a.is_null());
    assert_eq!(a.idx, u32::MAX);
    assert_eq!(a.version, 1);

    let sm = SlotMap::<i32>::new();
    assert_eq!(sm.get(Key::null()), None);
    let hm = slotmap::HopSlotMap::<i32>::new();
    assert_eq!(hm.get(Key::null()), None);
}

#[test]
fn decode_hardening() {
    // An even version is forced odd.
    let k = Key::decode(SerKey { idx: 0, version: 4 });
    assert_eq!(k.version, 5);
    assert_eq!(k.idx, 0);
    // An odd version passes through.
    let k2 = Key::decode(SerKey { idx: 7, version: 9 });
    assert_eq!(k2.idx, 7);
    assert_eq!(k2.version, 9);
    // Any record with the reserved index collapses to the canonical null.
    for v in [0u32, 1, 2, 4, 9, u32::MAX] {
        let n = Key::decode(SerKey { idx: u32::MAX, version: v });
        assert_eq!(n, Key::null());
    }
}

#[test]
fn encode_decode_round_trip() {
    let mut sm = SlotMap::new();
    let mut keys = Vec::new();
    for i in 0..5 {
        keys.push(sm.insert(i));
    }
    sm.remove(keys[2]);
    keys.push(sm.insert(99));
    for k in keys {
        assert_eq!(Key::decode(k.encode()), k);
    }
    assert_eq!(Key::decode(Key::null().encode()), Key::null());
}
