use kafka_view::map::{ReplicatedMap, ReplicaCacheUpdate, MAX_MESSAGE_BYTES};
use kafka_view::types::Wire;
use kafka_view::codec::decode_wrapped_key;
use kafka_view::CacheError;

fn offsets_map() -> ReplicatedMap<(String, String, String), Vec<i64>> {
    ReplicatedMap::new("offsets")
}

fn key(c: &str, g: &str, t: &str) -> (String, String, String) {
    (c.to_string(), g.to_string(), t.to_string())
}

#[test]
fn map_name_is_kept() {
    let m = offsets_map();
    assert_eq!(m.name(), "offsets");
}

#[test]
fn get_on_empty_map_is_none() {
    let m = offsets_map();
    assert_eq!(m.get(&key("c1", "g1", "t1")), None);
}

#[test]
fn write_through_visibility() {
    // A locally applied insert is readable at once, with no log round trip.
    let mut m = offsets_map();
    m.sync_value_update(key("c1", "g1", "t1"), vec![100, 200]);
    assert_eq!(m.get(&key("c1", "g1", "t1")), Some(vec![100, 200]));
    assert_eq!(m.get(&key("c1", "g1", "t2")), None);
}

#[test]
fn later_write_wins_and_reapply_is_idempotent() {
    let mut m = offsets_map();
    m.sync_value_update(key("c1", "g1", "t1"), vec![1]);
    m.sync_value_update(key("c1", "g1", "t1"), vec![2]);
    assert_eq!(m.get(&key("c1", "g1", "t1")), Some(vec![2]));
    // The log delivers the same update back: applying it again changes nothing.
    m.sync_value_update(key("c1", "g1", "t1"), vec![2]);
    assert_eq!(m.get(&key("c1", "g1", "t1")), Some(vec![2]));
    assert_eq!(m.keys().len(), 1);
}

#[test]
fn delete_removes_the_key() {
    let mut m = offsets_map();
    m.sync_value_update(key("c1", "g1", "t1"), vec![1]);
    m.sync_value_delete(key("c1", "g1", "t1"));
    assert_eq!(m.get(&key("c1", "g1", "t1")), None);
    // Deleting an absent key is harmless.
    m.sync_value_delete(key("c1", "g1", "t1"));
    assert_eq!(m.keys().len(), 0);
}

#[test]
fn receive_update_applies_encoded_set() {
    let mut m = offsets_map();
    let k = key("c1", "g1", "t1");
    let update = ReplicaCacheUpdate::Put { key: k.encode(), payload: vec![7i64, 8].encode() };
    assert!(m.receive_update(update).is_ok());
    assert_eq!(m.get(&k), Some(vec![7, 8]));
}

#[test]
fn receive_update_applies_tombstone() {
    let mut m = offsets_map();
    let k = key("c1", "g1", "t1");
    m.sync_value_update(k.clone(), vec![1]);
    let update = ReplicaCacheUpdate::Delete { key: k.encode() };
    assert!(m.receive_update(update).is_ok());
    assert_eq!(m.get(&k), None);
}

#[test]
fn receive_update_rejects_undecodable_bytes() {
    let mut m = offsets_map();
    m.sync_value_update(key("c1", "g1", "t1"), vec![1]);
    let bad_key = ReplicaCacheUpdate::Put { key: vec![9, 9], payload: vec![1i64].encode() };
    assert_eq!(m.receive_update(bad_key), Err(CacheError::DecodeError));
    let bad_payload = ReplicaCacheUpdate::Put {
        key: key("c1", "g1", "t1").encode(),
        payload: vec![9, 9],
    };
    assert_eq!(m.receive_update(bad_payload), Err(CacheError::DecodeError));
    // Nothing changed.
    assert_eq!(m.get(&key("c1", "g1", "t1")), Some(vec![1]));
    assert_eq!(m.keys().len(), 1);
}

#[test]
fn prepare_insert_builds_the_log_record() {
    let m = offsets_map();
    let k = key("c1", "g1", "t1");
    let rec = m.prepare_insert(&k, &vec![100i64, 200]).expect("fits");
    let wrapped = decode_wrapped_key(rec.key.as_slice()).expect("decodes");
    assert_eq!(wrapped.cache_name(), "offsets");
    assert_eq!(wrapped.serialized_key(), k.encode().as_slice());
    let payload = rec.payload.expect("a set, not a tombstone");
    assert_eq!(<Vec<i64> as Wire>::decode(payload.as_slice()), Some(vec![100, 200]));
}

#[test]
fn prepare_insert_rejects_oversize_records() {
    let m: ReplicatedMap<String, Vec<i64>> = ReplicatedMap::new("offsets");
    let big = vec![0i64; MAX_MESSAGE_BYTES / 8];
    match m.prepare_insert(&"k".to_string(), &big) {
        Err(e) => assert_eq!(e, CacheError::ProduceError),
        Ok(_) => panic!("an oversize record must be rejected"),
    }
    assert!(m.prepare_insert(&"k".to_string(), &vec![1i64]).is_ok());
}

#[test]
fn keys_and_items_list_every_entry() {
    let mut m = offsets_map();
    m.sync_value_update(key("c1", "g1", "t1"), vec![1]);
    m.sync_value_update(key("c1", "g2", "t2"), vec![2]);
    let mut keys = m.keys();
    keys.sort();
    assert_eq!(keys, vec![key("c1", "g1", "t1"), key("c1", "g2", "t2")]);
    let items = m.items();
    assert_eq!(items.len(), 2);
    for (k, v) in items {
        assert_eq!(m.get(&k), Some(v));
    }
}
