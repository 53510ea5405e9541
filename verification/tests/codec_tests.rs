use kafka_view::codec::{encode_wrapped_key, decode_wrapped_key};
use kafka_view::types::Wire;
use kafka_view::metadata::{Broker, Partition, Group, GroupMember, BrokerMetrics};

#[test]
fn wrapped_key_round_trip() {
    let user_key = ("c1".to_string(), 7i32).encode();
    let physical = encode_wrapped_key("metrics", user_key.as_slice());
    let back = decode_wrapped_key(physical.as_slice()).expect("decodes");
    assert_eq!(back.cache_name(), "metrics");
    assert_eq!(back.serialized_key(), user_key.as_slice());
}

#[test]
fn wrapped_key_encoding_is_deterministic() {
    let user_key = ("c1".to_string(), "t".to_string()).encode();
    let a = encode_wrapped_key("topics", user_key.as_slice());
    let b = encode_wrapped_key("topics", user_key.as_slice());
    assert_eq!(a, b);
}

#[test]
fn distinct_cache_names_never_collide() {
    let user_key = "k".to_string().encode();
    let a = encode_wrapped_key("metrics", user_key.as_slice());
    let b = encode_wrapped_key("offsets", user_key.as_slice());
    assert_ne!(a, b);
}

#[test]
fn wrapped_key_rejects_truncation_and_garbage() {
    let user_key = "k".to_string().encode();
    let physical = encode_wrapped_key("brokers", user_key.as_slice());
    assert!(decode_wrapped_key(&physical[..physical.len() - 1]).is_none());
    let mut extended = physical.clone();
    extended.push(0);
    assert!(decode_wrapped_key(extended.as_slice()).is_none());
    assert!(decode_wrapped_key(&[1, 2, 3]).is_none());
}

#[test]
fn scalar_round_trips() {
    for n in [0i64, 1, -1, 42, -42, i64::MAX, i64::MIN] {
        let bytes = n.encode();
        assert_eq!(<i64 as Wire>::decode(bytes.as_slice()), Some(n));
    }
    for n in [0i32, 5, -5, i32::MAX, i32::MIN] {
        let bytes = n.encode();
        assert_eq!(<i32 as Wire>::decode(bytes.as_slice()), Some(n));
    }
    for n in [0u64, 9, u64::MAX] {
        let bytes = n.encode();
        assert_eq!(<u64 as Wire>::decode(bytes.as_slice()), Some(n));
    }
}

#[test]
fn string_round_trip() {
    for s in ["", "abc", "uns\u{e4}gliche T\u{f6}pfe", "\u{1f600}"] {
        let owned = s.to_string();
        let bytes = owned.encode();
        assert_eq!(<String as Wire>::decode(bytes.as_slice()), Some(owned));
    }
}

#[test]
fn string_decode_rejects_invalid_utf8() {
    // A length prefix of one, then an invalid continuation byte.
    let mut bytes = vec![1u8, 0, 0, 0, 0, 0, 0, 0];
    bytes.push(0xFF);
    assert!(<String as Wire>::decode(bytes.as_slice()).is_none());
}

#[test]
fn vec_round_trip() {
    let v: Vec<i64> = vec![100, 200, -3];
    let bytes = v.encode();
    assert_eq!(<Vec<i64> as Wire>::decode(bytes.as_slice()), Some(v));
    let empty: Vec<i64> = Vec::new();
    let bytes = empty.encode();
    assert_eq!(<Vec<i64> as Wire>::decode(bytes.as_slice()), Some(empty));
}

#[test]
fn vec_decode_rejects_trailing_bytes() {
    let v: Vec<i64> = vec![1, 2];
    let mut bytes = v.encode();
    bytes.push(0);
    assert!(<Vec<i64> as Wire>::decode(bytes.as_slice()).is_none());
}

#[test]
fn broker_round_trip() {
    let b = Broker { id: 3, hostname: "kafka-3.internal".to_string() };
    let bytes = b.encode();
    let back = <Broker as Wire>::decode(bytes.as_slice()).expect("decodes");
    assert_eq!(back.id, 3);
    assert_eq!(back.hostname, "kafka-3.internal");
}

#[test]
fn partition_round_trip() {
    let p = Partition {
        id: 0,
        leader: 2,
        replicas: vec![2, 1, 3],
        isr: vec![2, 1],
        error: Some("under-replicated".to_string()),
    };
    let bytes = p.encode();
    let back = <Partition as Wire>::decode(bytes.as_slice()).expect("decodes");
    assert_eq!(back.id, 0);
    assert_eq!(back.leader, 2);
    assert_eq!(back.replicas, vec![2, 1, 3]);
    assert_eq!(back.isr, vec![2, 1]);
    assert_eq!(back.error, Some("under-replicated".to_string()));
}

#[test]
fn group_round_trip() {
    let g = Group {
        name: "g1".to_string(),
        state: "Stable".to_string(),
        members: vec![GroupMember {
            id: "m1".to_string(),
            client_id: "c".to_string(),
            client_host: "/10.0.0.1".to_string(),
        }],
    };
    let bytes = g.encode();
    let back = <Group as Wire>::decode(bytes.as_slice()).expect("decodes");
    assert_eq!(back.name, "g1");
    assert_eq!(back.state, "Stable");
    assert_eq!(back.members.len(), 1);
    assert_eq!(back.members[0].id, "m1");
    assert_eq!(back.members[0].client_host, "/10.0.0.1");
}

#[test]
fn broker_metrics_round_trip_with_rate_bits() {
    let m = BrokerMetrics {
        topics: vec![
            ("__TOTAL__".to_string(), (1.0f64.to_bits(), 2.0f64.to_bits())),
            ("t1".to_string(), (0.5f64.to_bits(), 100.25f64.to_bits())),
        ],
    };
    let bytes = m.encode();
    let back = <BrokerMetrics as Wire>::decode(bytes.as_slice()).expect("decodes");
    assert_eq!(back.topics.len(), 2);
    let total = back.topic_rates("__TOTAL__").expect("present");
    assert_eq!(f64::from_bits(total.0), 1.0);
    assert_eq!(f64::from_bits(total.1), 2.0);
    let t1 = back.topic_rates("t1").expect("present");
    assert_eq!(f64::from_bits(t1.1), 100.25);
    assert!(back.topic_rates("absent").is_none());
}

#[test]
fn tuple_keys_round_trip() {
    let k = ("cluster".to_string(), "group".to_string(), "topic".to_string());
    let bytes = k.encode();
    let back = <(String, String, String) as Wire>::decode(bytes.as_slice()).expect("decodes");
    assert_eq!(back, k);
    let k2 = ("cluster".to_string(), 9i32);
    let bytes2 = k2.encode();
    assert_eq!(<(String, i32) as Wire>::decode(bytes2.as_slice()), Some(k2));
}
