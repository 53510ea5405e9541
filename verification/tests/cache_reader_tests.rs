use kafka_view::cache::Cache;
use kafka_view::map::{ReplicaCacheUpdate, LogRecord};
use kafka_view::reader::{ReplicaReader, StreamEvent, EventOutcome};
use kafka_view::types::Wire;
use kafka_view::metadata::BrokerMetrics;
use kafka_view::CacheError;

fn metrics_update(cluster: &str, broker: i32, byte_rate: f64, msg_rate: f64) -> ReplicaCacheUpdate {
    let key = (cluster.to_string(), broker).encode();
    let value = BrokerMetrics {
        topics: vec![("__TOTAL__".to_string(), (byte_rate.to_bits(), msg_rate.to_bits()))],
    };
    ReplicaCacheUpdate::Put { key, payload: value.encode() }
}

#[test]
fn dispatch_reaches_only_the_named_map() {
    let mut cache = Cache::new();
    let r = cache.receive_update("metrics", metrics_update("c1", 7, 1.0, 2.0));
    assert!(r.is_ok());
    assert!(cache.metrics.get(&("c1".to_string(), 7)).is_some());
    assert!(cache.offsets.keys().is_empty());
    assert!(cache.brokers.keys().is_empty());
    assert!(cache.topics.keys().is_empty());
    assert!(cache.groups.keys().is_empty());
}

#[test]
fn unknown_cache_name_is_rejected_and_harmless() {
    let mut cache = Cache::new();
    cache.receive_update("metrics", metrics_update("c1", 7, 1.0, 2.0)).unwrap();
    let r = cache.receive_update("unknown", metrics_update("c1", 8, 3.0, 4.0));
    assert_eq!(r, Err(CacheError::UnknownCacheName));
    // The metric count is unaffected.
    assert_eq!(cache.metrics.keys().len(), 1);
}

#[test]
fn each_named_map_receives_its_updates() {
    let mut cache = Cache::new();
    let offsets_update = ReplicaCacheUpdate::Put {
        key: ("c1".to_string(), "g1".to_string(), "t1".to_string()).encode(),
        payload: vec![5i64].encode(),
    };
    assert!(cache.receive_update("offsets", offsets_update).is_ok());
    assert_eq!(
        cache.offsets.get(&("c1".to_string(), "g1".to_string(), "t1".to_string())),
        Some(vec![5])
    );
}

fn record_event(partition: i32, rec: &LogRecord) -> StreamEvent {
    StreamEvent::Record {
        partition,
        key: Some(rec.key.clone()),
        payload: rec.payload.clone(),
    }
}

#[test]
fn bootstrap_completes_only_after_every_partition_eof() {
    let mut reader = ReplicaReader::new(vec![0, 1, 2]);
    let mut cache = Cache::new();
    assert!(!reader.bootstrap_complete());
    reader.on_event(&mut cache, StreamEvent::PartitionEof { partition: 0 });
    assert!(!reader.bootstrap_complete());
    reader.on_event(&mut cache, StreamEvent::PartitionEof { partition: 2 });
    assert!(!reader.bootstrap_complete());
    // A repeated marker for the same partition changes nothing.
    reader.on_event(&mut cache, StreamEvent::PartitionEof { partition: 2 });
    assert!(!reader.bootstrap_complete());
    reader.on_event(&mut cache, StreamEvent::PartitionEof { partition: 1 });
    assert!(reader.bootstrap_complete());
}

#[test]
fn bootstrap_applies_last_write_per_key() {
    // The log holds (k, v1), (k, v2), (k', w): after replay the receiver
    // maps k to v2 and k' to w.
    let writer_side = Cache::new();
    let k = ("c1".to_string(), "g1".to_string(), "t1".to_string());
    let k2 = ("c1".to_string(), "g2".to_string(), "t1".to_string());
    let r1 = writer_side.offsets.prepare_insert(&k, &vec![1i64]).unwrap();
    let r2 = writer_side.offsets.prepare_insert(&k, &vec![2i64]).unwrap();
    let r3 = writer_side.offsets.prepare_insert(&k2, &vec![9i64]).unwrap();

    let mut reader = ReplicaReader::new(vec![0]);
    let mut cache = Cache::new();
    for rec in [&r1, &r2, &r3] {
        let outcome = reader.on_event(&mut cache, record_event(0, rec));
        assert!(matches!(outcome, EventOutcome::Dispatched(Ok(()))));
    }
    reader.on_event(&mut cache, StreamEvent::PartitionEof { partition: 0 });
    assert!(reader.bootstrap_complete());
    assert_eq!(cache.offsets.get(&k), Some(vec![2]));
    assert_eq!(cache.offsets.get(&k2), Some(vec![9]));
    assert_eq!(cache.offsets.keys().len(), 2);
}

#[test]
fn replica_restart_rebuilds_metrics_from_the_log() {
    // One replica publishes a metrics update; a fresh replica bootstraps
    // from the log and reads the exact value back.
    let writer_side = Cache::new();
    let key = ("c1".to_string(), 7);
    let value = BrokerMetrics {
        topics: vec![("__TOTAL__".to_string(), (1.0f64.to_bits(), 2.0f64.to_bits()))],
    };
    let rec = writer_side.metrics.prepare_insert(&key, &value).unwrap();

    let mut reader = ReplicaReader::new(vec![0, 1, 2]);
    let mut cache = Cache::new();
    reader.on_event(&mut cache, record_event(1, &rec));
    for p in [0, 1, 2] {
        reader.on_event(&mut cache, StreamEvent::PartitionEof { partition: p });
    }
    assert!(reader.bootstrap_complete());
    let got = cache.metrics.get(&key).expect("replicated");
    let rates = got.topic_rates("__TOTAL__").expect("total entry");
    assert_eq!(f64::from_bits(rates.0), 1.0);
    assert_eq!(f64::from_bits(rates.1), 2.0);
}

#[test]
fn a_write_on_one_replica_reaches_the_other_through_the_log() {
    // Replica A inserts a topics entry: it prepares the record, the producer
    // accepts it, and A applies it locally.  The log delivers the same
    // record to replica B, whose read then returns the value.
    let mut replica_a = Cache::new();
    let key = ("c1".to_string(), "t".to_string());
    let p0 = kafka_view::metadata::Partition {
        id: 0,
        leader: 1,
        replicas: vec![1, 2],
        isr: vec![1],
        error: None,
    };
    let rec = replica_a.topics.prepare_insert(&key, &vec![p0]).unwrap();
    let reapply = kafka_view::metadata::Partition {
        id: 0,
        leader: 1,
        replicas: vec![1, 2],
        isr: vec![1],
        error: None,
    };
    replica_a.topics.sync_value_update(key.clone(), vec![reapply]);
    assert!(replica_a.topics.get(&key).is_some());

    let mut reader_b = ReplicaReader::new(vec![0]);
    let mut replica_b = Cache::new();
    let outcome = reader_b.on_event(&mut replica_b, record_event(0, &rec));
    assert!(matches!(outcome, EventOutcome::Dispatched(Ok(()))));
    let got = replica_b.topics.get(&key).expect("replicated to B");
    assert_eq!(got.len(), 1);
    assert_eq!(got[0].id, 0);
    assert_eq!(got[0].leader, 1);
    assert_eq!(got[0].replicas, vec![1, 2]);
    assert_eq!(got[0].isr, vec![1]);
    assert_eq!(got[0].error, None);
}

#[test]
fn one_bad_record_does_not_abort_bootstrap() {
    // A record whose wrapped key does not decode sits between valid records;
    // bootstrap still completes and applies the valid ones.
    let writer_side = Cache::new();
    let k = ("c1".to_string(), "g1".to_string(), "t1".to_string());
    let k2 = ("c1".to_string(), "g2".to_string(), "t2".to_string());
    let r1 = writer_side.offsets.prepare_insert(&k, &vec![1i64]).unwrap();
    let r2 = writer_side.offsets.prepare_insert(&k2, &vec![2i64]).unwrap();

    let mut reader = ReplicaReader::new(vec![0]);
    let mut cache = Cache::new();
    reader.on_event(&mut cache, record_event(0, &r1));
    let bad = StreamEvent::Record { partition: 0, key: Some(vec![0xDE, 0xAD]), payload: None };
    assert!(matches!(reader.on_event(&mut cache, bad), EventOutcome::BadRecord));
    let keyless = StreamEvent::Record { partition: 0, key: None, payload: None };
    assert!(matches!(reader.on_event(&mut cache, keyless), EventOutcome::BadRecord));
    reader.on_event(&mut cache, record_event(0, &r2));
    reader.on_event(&mut cache, StreamEvent::PartitionEof { partition: 0 });
    assert!(reader.bootstrap_complete());
    assert_eq!(cache.offsets.get(&k), Some(vec![1]));
    assert_eq!(cache.offsets.get(&k2), Some(vec![2]));
}

#[test]
fn unknown_cache_name_on_the_log_is_skipped() {
    // Both replicas keep operating when a record bears an unknown name.
    let key_bytes = "k".to_string().encode();
    let physical = kafka_view::codec::encode_wrapped_key("unknown", key_bytes.as_slice());
    let ev = StreamEvent::Record {
        partition: 0,
        key: Some(physical),
        payload: Some(vec![1i64].encode()),
    };
    let mut reader_a = ReplicaReader::new(vec![0]);
    let mut cache_a = Cache::new();
    let mut reader_b = ReplicaReader::new(vec![0]);
    let mut cache_b = Cache::new();
    cache_a.receive_update("metrics", metrics_update_local()).unwrap();
    cache_b.receive_update("metrics", metrics_update_local()).unwrap();
    let oa = reader_a.on_event(&mut cache_a, clone_event(&ev));
    let ob = reader_b.on_event(&mut cache_b, ev);
    assert!(matches!(oa, EventOutcome::Dispatched(Err(CacheError::UnknownCacheName))));
    assert!(matches!(ob, EventOutcome::Dispatched(Err(CacheError::UnknownCacheName))));
    // The metric count endpoint is unaffected on both replicas.
    assert_eq!(cache_a.metrics.keys().len(), 1);
    assert_eq!(cache_b.metrics.keys().len(), 1);
}

fn metrics_update_local() -> ReplicaCacheUpdate {
    metrics_update("c1", 1, 5.0, 6.0)
}

fn clone_event(ev: &StreamEvent) -> StreamEvent {
    match ev {
        StreamEvent::Record { partition, key, payload } => StreamEvent::Record {
            partition: *partition,
            key: key.clone(),
            payload: payload.clone(),
        },
        StreamEvent::PartitionEof { partition } => {
            StreamEvent::PartitionEof { partition: *partition }
        },
        StreamEvent::StreamError => StreamEvent::StreamError,
    }
}

#[test]
fn stream_errors_are_skipped() {
    let mut reader = ReplicaReader::new(vec![0]);
    let mut cache = Cache::new();
    assert!(matches!(
        reader.on_event(&mut cache, StreamEvent::StreamError),
        EventOutcome::Skipped
    ));
    assert!(!reader.bootstrap_complete());
}

#[test]
fn tombstone_from_the_log_removes_the_key() {
    let writer_side = Cache::new();
    let k = ("c1".to_string(), "g1".to_string(), "t1".to_string());
    let rec = writer_side.offsets.prepare_insert(&k, &vec![1i64]).unwrap();
    let mut reader = ReplicaReader::new(vec![0]);
    let mut cache = Cache::new();
    reader.on_event(&mut cache, record_event(0, &rec));
    assert_eq!(cache.offsets.get(&k), Some(vec![1]));
    let tombstone = StreamEvent::Record { partition: 0, key: Some(rec.key.clone()), payload: None };
    let outcome = reader.on_event(&mut cache, tombstone);
    assert!(matches!(outcome, EventOutcome::Dispatched(Ok(()))));
    assert_eq!(cache.offsets.get(&k), None);
}
