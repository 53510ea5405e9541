use kafka_view::offsets::{
    i64_to_dec_string, watermark_tasks, lag_rows, OffsetsEntry, WatermarkResult,
};

fn entry(cluster: &str, group: &str, topic: &str, offsets: Vec<i64>) -> OffsetsEntry {
    ((cluster.to_string(), group.to_string(), topic.to_string()), offsets)
}

#[test]
fn decimal_rendering() {
    assert_eq!(i64_to_dec_string(0), "0");
    assert_eq!(i64_to_dec_string(7), "7");
    assert_eq!(i64_to_dec_string(50), "50");
    assert_eq!(i64_to_dec_string(-1), "-1");
    assert_eq!(i64_to_dec_string(1234567890), "1234567890");
    assert_eq!(i64_to_dec_string(i64::MAX), "9223372036854775807");
    assert_eq!(i64_to_dec_string(i64::MIN), "-9223372036854775808");
}

#[test]
fn tasks_cover_every_partition_of_every_entry() {
    let offsets = vec![
        entry("c1", "g1", "t1", vec![100, 200]),
        entry("c1", "g1", "t2", vec![5]),
    ];
    let tasks = watermark_tasks(&offsets);
    assert_eq!(
        tasks,
        vec![
            ("t1".to_string(), 0),
            ("t1".to_string(), 1),
            ("t2".to_string(), 0),
        ]
    );
}

#[test]
fn lag_rows_report_watermarks_offsets_and_lag() {
    // The offsets cache maps (c1, g1, t1) to [100, 200]; partition zero's
    // watermark query answers (10, 150) and partition one's fails.
    let offsets = vec![entry("c1", "g1", "t1", vec![100, 200])];
    let wms: Vec<WatermarkResult> = vec![
        (("t1".to_string(), 0), Some((10, 150))),
        (("t1".to_string(), 1), None),
    ];
    let rows = lag_rows(&offsets, &wms);
    assert_eq!(rows.len(), 2);
    assert_eq!(rows[0].topic, "t1");
    assert_eq!(rows[0].partition, 0);
    assert_eq!(rows[0].low, 10);
    assert_eq!(rows[0].high, 150);
    assert_eq!(rows[0].offset, 100);
    assert_eq!(rows[0].lag_display, "50");
    assert_eq!(rows[1].topic, "t1");
    assert_eq!(rows[1].partition, 1);
    assert_eq!(rows[1].low, -1);
    assert_eq!(rows[1].high, -1);
    assert_eq!(rows[1].offset, 200);
    assert_eq!(rows[1].lag_display, "-1");
}

#[test]
fn empty_topic_and_out_of_retention_are_reported() {
    let offsets = vec![entry("c1", "g1", "t1", vec![0, 50])];
    let wms: Vec<WatermarkResult> = vec![
        (("t1".to_string(), 0), Some((0, 0))),
        (("t1".to_string(), 1), Some((80, 120))),
    ];
    let rows = lag_rows(&offsets, &wms);
    assert_eq!(rows[0].lag_display, "Empty topic");
    assert_eq!(rows[1].lag_display, "Out of retention");
}

#[test]
fn lag_rows_without_watermarks_still_list_offsets() {
    let offsets = vec![entry("c1", "g1", "t1", vec![3])];
    let rows = lag_rows(&offsets, &Vec::new());
    assert_eq!(rows.len(), 1);
    assert_eq!(rows[0].low, -1);
    assert_eq!(rows[0].high, -1);
    assert_eq!(rows[0].offset, 3);
    assert_eq!(rows[0].lag_display, "-1");
}
