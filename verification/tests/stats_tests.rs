use libsql_wal::stats::{
    saturating_add, QueriesStats, QueryStats, SlowestQuery, Stats, StatsUpdateMessage, TopQuery,
};

#[test]
fn top_query_weight_is_rows_read_plus_written() {
    let q = TopQuery::new("select 1".to_string(), 3, 4);
    assert_eq!(q.weight, 7);
    assert_eq!(q.rows_read, 3);
    assert_eq!(q.rows_written, 4);
    assert_eq!(q.query, "select 1");
}

#[test]
fn slowest_query_new_keeps_fields() {
    let q = SlowestQuery::new("select 2".to_string(), 17, 1, 2);
    assert_eq!(q.elapsed_ms, 17);
    assert_eq!(q.query, "select 2");
    assert_eq!(q.rows_read, 1);
    assert_eq!(q.rows_written, 2);
}

#[test]
fn query_stats_new_and_merge() {
    let a = QueryStats::new(10, 2, 3);
    assert_eq!(a.count, 1);
    let b = QueryStats::new(5, 1, 1);
    let m = a.merge(&b);
    assert_eq!(m.elapsed_ms, 15);
    assert_eq!(m.count, 2);
    assert_eq!(m.rows_read, 3);
    assert_eq!(m.rows_written, 4);
}

#[test]
fn saturating_add_caps() {
    assert_eq!(saturating_add(1, 2), 3);
    assert_eq!(saturating_add(u64::MAX, 1), u64::MAX);
    assert_eq!(saturating_add(u64::MAX - 1, 1), u64::MAX);
}

#[test]
fn register_query_aggregates_per_sql() {
    let mut qs = QueriesStats::new();
    qs.register_query(&"a".to_string(), QueryStats::new(10, 1, 0));
    qs.register_query(&"a".to_string(), QueryStats::new(20, 2, 0));
    let got = qs.get(&"a".to_string()).unwrap();
    assert_eq!(got.elapsed_ms, 30);
    assert_eq!(got.count, 2);
    assert_eq!(got.rows_read, 3);
}

#[test]
fn register_query_evicts_past_cap_and_raises_threshold() {
    let mut qs = QueriesStats::new();
    for i in 0..30u64 {
        // elapsed times 1..=30
        qs.register_query(&format!("q{}", i), QueryStats::new(i + 1, 0, 0));
    }
    assert_eq!(qs.stats().len(), 30);
    qs.register_query(&"big".to_string(), QueryStats::new(100, 0, 0));
    // the smallest aggregate fell out and the threshold rose
    assert_eq!(qs.stats().len(), 30);
    assert!(qs.get(&"q0".to_string()).is_none());
    assert!(qs.get(&"big".to_string()).is_some());
    assert_eq!(qs.stats_threshold, 2);
    // an aggregate below the threshold is dropped outright
    qs.register_query(&"tiny".to_string(), QueryStats::new(1, 0, 0));
    assert!(qs.get(&"tiny".to_string()).is_none());
}

#[test]
fn update_counts_rows_and_queries() {
    let mut s = Stats::new("ns".to_string());
    s.update(StatsUpdateMessage {
        sql: "select 3".to_string(),
        elapsed_ms: 7,
        rows_read: 5,
        rows_written: 2,
        mem_used: 0,
    });
    assert_eq!(s.rows_read(), 5);
    assert_eq!(s.rows_written(), 2);
    assert_eq!(s.get_query_count(), 1);
    assert_eq!(s.get_query_latency(), 7);
    // a statement that touched nothing counts as one row read
    s.update(StatsUpdateMessage {
        sql: "select 4".to_string(),
        elapsed_ms: 1,
        rows_read: 0,
        rows_written: 0,
        mem_used: 0,
    });
    assert_eq!(s.rows_read(), 6);
    assert_eq!(s.get_query_count(), 2);
}

#[test]
fn top_queries_keep_the_heaviest_ten() {
    let mut s = Stats::new("ns".to_string());
    for i in 0..12u64 {
        s.update(StatsUpdateMessage {
            sql: format!("q{}", i),
            elapsed_ms: 1,
            rows_read: i + 1,
            rows_written: 0,
            mem_used: 0,
        });
    }
    assert_eq!(s.top_queries().len(), 10);
    // sorted lightest first, so the two lightest fell out
    assert_eq!(s.top_queries()[0].weight, 3);
    assert_eq!(s.top_queries()[9].weight, 12);
    assert_eq!(s.top_query_threshold, 3);
    assert!(s.qualifies_as_top_query(3));
    assert!(!s.qualifies_as_top_query(2));
    s.reset_top_queries();
    assert_eq!(s.top_queries().len(), 0);
    assert_eq!(s.top_query_threshold, 0);
}

#[test]
fn slowest_queries_keep_the_slowest_ten() {
    let mut s = Stats::new("ns".to_string());
    for i in 0..11u64 {
        s.update(StatsUpdateMessage {
            sql: format!("q{}", i),
            elapsed_ms: 10 * (i + 1),
            rows_read: 1,
            rows_written: 0,
            mem_used: 0,
        });
    }
    assert_eq!(s.slowest_queries().len(), 10);
    assert_eq!(s.slowest_queries()[0].elapsed_ms, 20);
    assert_eq!(s.slowest_queries()[9].elapsed_ms, 110);
    assert_eq!(s.slowest_query_threshold, 20);
    s.reset_slowest_queries();
    assert_eq!(s.slowest_query_threshold, 0);
}

#[test]
fn counters_and_gauges() {
    let mut s = Stats::new("ns".to_string());
    s.inc_write_requests_delegated();
    s.inc_write_requests_delegated();
    assert_eq!(s.write_requests_delegated(), 2);
    s.inc_embedded_replica_frames_replicated();
    assert_eq!(s.get_embedded_replica_frames_replicated(), 1);
    s.set_storage_bytes_used(4096);
    assert_eq!(s.storage_bytes_used(), 4096);
    s.set_current_frame_no(99);
    assert_eq!(s.get_current_frame_no(), 99);
}
