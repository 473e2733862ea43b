use rucho::metrics::{Metrics, StatKind, TimeBucket};

#[test]
fn test_new_metrics_are_zero() {
    let metrics = Metrics::new();
    assert_eq!(metrics.get_total_requests(), 0);
    assert_eq!(metrics.get_total_successes(), 0);
    assert_eq!(metrics.get_total_failures(), 0);
    assert!(metrics.get_endpoint_hits().is_empty());
}

#[test]
fn test_record_success_request() {
    let mut metrics = Metrics::new();
    metrics.record_request("/get", 200);

    assert_eq!(metrics.get_total_requests(), 1);
    assert_eq!(metrics.get_total_successes(), 1);
    assert_eq!(metrics.get_total_failures(), 0);
    assert_eq!(metrics.get_endpoint_hits().get("/get"), Some(1));
}

#[test]
fn test_record_failure_request() {
    let mut metrics = Metrics::new();
    metrics.record_request("/post", 500);

    assert_eq!(metrics.get_total_requests(), 1);
    assert_eq!(metrics.get_total_successes(), 0);
    assert_eq!(metrics.get_total_failures(), 1);
    assert_eq!(metrics.get_endpoint_hits().get("/post"), Some(1));
}

#[test]
fn test_record_client_error() {
    let mut metrics = Metrics::new();
    metrics.record_request("/invalid", 404);

    assert_eq!(metrics.get_total_requests(), 1);
    assert_eq!(metrics.get_total_successes(), 0);
    assert_eq!(metrics.get_total_failures(), 1);
}

#[test]
fn test_multiple_endpoints() {
    let mut metrics = Metrics::new();
    metrics.record_request("/get", 200);
    metrics.record_request("/get", 200);
    metrics.record_request("/post", 201);
    metrics.record_request("/delete", 500);

    assert_eq!(metrics.get_total_requests(), 4);
    assert_eq!(metrics.get_total_successes(), 3);
    assert_eq!(metrics.get_total_failures(), 1);

    let hits = metrics.get_endpoint_hits();
    assert_eq!(hits.get("/get"), Some(2));
    assert_eq!(hits.get("/post"), Some(1));
    assert_eq!(hits.get("/delete"), Some(1));
}

#[test]
fn test_snapshot_structure() {
    let mut metrics = Metrics::new();
    metrics.record_request("/get", 200);
    metrics.record_request("/post", 500);

    let snapshot = metrics.snapshot();
    assert_eq!(snapshot.all_time.total_requests, 2);
    assert_eq!(snapshot.all_time.successes, 1);
    assert_eq!(snapshot.all_time.failures, 1);
}

#[test]
fn test_3xx_is_neither_success_nor_failure() {
    let mut metrics = Metrics::new();
    metrics.record_request("/redirect", 301);

    assert_eq!(metrics.get_total_requests(), 1);
    assert_eq!(metrics.get_total_successes(), 0);
    assert_eq!(metrics.get_total_failures(), 0);
}

#[test]
fn test_request_accounting_mixed_statuses() {
    // Total requests always equal successes + failures + informational or
    // redirect responses.
    let mut metrics = Metrics::new();
    let codes: Vec<u16> = vec![100, 200, 204, 301, 302, 404, 500, 503, 201, 307];
    for (i, code) in codes.iter().enumerate() {
        metrics.record_request_at("/mix", *code, (i as u64) * 10);
    }
    let total = metrics.get_total_requests();
    let succ = metrics.get_total_successes();
    let fail = metrics.get_total_failures();
    assert_eq!(total, 10);
    assert_eq!(succ, 3);
    assert_eq!(fail, 3);
    let others = 4;
    assert_eq!(total, succ + fail + others);
}

#[test]
fn test_status_endpoint_normalized_keys() {
    // 120 requests to /status/404 land under the one route template, not
    // under 120 separate keys.
    let mut metrics = Metrics::new();
    for i in 0..120u64 {
        let key = rucho::paths::normalize_path("/status/404");
        metrics.record_request_at(key.as_str(), 404, i * 100);
    }
    let snapshot = metrics.snapshot();
    assert_eq!(snapshot.all_time.endpoint_hits.get("/status/:code"), Some(120));
    assert_eq!(snapshot.all_time.endpoint_hits.get("/status/404"), None);
    assert_eq!(snapshot.all_time.endpoint_hits.num_entries(), 1);
    assert_eq!(snapshot.all_time.total_requests, 120);
    assert_eq!(snapshot.all_time.failures, 120);
}

#[test]
fn test_rolling_window_trails_an_hour() {
    // One request per second for 3700 seconds: the all-time total sees all
    // of them, the rolling hour only the trailing ~3600 at bucket
    // granularity.
    let mut metrics = Metrics::new();
    for i in 0..3700u64 {
        metrics.record_request_at("/get", 200, i * 1000);
    }
    let now = 3699 * 1000;
    assert_eq!(metrics.get_total_requests(), 3700);
    let last_hour = metrics.get_last_hour_requests_at(now);
    // Buckets rotate every 60 s; at t = 3699 s the buckets started at
    // 120 s .. 3660 s are inside the window: 59 full buckets of 60 plus a
    // last bucket of 40.
    assert_eq!(last_hour, 3580);
    let snap = metrics.snapshot_at(now);
    assert_eq!(snap.last_hour.total_requests, 3580);
    assert_eq!(snap.last_hour.successes, 3580);
    assert_eq!(snap.last_hour.failures, 0);
    assert_eq!(snap.last_hour.endpoint_hits.get("/get"), Some(3580));
}

#[test]
fn test_rolling_window_equals_total_within_first_hour() {
    let mut metrics = Metrics::new();
    for i in 0..600u64 {
        metrics.record_request_at("/get", 200, i * 1000);
    }
    // Less than an hour since the first record: nothing has been dropped.
    assert_eq!(metrics.get_last_hour_requests_at(599 * 1000), 600);
    assert_eq!(metrics.get_total_requests(), 600);
}

#[test]
fn test_rolling_window_sums_per_kind() {
    let mut metrics = Metrics::new();
    metrics.record_request_at("/a", 200, 0);
    metrics.record_request_at("/a", 503, 1);
    metrics.record_request_at("/b", 301, 2);
    assert_eq!(metrics.sum_rolling_window(2, StatKind::Requests), 3);
    assert_eq!(metrics.sum_rolling_window(2, StatKind::Successes), 1);
    assert_eq!(metrics.sum_rolling_window(2, StatKind::Failures), 1);
    let hits = metrics.get_last_hour_endpoint_hits_at(2);
    assert_eq!(hits.get("/a"), Some(2));
    assert_eq!(hits.get("/b"), Some(1));
}

#[test]
fn test_rolling_hits_dominated_by_all_time_hits() {
    // Once the window has rolled past the early requests, the rolling hit
    // map holds a subset of the all-time keys, each with a count no
    // greater than the all-time one.
    let mut metrics = Metrics::new();
    for i in 0..5u64 {
        metrics.record_request_at("/old", 200, i * 1000);
    }
    // Two hours later, a different endpoint.
    for i in 0..3u64 {
        metrics.record_request_at("/new", 200, 7_200_000 + i * 1000);
    }
    let now = 7_202_000;
    let rolling = metrics.get_last_hour_endpoint_hits_at(now);
    let all_time = metrics.get_endpoint_hits();
    assert_eq!(rolling.get("/old"), None);
    assert_eq!(rolling.get("/new"), Some(3));
    assert_eq!(all_time.get("/old"), Some(5));
    assert_eq!(all_time.get("/new"), Some(3));
    for i in 0..rolling.num_entries() {
        let (key, count) = rolling.entry_at(i);
        let total = all_time.get(key.as_str()).expect("rolling key must be an all-time key");
        assert!(count <= total);
    }
}

#[test]
fn test_record_order_does_not_change_all_time_counters() {
    // Recording the same set of requests in either order yields the same
    // all-time counters and endpoint hits.
    let mut a = Metrics::new();
    a.record_request_at("/get", 200, 10);
    a.record_request_at("/post", 500, 20);
    let mut b = Metrics::new();
    b.record_request_at("/post", 500, 10);
    b.record_request_at("/get", 200, 20);

    assert_eq!(a.get_total_requests(), b.get_total_requests());
    assert_eq!(a.get_total_successes(), b.get_total_successes());
    assert_eq!(a.get_total_failures(), b.get_total_failures());
    let ha = a.get_endpoint_hits();
    let hb = b.get_endpoint_hits();
    assert_eq!(ha.get("/get"), hb.get("/get"));
    assert_eq!(ha.get("/post"), hb.get("/post"));
    assert_eq!(ha.num_entries(), hb.num_entries());
}

#[test]
fn test_bucket_expiry_and_window() {
    let mut b = TimeBucket::new();
    assert!(b.is_expired(0));
    assert!(!b.is_within_window(0, 3_600_000));
    b.reset(1000);
    assert!(!b.is_expired(1000));
    assert!(!b.is_expired(60_999));
    assert!(b.is_expired(61_000));
    assert!(b.is_within_window(1000, 3_600_000));
    assert!(b.is_within_window(3_600_999, 3_600_000));
    assert!(!b.is_within_window(3_601_000, 3_600_000));
}
