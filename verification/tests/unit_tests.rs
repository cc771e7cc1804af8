//! Unit tests of the individual components.

use dd_monitor::chunked_stats_monitor::ChunkedStatsMonitor;
use dd_monitor::models::{Config, RequestRecord};
use dd_monitor::rolling_alerts_monitor::RollingAlertsMonitor;
use dd_monitor::sorted_request_iterator::SortedRequestIterator;
use dd_monitor::text::{str_lt, tenths_to_string, u128_to_string, u64_to_string, u64_to_string_pad3};

fn rec(date: u32, request: &str, status: u16) -> RequestRecord {
    RequestRecord {
        remote_host: String::from("10.0.0.1"),
        date,
        request: String::from(request),
        status,
        bytes: 100,
    }
}

#[test]
fn default_config_matches_documented_values() {
    let config = Config::default();
    assert_eq!(config.stats_window, 10);
    assert_eq!(config.alert_window, 120);
    assert_eq!(config.alert_rate, 10);
    assert_eq!(config.maximum_timestamp_error, 1);
}

#[test]
fn section_is_second_slash_piece_of_the_path() {
    assert_eq!(rec(0, "GET /api/user HTTP/1.0", 200).section(), "api");
    assert_eq!(rec(0, "GET /report HTTP/1.0", 200).section(), "report");
    assert_eq!(rec(0, "POST /api HTTP/1.0", 200).section(), "api");
}

#[test]
fn section_of_malformed_request_lines() {
    // No space at all: the path falls back to the unknown sentinel.
    assert_eq!(rec(0, "FOO", 200).section(), "unknown");
    // A path without any slash has no second piece.
    assert_eq!(rec(0, "GET B", 200).section(), "unknown");
    // Without a leading slash the second piece is taken as it stands.
    assert_eq!(rec(0, "GET x/y z", 200).section(), "y");
    // A double slash yields an empty section.
    assert_eq!(rec(0, "GET //y HTTP/1.0", 200).section(), "");
}

#[test]
fn decimal_rendering() {
    assert_eq!(u64_to_string(0), "0");
    assert_eq!(u64_to_string(7), "7");
    assert_eq!(u64_to_string(1234567890), "1234567890");
    assert_eq!(u64_to_string(u64::MAX), "18446744073709551615");
    assert_eq!(u128_to_string(340282366920938463463374607431768211455), "340282366920938463463374607431768211455");
}

#[test]
fn padded_status_rendering() {
    assert_eq!(u64_to_string_pad3(7), "007");
    assert_eq!(u64_to_string_pad3(42), "042");
    assert_eq!(u64_to_string_pad3(200), "200");
    assert_eq!(u64_to_string_pad3(65535), "65535");
}

#[test]
fn tenths_rendering() {
    assert_eq!(tenths_to_string(0), "0.0");
    assert_eq!(tenths_to_string(5), "0.5");
    assert_eq!(tenths_to_string(125), "12.5");
    assert_eq!(tenths_to_string(100), "10.0");
}

#[test]
fn lexicographic_string_order() {
    assert!(str_lt("abc", "abd"));
    assert!(str_lt("", "a"));
    assert!(str_lt("ab", "b"));
    assert!(!str_lt("b", "ab"));
    assert!(!str_lt("same", "same"));
    assert!(!str_lt("a", ""));
}

#[test]
fn reordering_buffer_sorts_and_keeps_every_record() {
    let config =
        Config { stats_window: 10, alert_window: 120, alert_rate: 10, maximum_timestamp_error: 5 };
    let mut buffer = SortedRequestIterator::new(&config);
    buffer.push(&rec(5, "GET /a HTTP/1.0", 200)).unwrap();
    buffer.push(&rec(3, "GET /b HTTP/1.0", 200)).unwrap();
    buffer.push(&rec(5, "GET /c HTTP/1.0", 200)).unwrap();
    buffer.push(&rec(4, "GET /d HTTP/1.0", 200)).unwrap();
    buffer.finish();
    let mut dates = Vec::new();
    let mut requests = Vec::new();
    while let Some(r) = buffer.pop() {
        dates.push(r.date);
        requests.push(r.request);
    }
    assert_eq!(dates, vec![3, 4, 5, 5]);
    // Equal timestamps keep their arrival order.
    assert_eq!(requests[2], "GET /a HTTP/1.0");
    assert_eq!(requests[3], "GET /c HTTP/1.0");
}

#[test]
fn reordering_buffer_holds_records_within_the_window() {
    // With a 1-second error margin the buffer holds 2 seconds: a record
    // is only released once the watermark moved past its timestamp by
    // more than that.
    let config = Config::default();
    let mut buffer = SortedRequestIterator::new(&config);
    buffer.push(&rec(0, "GET /a HTTP/1.0", 200)).unwrap();
    assert!(!buffer.has_ready());
    buffer.push(&rec(2, "GET /b HTTP/1.0", 200)).unwrap();
    assert!(!buffer.has_ready());
    buffer.push(&rec(3, "GET /c HTTP/1.0", 200)).unwrap();
    assert!(buffer.has_ready());
    assert_eq!(buffer.pop().unwrap().date, 0);
    assert!(!buffer.has_ready());
}

#[test]
fn reordering_buffer_rejects_late_records() {
    let config = Config::default();
    let mut buffer = SortedRequestIterator::new(&config);
    buffer.push(&rec(10, "GET /a HTTP/1.0", 200)).unwrap();
    let err = buffer.push(&rec(7, "GET /b HTTP/1.0", 200)).unwrap_err();
    assert_eq!(err.date, 7);
    assert_eq!(err.watermark, 10);
    // A record exactly at the edge of the window is still accepted.
    buffer.push(&rec(8, "GET /c HTTP/1.0", 200)).unwrap();
}

#[test]
fn stats_monitor_flushes_pending_chunk_once() {
    let config = Config::default();
    let mut stats = ChunkedStatsMonitor::from_config(&config);
    let lines = stats.push(&rec(0, "GET /api/user HTTP/1.0", 200));
    assert_eq!(lines.len(), 0);
    let pending = stats.pending();
    assert_eq!(
        pending,
        vec![String::from(
            "1970-01-01 00:00:00-00:00:10  |  1 requests at 0.1rps  |  100% in /api  |  100% 200"
        )]
    );
}

#[test]
fn stats_monitor_has_no_output_before_any_record() {
    let config = Config::default();
    let stats = ChunkedStatsMonitor::from_config(&config);
    assert_eq!(stats.pending().len(), 0);
}

#[test]
fn alert_monitor_is_edge_triggered() {
    let config =
        Config { stats_window: 10, alert_window: 2, alert_rate: 1, maximum_timestamp_error: 0 };
    let mut alerts = RollingAlertsMonitor::from_config(&config);
    assert_eq!(alerts.push(&rec(0, "GET /a HTTP/1.0", 200)).len(), 0);
    // The second record crosses the threshold: one ALERT line.
    let crossing = alerts.push(&rec(0, "GET /a HTTP/1.0", 200));
    assert_eq!(crossing.len(), 1);
    assert!(crossing[0].contains(" ALERT: "));
    // Still above the threshold: no further line.
    assert_eq!(alerts.push(&rec(1, "GET /a HTTP/1.0", 200)).len(), 0);
    // The window slides past the burst: one RECOVERY line.
    let recovery = alerts.push(&rec(30, "GET /a HTTP/1.0", 200));
    assert_eq!(recovery.len(), 1);
    assert!(recovery[0].contains(" RECOVERY: "));
}

#[test]
fn alert_monitor_evicts_records_exactly_window_old() {
    let config =
        Config { stats_window: 10, alert_window: 2, alert_rate: 1, maximum_timestamp_error: 0 };
    let mut alerts = RollingAlertsMonitor::from_config(&config);
    assert_eq!(alerts.push(&rec(0, "GET /a HTTP/1.0", 200)).len(), 0);
    // The record at 0 is exactly 2 seconds old at t = 2 and is evicted,
    // so the window holds 2 records and the rate stays below 1 rps...
    let lines = alerts.push(&rec(2, "GET /a HTTP/1.0", 200));
    assert_eq!(lines.len(), 0);
    // ...until a second record within the window crosses the threshold.
    let lines = alerts.push(&rec(3, "GET /a HTTP/1.0", 200));
    assert_eq!(lines.len(), 1);
}
