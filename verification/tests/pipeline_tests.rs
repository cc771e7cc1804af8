//! End-to-end tests of the monitoring pipeline.

use dd_monitor::models::{Config, RequestRecord};
use dd_monitor::monitor_stream;
use dd_monitor::Pipeline;

fn rec(date: u32, request: &str, status: u16) -> RequestRecord {
    RequestRecord {
        remote_host: String::from("10.0.0.1"),
        date,
        request: String::from(request),
        status,
        bytes: 100,
    }
}

fn quiet_config() -> Config {
    // stats chunks of 10 s; the alert threshold is far out of reach.
    Config { stats_window: 10, alert_window: 120, alert_rate: 10, maximum_timestamp_error: 1 }
}

#[test]
fn empty_record_stream_yields_no_lines() {
    let records: Vec<RequestRecord> = Vec::new();
    let lines = monitor_stream(&records, &quiet_config()).unwrap();
    assert_eq!(lines.len(), 0);
}

#[test]
fn single_chunk_no_alert() {
    // Five records within one 10-second window, rate far below the
    // alert threshold: exactly one chunk summary, no alert lines.
    let records: Vec<RequestRecord> = (0..5).map(|i| rec(i, "GET /api/user HTTP/1.0", 200)).collect();
    let lines = monitor_stream(&records, &quiet_config()).unwrap();
    assert_eq!(
        lines,
        vec![String::from(
            "1970-01-01 00:00:00-00:00:10  |  5 requests at 0.5rps  |  100% in /api  |  100% 200"
        )]
    );
}

#[test]
fn alert_then_recovery() {
    // A burst that crosses the threshold, then silence long enough to
    // fall back below it: exactly one ALERT line, then exactly one
    // RECOVERY line, at the crossing timestamps.
    let config =
        Config { stats_window: 1000, alert_window: 2, alert_rate: 1, maximum_timestamp_error: 0 };
    let records = vec![
        rec(0, "GET /a HTTP/1.0", 200),
        rec(0, "GET /a HTTP/1.0", 200),
        rec(10, "GET /a HTTP/1.0", 200),
    ];
    let lines = monitor_stream(&records, &config).unwrap();
    assert_eq!(lines.len(), 3);
    assert_eq!(
        lines[0],
        "1970-01-01 00:00:00 ALERT: average of 1.0rps over last 2 seconds exceeds threshold of 1.0rps"
    );
    assert_eq!(
        lines[1],
        "1970-01-01 00:00:10 RECOVERY: average of 0.5rps over last 2 seconds is below threshold of 1.0rps"
    );
    // The still-open stats chunk is flushed at stream end.
    assert!(lines[2].contains("3 requests"));
}

#[test]
fn alert_lines_alternate() {
    // Repeated bursts: ALERT and RECOVERY lines strictly alternate,
    // starting with an ALERT.
    let config =
        Config { stats_window: 1000, alert_window: 2, alert_rate: 1, maximum_timestamp_error: 0 };
    let mut records = Vec::new();
    for burst in 0..3 {
        let t = burst * 100;
        records.push(rec(t, "GET /a HTTP/1.0", 200));
        records.push(rec(t, "GET /a HTTP/1.0", 200));
        records.push(rec(t + 10, "GET /a HTTP/1.0", 200));
    }
    let lines = monitor_stream(&records, &config).unwrap();
    let transitions: Vec<&String> =
        lines.iter().filter(|l| l.contains("ALERT") || l.contains("RECOVERY")).collect();
    assert_eq!(transitions.len(), 6);
    for (i, line) in transitions.iter().enumerate() {
        if i % 2 == 0 {
            assert!(line.contains(" ALERT: "), "line {} should be an alert: {}", i, line);
        } else {
            assert!(line.contains(" RECOVERY: "), "line {} should be a recovery: {}", i, line);
        }
    }
}

#[test]
fn silent_chunks_get_no_requests_lines() {
    // A 25-second gap with 10-second chunks: the first chunk closes
    // with one request, the silent middle chunk reports "no requests",
    // and the final chunk is flushed at stream end.
    let records = vec![rec(0, "GET /api/user HTTP/1.0", 200), rec(25, "GET /report HTTP/1.0", 404)];
    let lines = monitor_stream(&records, &quiet_config()).unwrap();
    assert_eq!(
        lines,
        vec![
            String::from(
                "1970-01-01 00:00:00-00:00:10  |  1 requests at 0.1rps  |  100% in /api  |  100% 200"
            ),
            String::from("1970-01-01 00:00:10-00:00:20  |  no requests"),
            String::from(
                "1970-01-01 00:00:20-00:00:30  |  1 requests at 0.1rps  |  100% in /report  |  100% 404"
            ),
        ]
    );
}

#[test]
fn out_of_order_within_tolerance_is_corrected() {
    // Two adjacent records swapped by one second with a one-second
    // tolerance: no error, and the output matches the sorted input's.
    let swapped = vec![rec(1, "GET /b HTTP/1.0", 201), rec(0, "GET /a HTTP/1.0", 200)];
    let sorted = vec![rec(0, "GET /a HTTP/1.0", 200), rec(1, "GET /b HTTP/1.0", 201)];
    let config = quiet_config();
    let out_swapped = monitor_stream(&swapped, &config).unwrap();
    let out_sorted = monitor_stream(&sorted, &config).unwrap();
    assert_eq!(out_swapped, out_sorted);
    // The chunk is anchored to the earliest timestamp after reordering.
    assert!(out_swapped[0].starts_with("1970-01-01 00:00:00-00:00:10"));
}

#[test]
fn out_of_order_beyond_tolerance_aborts() {
    // A record five seconds late with a one-second tolerance: the run
    // aborts with a chronology violation naming the record and the
    // watermark.
    let records = vec![rec(10, "GET /a HTTP/1.0", 200), rec(5, "GET /b HTTP/1.0", 200)];
    let err = monitor_stream(&records, &quiet_config()).unwrap_err();
    assert_eq!(err.date, 5);
    assert_eq!(err.watermark, 10);
    assert_eq!(
        err.message(),
        "chronology violation: record at 5 arrived after its slot was flushed (watermark 10)"
    );
}

#[test]
fn chronology_violation_after_flushed_output() {
    // Streaming push by push: output flushed for closed chunks is
    // already delivered when a later record violates chronology.
    let config = quiet_config();
    let mut pipeline = Pipeline::new(&config);
    let mut lines: Vec<String> = Vec::new();
    lines.extend(pipeline.push(&rec(0, "GET /a HTTP/1.0", 200)).unwrap());
    lines.extend(pipeline.push(&rec(20, "GET /b HTTP/1.0", 200)).unwrap());
    // The record at 20 settles the one at 0, and once it is itself
    // settled it closes the first two chunks.
    lines.extend(pipeline.push(&rec(35, "GET /c HTTP/1.0", 200)).unwrap());
    assert_eq!(lines.len(), 2);
    assert!(lines[0].starts_with("1970-01-01 00:00:00-00:00:10"));
    assert_eq!(lines[1], "1970-01-01 00:00:10-00:00:20  |  no requests");
    let err = pipeline.push(&rec(3, "GET /d HTTP/1.0", 200)).unwrap_err();
    assert_eq!(err.date, 3);
    assert_eq!(err.watermark, 35);
}

#[test]
fn top_status_codes_by_count_then_code() {
    // Six requests: 200 and 404 twice each, 301 and 500 once each.
    // The top three are ordered by count, ties broken by ascending
    // code: 200, 404, then 301.
    let records = vec![
        rec(0, "GET /a HTTP/1.0", 500),
        rec(1, "GET /a HTTP/1.0", 404),
        rec(2, "GET /a HTTP/1.0", 200),
        rec(3, "GET /a HTTP/1.0", 404),
        rec(4, "GET /a HTTP/1.0", 301),
        rec(5, "GET /a HTTP/1.0", 200),
    ];
    let lines = monitor_stream(&records, &quiet_config()).unwrap();
    assert_eq!(lines.len(), 1);
    assert!(lines[0].ends_with("|  33% 200, 33% 404, 16% 301"), "got: {}", lines[0]);
}

#[test]
fn top_section_tie_breaks_lexicographically() {
    let records = vec![rec(0, "GET /beta/x HTTP/1.0", 200), rec(1, "GET /alpha/y HTTP/1.0", 200)];
    let lines = monitor_stream(&records, &quiet_config()).unwrap();
    assert_eq!(lines.len(), 1);
    assert!(lines[0].contains("50% in /alpha"), "got: {}", lines[0]);
}

#[test]
fn replay_is_byte_identical() {
    let records = vec![
        rec(1, "GET /b HTTP/1.0", 201),
        rec(0, "GET /a HTTP/1.0", 200),
        rec(14, "POST /c HTTP/1.0", 404),
        rec(14, "GET /a HTTP/1.0", 200),
        rec(33, "GET /a HTTP/1.0", 500),
    ];
    let config = quiet_config();
    let first = monitor_stream(&records, &config).unwrap();
    let second = monitor_stream(&records, &config).unwrap();
    assert_eq!(first, second);
}

#[test]
fn chunk_at_the_largest_timestamp() {
    // A record at the largest representable timestamp: the chunk end
    // lies beyond the 32-bit range and must still render correctly.
    let records = vec![rec(u32::MAX, "GET /api/user HTTP/1.0", 200)];
    let lines = monitor_stream(&records, &quiet_config()).unwrap();
    assert_eq!(
        lines,
        vec![String::from(
            "2106-02-07 06:28:15-06:28:25  |  1 requests at 0.1rps  |  100% in /api  |  100% 200"
        )]
    );
}

#[test]
fn sample_window_renders_calendar_dates() {
    let records = vec![
        rec(1549573860, "GET /api/user HTTP/1.0", 200),
        rec(1549573864, "GET /report HTTP/1.0", 200),
    ];
    let lines = monitor_stream(&records, &quiet_config()).unwrap();
    assert_eq!(lines.len(), 1);
    assert!(lines[0].starts_with("2019-02-07 21:11:00-21:11:10  |  2 requests"), "got: {}", lines[0]);
}
