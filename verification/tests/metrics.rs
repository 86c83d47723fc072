use scream::metrics::{metrics_body, render, ClientGuard, Counters};
use std::sync::atomic::{AtomicI64, Ordering};

#[test]
fn render_lists_every_stream_gauge() {
    let body = render(1, 2, 3, 4, 5, 6);
    assert!(body.contains("scream_stream_clients{stream=\"webm\"} 1\n"));
    assert!(body.contains("scream_stream_clients{stream=\"mjpeg\"} 2\n"));
    assert!(body.contains("scream_stream_clients{stream=\"mkv\"} 3\n"));
    assert!(body.contains("scream_stream_clients{stream=\"snapshot\"} 4\n"));
    assert!(body.contains("scream_stream_clients{stream=\"rtsp\"} 5\n"));
    assert!(body.ends_with("scream_snapshot_requests_total 6\n"));
}

#[test]
fn client_guard_tracks_the_counter() {
    let counter: &'static AtomicI64 = Box::leak(Box::new(AtomicI64::new(0)));
    {
        let _a = ClientGuard::new(counter);
        let _b = ClientGuard::new(counter);
        assert_eq!(counter.load(Ordering::Relaxed), 2);
    }
    assert_eq!(counter.load(Ordering::Relaxed), 0);
}

#[test]
fn the_body_shows_the_counters() {
    let counters = Counters {
        webm: AtomicI64::new(10),
        mjpeg: AtomicI64::new(-2),
        mkv: AtomicI64::new(i64::MIN),
        snapshot: AtomicI64::new(i64::MAX),
        rtsp: AtomicI64::new(0),
        snapshots_total: AtomicI64::new(7),
    };
    assert_eq!(metrics_body(&counters), render(10, -2, i64::MIN, i64::MAX, 0, 7));
    assert_eq!(
        render(0, 0, 0, 0, 0, 0),
        "# HELP scream_stream_clients Clients currently connected to a stream\n# TYPE scream_stream_clients gauge\nscream_stream_clients{stream=\"webm\"} 0\nscream_stream_clients{stream=\"mjpeg\"} 0\nscream_stream_clients{stream=\"mkv\"} 0\nscream_stream_clients{stream=\"snapshot\"} 0\nscream_stream_clients{stream=\"rtsp\"} 0\n# HELP scream_snapshot_requests_total Snapshot stills served\n# TYPE scream_snapshot_requests_total counter\nscream_snapshot_requests_total 0\n"
    );
    assert!(metrics_body(&counters).contains("{stream=\"mkv\"} -9223372036854775808\n"));
}
