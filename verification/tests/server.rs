use scream::dlna::STREAM_PATH;
use scream::hls::{segment_path, PLAYLIST_PATH};
use scream::hls_state::Playlist;
use scream::http::Request;
use scream::metrics::{metrics_body, render, ClientGuard, Counters};
use scream::server::{
    chunk, client_counter, feed_audio, feed_turn, metrics_response, mjpeg_part, next_after,
    playlist_response, refusal, rejection, route, segment_response, snapshot_response,
    snapshot_turn, stream_head, Container, Fed, HttpNext, Route, Still, LAST_CHUNK,
};
use std::sync::atomic::AtomicI64;

fn routed(method: &str, target: &str) -> Route {
    route(&Request::parse(format!("{method} {target} HTTP/1.1\r\n\r\n").as_bytes()).unwrap())
}

#[test]
fn every_path_has_its_route() {
    assert_eq!(routed("GET", "/metrics"), Route::Metrics);
    assert_eq!(routed("GET", PLAYLIST_PATH), Route::Playlist);
    assert_eq!(routed("GET", &segment_path(17)), Route::Segment(17));
    assert_eq!(routed("GET", "/snapshot?x=1"), Route::Snapshot);
    assert_eq!(routed("GET", "/screenshot"), Route::Snapshot);
    assert_eq!(routed("GET", "/"), Route::Stream(Container::Webm));
    assert_eq!(routed("GET", "/webm"), Route::Stream(Container::Webm));
    assert_eq!(routed("GET", STREAM_PATH), Route::Stream(Container::Matroska));
    assert_eq!(routed("GET", "/stream.ts"), Route::Stream(Container::MpegTs));
    assert_eq!(routed("GET", "/mjpeg"), Route::Mjpeg);
    assert_eq!(routed("GET", "/hls/x.ts"), Route::NotFound);
    assert_eq!(routed("GET", "/favicon.ico"), Route::NotFound);
}

#[test]
fn dlna_comes_before_the_method() {
    assert_eq!(routed("POST", "/dlna/cds/control"), Route::Dlna);
    assert_eq!(routed("SUBSCRIBE", "/dlna/x"), Route::Dlna);
    assert_eq!(routed("POST", "/metrics"), Route::NotAllowed);
    assert_eq!(routed("HEAD", "/nowhere"), Route::NotAllowed);
    assert_eq!(routed("get", "/metrics"), Route::NotAllowed);
}

#[test]
fn what_is_not_served_is_refused() {
    assert_eq!(
        refusal(Route::NotAllowed),
        Some("HTTP/1.1 405 Method Not Allowed\r\nContent-Length: 0\r\nConnection: close\r\n\r\n")
    );
    assert_eq!(
        refusal(Route::NotFound),
        Some("HTTP/1.1 404 Not Found\r\nContent-Length: 0\r\nConnection: close\r\n\r\n")
    );
    assert_eq!(refusal(Route::Metrics), None);
}

#[test]
fn a_malformed_request_is_answered_and_silence_is_not() {
    assert_eq!(
        rejection(2, false),
        Some("HTTP/1.1 400 Bad Request\r\nContent-Length: 0\r\nConnection: close\r\n\r\n")
    );
    assert_eq!(rejection(0, false), None);
    assert_eq!(rejection(2, true), None);
}

#[test]
fn finite_responses_keep_the_connection() {
    assert_eq!(next_after(Route::Metrics, false), HttpNext::KeepAlive);
    assert_eq!(next_after(Route::Playlist, false), HttpNext::KeepAlive);
    assert_eq!(next_after(Route::Segment(1), false), HttpNext::KeepAlive);
    assert_eq!(next_after(Route::Snapshot, true), HttpNext::KeepAlive);
    assert_eq!(next_after(Route::Snapshot, false), HttpNext::Close);
    assert_eq!(next_after(Route::Dlna, true), HttpNext::Close);
    assert_eq!(next_after(Route::Stream(Container::Webm), true), HttpNext::Close);
}

#[test]
fn heads_are_as_a_client_expects_them() {
    assert_eq!(
        metrics_response("ü\n"),
        "HTTP/1.1 200 OK\r\nContent-Type: text/plain; version=0.0.4\r\nContent-Length: 3\r\nConnection: keep-alive\r\n\r\nü\n"
    );
    assert_eq!(
        snapshot_response(b"jpeg"),
        b"HTTP/1.1 200 OK\r\nContent-Type: image/jpeg\r\nAccess-Control-Allow-Origin: *\r\nCache-Control: no-store\r\nContent-Length: 4\r\nConnection: keep-alive\r\n\r\njpeg"
    );
    assert_eq!(
        segment_response(Some(vec![b'x'; 11])),
        b"HTTP/1.1 200 OK\r\nContent-Type: video/mp2t\r\nAccess-Control-Allow-Origin: *\r\nCache-Control: no-store\r\nContent-Length: 11\r\nConnection: keep-alive\r\n\r\nxxxxxxxxxxx"
    );
    assert_eq!(
        segment_response(None),
        b"HTTP/1.1 404 Not Found\r\nContent-Length: 0\r\nConnection: keep-alive\r\n\r\n"
    );
    assert_eq!(
        playlist_response(Playlist::Ready("#EXTM3U\n".to_string())).as_deref(),
        Some("HTTP/1.1 200 OK\r\nContent-Type: application/vnd.apple.mpegurl\r\nAccess-Control-Allow-Origin: *\r\nCache-Control: no-store\r\nContent-Length: 8\r\nConnection: keep-alive\r\n\r\n#EXTM3U\n")
    );
    assert_eq!(
        playlist_response(Playlist::Unavailable).as_deref(),
        Some("HTTP/1.1 503 Service Unavailable\r\nRetry-After: 2\r\nContent-Length: 0\r\nConnection: keep-alive\r\n\r\n")
    );
    assert_eq!(playlist_response(Playlist::Wait), None);
    assert_eq!(
        mjpeg_part(b"jpeg!!!"),
        b"--screamframe\r\nContent-Type: image/jpeg\r\nContent-Length: 7\r\n\r\njpeg!!!\r\n"
    );
    assert_eq!(
        stream_head(Container::Matroska),
        "HTTP/1.1 200 OK\r\nContent-Type: video/x-matroska\r\nAccess-Control-Allow-Origin: *\r\nCache-Control: no-store\r\nTransfer-Encoding: chunked\r\nConnection: close\r\n\r\n"
    );
    assert!(stream_head(Container::Webm).contains("Content-Type: video/webm\r\n"));
    assert!(stream_head(Container::MpegTs).contains("Content-Type: video/mp2t\r\n"));
}

#[test]
fn a_chunk_is_its_length_and_its_data() {
    assert_eq!(chunk(b"hello"), b"5\r\nhello\r\n");
    assert_eq!(chunk(&[b'x'; 31])[..4], *b"1f\r\n");
    assert_eq!(chunk(&vec![0; 0xabc])[..5], *b"abc\r\n");
    assert!(chunk(b"").is_empty());
    assert_eq!(LAST_CHUNK, "0\r\n\r\n");
}

#[test]
fn chunks_carry_the_stream() {
    let turns: [&[u8]; 4] = [b"one", b"", &[7; 300], b"\r\n0\r\n\r\n"];
    let mut wire = Vec::new();
    for turn in turns {
        wire.extend_from_slice(&chunk(turn));
    }
    wire.extend_from_slice(LAST_CHUNK.as_bytes());
    let mut read = Vec::new();
    let mut at = 0;
    loop {
        let line = at + wire[at..].iter().position(|b| *b == 13).unwrap();
        let size = usize::from_str_radix(std::str::from_utf8(&wire[at..line]).unwrap(), 16).unwrap();
        read.extend_from_slice(&wire[line + 2..line + 2 + size]);
        at = line + 2 + size + 2;
        if size == 0 {
            break;
        }
    }
    assert_eq!(at, wire.len());
    assert_eq!(read, turns.concat());
}

#[test]
fn a_stream_waits_for_two_hundred_turns() {
    let mut idle = 0;
    for _ in 0..200 {
        assert_eq!(feed_turn(Fed::NoFrame, &mut idle), None);
    }
    assert_eq!(feed_turn(Fed::NoFrame, &mut idle), Some("no frames to stream, closing"));
    assert_eq!(feed_turn(Fed::Taken, &mut idle), None);
    assert_eq!(idle, 0);
    assert_eq!(feed_turn(Fed::Rejected, &mut idle), Some("appsrc rejected a buffer, closing"));
    assert_eq!(feed_audio(true), None);
    assert_eq!(feed_audio(false), Some("audio appsrc rejected a buffer, closing"));
}

#[test]
fn a_snapshot_is_tried_forty_times() {
    assert_eq!(snapshot_turn(0, true), Still::Send);
    assert_eq!(snapshot_turn(0, false), Still::Retry);
    assert_eq!(snapshot_turn(38, false), Still::Retry);
    assert_eq!(snapshot_turn(39, true), Still::Send);
    assert_eq!(snapshot_turn(39, false), Still::GiveUp);
}

#[test]
fn every_stream_is_counted_under_its_label() {
    let counters: &'static Counters = Box::leak(Box::new(Counters {
        webm: AtomicI64::new(10),
        mjpeg: AtomicI64::new(20),
        mkv: AtomicI64::new(30),
        snapshot: AtomicI64::new(40),
        rtsp: AtomicI64::new(50),
        snapshots_total: AtomicI64::new(60),
    }));
    for (route, shown) in [
        (Route::Stream(Container::Webm), render(11, 20, 30, 40, 50, 60)),
        (Route::Mjpeg, render(10, 21, 30, 40, 50, 60)),
        (Route::Stream(Container::Matroska), render(10, 20, 31, 40, 50, 60)),
        (Route::Snapshot, render(10, 20, 30, 41, 50, 60)),
    ] {
        let guard = ClientGuard::new(client_counter(counters, route).unwrap());
        assert_eq!(metrics_body(counters), shown);
        drop(guard);
        assert_eq!(metrics_body(counters), render(10, 20, 30, 40, 50, 60));
    }
    assert!(client_counter(counters, Route::Stream(Container::MpegTs)).is_none());
    assert!(client_counter(counters, Route::Metrics).is_none());
}
