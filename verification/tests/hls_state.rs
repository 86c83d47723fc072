use scream::hls::{segment_seq, Segment, RING_SEGMENTS};
use scream::hls_state::{HlsState, Playlist};
use scream::time::Duration;

fn secs(s: u64) -> Duration {
    Duration::from_secs(s)
}

fn segment(seq: u64) -> Segment {
    Segment { seq, duration: secs(1), data: vec![seq as u8; 3], discontinuity: seq == 0 }
}

fn ready(state: &HlsState) -> Option<String> {
    match state.playlist(true) {
        Playlist::Ready(text) => Some(text),
        _ => None,
    }
}

#[test]
fn the_first_request_starts_an_encoder() {
    let mut state = HlsState::new(secs(0));
    assert!(state.touch(secs(1)));
    assert!(!state.touch(secs(2)));
    state.finish_run(9, None);
    assert_eq!(state.next_seq(), 9);
    assert!(state.touch(secs(3)));
}

#[test]
fn the_ring_keeps_the_newest_segments() {
    let mut state = HlsState::new(secs(0));
    for seq in 0..10 {
        state.add(segment(seq));
    }
    assert_eq!(state.segment(3), None);
    for seq in 10 - RING_SEGMENTS as u64..10 {
        assert_eq!(state.segment(seq), Some(vec![seq as u8; 3]));
    }
    assert_eq!(state.segment(10), None);
}

#[test]
fn every_listed_segment_can_be_fetched() {
    let mut state = HlsState::new(secs(0));
    for seq in 0..8 {
        state.add(segment(seq));
    }
    let text = ready(&state).unwrap();
    let mut listed = 0;
    for line in text.lines().filter(|l| !l.starts_with('#')) {
        let seq = segment_seq(line).unwrap();
        assert!(state.segment(seq).is_some());
        listed += 1;
    }
    assert_eq!(listed, 4);
}

#[test]
fn a_playlist_needs_three_segments() {
    let mut state = HlsState::new(secs(0));
    state.touch(secs(0));
    state.add(segment(0));
    state.add(segment(1));
    assert!(matches!(state.playlist(true), Playlist::Wait));
    assert!(matches!(state.playlist(false), Playlist::Unavailable));
    state.add(segment(2));
    assert!(ready(&state).unwrap().contains("/hls/0.ts"));
}

#[test]
fn a_failed_start_is_answered_at_once() {
    let mut state = HlsState::new(secs(0));
    state.touch(secs(0));
    state.finish_run(0, Some("no x264enc".to_string()));
    assert!(matches!(state.playlist(true), Playlist::Unavailable));
    // The next try starts afresh
    assert!(state.touch(secs(1)));
    assert!(matches!(state.playlist(true), Playlist::Wait));
}

#[test]
fn the_encoder_stops_after_ten_seconds_without_a_request() {
    let mut state = HlsState::new(secs(0));
    state.touch(secs(100));
    assert!(!state.idle(secs(99)));
    assert!(!state.idle(secs(110)));
    assert!(state.idle(Duration::new(110, 1)));
}

#[test]
fn the_end_of_a_run_clears_the_ring() {
    let mut state = HlsState::new(secs(0));
    for seq in 0..4 {
        state.add(segment(seq));
    }
    state.finish_run(4, None);
    assert_eq!(state.segment(3), None);
    assert!(matches!(state.playlist(false), Playlist::Unavailable));
}
