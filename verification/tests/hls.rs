use scream::hls::{
    check_tables, is_readable, pid, playlist, pmt_pid_from_pat, segment_path, segment_seq, Segment,
    Segmenter, TS_PACKET,
};
use scream::time::Duration;
use std::collections::VecDeque;

fn packet(pid: u16, payload: &[u8]) -> Vec<u8> {
    let mut p = vec![0x47, (pid >> 8) as u8 | 0x40, pid as u8, 0x10];
    p.extend_from_slice(payload);
    p.resize(TS_PACKET, 0xff);
    p
}

fn pat_table() -> Vec<u8> {
    let mut table = vec![0x00, 0x00, 0xb0, 0x0d, 0x00, 0x01, 0xc1, 0x00, 0x00];
    table.extend_from_slice(&[0x00, 0x01, 0xe0, 0x20]);
    table.extend_from_slice(&[0, 0, 0, 0]);
    table
}

// A PAT announcing program 1 on pid 0x20
fn pat() -> Vec<u8> {
    packet(0, &pat_table())
}

// The same table the way mpegtsmux sends it: pushed to the end of the
// packet by a stuffing adaptation field
fn pat_with_adaptation_field() -> Vec<u8> {
    let table = pat_table();
    let stuffing = TS_PACKET - 4 - 1 - table.len();
    let mut p = vec![0x47, 0x40, 0x00, 0x31, stuffing as u8, 0x00];
    p.resize(4 + 1 + stuffing, 0xff);
    p.extend_from_slice(&table);
    assert_eq!(p.len(), TS_PACKET);
    p
}

fn secs(s: u64) -> Duration {
    Duration::from_secs(s)
}

#[test]
fn pmt_pid_is_read_from_the_pat() {
    assert_eq!(pmt_pid_from_pat(&pat()), Some(0x20));
    assert_eq!(pmt_pid_from_pat(&pat_with_adaptation_field()), Some(0x20));
}

#[test]
fn a_pat_without_a_program_has_no_pmt() {
    let mut table = pat_table();
    // Program 0 is the network information
    table[10] = 0;
    assert_eq!(pmt_pid_from_pat(&packet(0, &table)), None);
    // Neither has a section that is too short for a program
    let mut short = pat_table();
    short[3] = 0x05;
    assert_eq!(pmt_pid_from_pat(&packet(0, &short)), None);
    // Nor a payload that starts behind the packet
    assert_eq!(pmt_pid_from_pat(&packet(0, &[184])), None);
}

#[test]
fn tables_that_break_off_are_not_readable() {
    assert!(is_readable(&pat()));
    assert!(is_readable(&pat_with_adaptation_field()));
    assert!(is_readable(&packet(0, &[184])));
    assert!(is_readable(&packet(0, &[180])));
    assert!(!is_readable(&packet(0, &[181])));
    assert!(!is_readable(&packet(0, &[183])));
    assert!(!is_readable(&[0x47, 0x40, 0x00]));
    assert!(!is_readable(&[0x47, 0x40, 0x00, 0x30]));

    let mut stream = packet(0x41, &[1]);
    stream.extend_from_slice(&pat());
    assert!(check_tables(&stream));
    stream.extend_from_slice(&packet(0, &[181]));
    assert!(!check_tables(&stream));
    // Only packets with the identifier of the table count
    assert!(check_tables(&packet(0x41, &[181])));
}

#[test]
fn segments_start_with_tables_and_cut_at_keyframes() {
    let mut seg = Segmenter::new(7);
    let pmt = packet(0x20, &[0x02]);
    let video = packet(0x41, &[1]);
    // mpegtsmux flags its first tables like a keyframe, they are no cut
    assert!(seg.push(&pat(), true, secs(0)).is_none());
    assert!(seg.push(&pmt, true, secs(0)).is_none());
    // A non-keyframe before the first keyframe is dropped
    assert!(seg.push(&video, false, secs(0)).is_none());
    assert!(seg.push(&video, true, secs(1)).is_none());
    // A second flagged packet at the same time is the same keyframe
    assert!(seg.push(&video, true, secs(1)).is_none());
    assert!(seg.push(&video, false, secs(1)).is_none());
    let first = seg.push(&video, true, secs(2)).expect("segment on next keyframe");
    assert_eq!(first.seq, 7);
    assert!(first.discontinuity);
    assert_eq!(first.duration, secs(1));
    assert_eq!(first.data.len(), 5 * TS_PACKET);
    assert_eq!(pid(&first.data[..TS_PACKET]), 0);
    assert_eq!(pid(&first.data[TS_PACKET..2 * TS_PACKET]), 0x20);
    assert_eq!(pid(&first.data[2 * TS_PACKET..3 * TS_PACKET]), 0x41);

    let second = seg.push(&video, true, secs(3)).unwrap();
    assert_eq!(second.seq, 8);
    assert!(!second.discontinuity);
    assert_eq!(second.data.len(), 3 * TS_PACKET);
    assert_eq!(seg.next_seq(), 9);
}

#[test]
fn durations_add_up_and_data_follows_the_keyframe() {
    let mut seg = Segmenter::new(0);
    let key = packet(0x41, &[1]);
    let delta = packet(0x41, &[2]);
    seg.push(&pat(), true, secs(0));
    seg.push(&packet(0x20, &[0x02]), true, secs(0));
    let mut durations = Vec::new();
    for (at, keyframe) in [(1, true), (2, false), (3, true), (4, false), (7, true)] {
        let data = if keyframe { &key } else { &delta };
        if let Some(s) = seg.push(data, keyframe, secs(at)) {
            assert!(s.data.ends_with(&delta));
            assert_eq!(&s.data[2 * TS_PACKET..3 * TS_PACKET], &key[..]);
            durations.push(s.duration.as_secs());
        }
    }
    assert_eq!(durations, vec![2, 4]);
}

#[test]
fn segment_paths_round_trip() {
    assert_eq!(segment_seq(&segment_path(42)), Some(42));
    assert_eq!(segment_seq("/hls/stream.m3u8"), None);
    assert_eq!(segment_seq("/hls/x.ts"), None);
    assert_eq!(segment_seq("/42.ts"), None);
}

#[test]
fn segment_paths_hold_every_number() {
    assert_eq!(segment_path(u64::MAX), "/hls/18446744073709551615.ts");
    assert_eq!(segment_seq("/hls/18446744073709551615.ts"), Some(u64::MAX));
    assert_eq!(segment_seq("/hls/18446744073709551616.ts"), None);
    assert_eq!(segment_seq("/hls/+7.ts"), Some(7));
    assert_eq!(segment_seq("/hls/007.ts"), Some(7));
    assert_eq!(segment_seq("/hls/.ts"), None);
    assert_eq!(segment_seq("/hls/-1.ts"), None);
}

fn ring_of(durations: &[Duration]) -> VecDeque<Segment> {
    let mut ring = VecDeque::new();
    for (i, d) in durations.iter().enumerate() {
        ring.push_back(Segment { seq: i as u64, duration: *d, data: vec![], discontinuity: false });
    }
    ring
}

#[test]
fn playlist_lists_the_newest_segments() {
    let ring: VecDeque<Segment> = (0..6).map(|seq| Segment {
        seq, duration: Duration::from_millis(1000), data: vec![], discontinuity: seq == 0,
    }).collect();
    let m3u8 = playlist(&ring);
    assert!(m3u8.starts_with("#EXTM3U\n#EXT-X-VERSION:3\n#EXT-X-TARGETDURATION:1\n#EXT-X-MEDIA-SEQUENCE:2\n"));
    assert!(!m3u8.contains("/hls/1.ts"));
    assert!(m3u8.contains("#EXTINF:1.000,\n/hls/2.ts\n"));
    assert!(m3u8.ends_with("/hls/5.ts\n"));
    assert!(!m3u8.contains("DISCONTINUITY"));
    assert!(!m3u8.contains("ENDLIST"));
}

#[test]
fn playlist_marks_a_new_timeline_and_rounds_target_up() {
    let ring: VecDeque<Segment> = vec![Segment {
        seq: 3, duration: Duration::from_millis(1600), data: vec![], discontinuity: true,
    }].into();
    let m3u8 = playlist(&ring);
    assert!(m3u8.contains("#EXT-X-TARGETDURATION:2\n"));
    assert!(m3u8.contains("#EXT-X-DISCONTINUITY\n#EXTINF:1.600,\n/hls/3.ts\n"));
}

#[test]
fn an_empty_ring_has_a_playlist_of_nothing() {
    assert_eq!(
        playlist(&VecDeque::new()),
        "#EXTM3U\n#EXT-X-VERSION:3\n#EXT-X-TARGETDURATION:1\n#EXT-X-MEDIA-SEQUENCE:0\n"
    );
}

#[test]
fn durations_are_shown_as_the_float_shows_them() {
    for (secs, nanos) in [
        (0, 0), (0, 999_500_000), (0, 999_499_999), (1, 500_000), (1, 1_500_000), (2, 500_000),
        (33, 366_700_000), (1_048_575, 999_499_999), (1_048_576, 500_000), (5_000_000_000, 123_456_789),
        (7, 999_999_999), (0, 1), (3, 2_500_000),
    ] {
        let shown = format!("{:.3}", std::time::Duration::new(secs, nanos).as_secs_f64());
        let m3u8 = playlist(&ring_of(&[Duration::new(secs, nanos)]));
        assert!(m3u8.contains(&format!("#EXTINF:{shown},\n")), "{secs} {nanos}: {m3u8}");
    }
    // A sweep over the spans for which the text is the nearest millisecond
    let mut nanos: u32 = 1;
    while nanos < 1_000_000_000 {
        if nanos % 1_000_000 != 500_000 {
            let millis = (12_345u64 * 1_000_000_000 + nanos as u64 + 500_000) / 1_000_000;
            let m3u8 = playlist(&ring_of(&[Duration::new(12_345, nanos)]));
            assert!(m3u8.contains(&format!("#EXTINF:{}.{:03},\n", millis / 1000, millis % 1000)));
        }
        nanos += 999_983;
    }
}

#[test]
fn the_target_covers_the_longest_segment() {
    let target = |d: Duration| {
        let m3u8 = playlist(&ring_of(&[d, Duration::from_millis(1000)]));
        let line = m3u8.lines().nth(2).unwrap().to_string();
        line["#EXT-X-TARGETDURATION:".len()..].parse::<u32>().unwrap()
    };
    assert_eq!(target(Duration::from_millis(1499)), 1);
    assert_eq!(target(Duration::from_millis(1500)), 2);
    assert_eq!(target(Duration::from_millis(200)), 1);
    assert_eq!(target(Duration::from_millis(9_700)), 10);
    assert_eq!(target(Duration::from_secs(5_000_000_000)), u32::MAX);
    // A long span is rounded as its floating point number is
    assert_eq!(target(Duration::new(16_777_216, 499_999_999)), 16_777_217);
    for (secs, nanos) in [
        (0, 500_000_000), (7, 499_999_999), (1_048_575, 499_999_999), (1_048_575, 500_000_000),
        (1_048_576, 499_999_999), (8_388_608, 499_999_999), (4_294_967_294, 500_000_000),
    ] {
        let rounded = std::time::Duration::new(secs, nanos).as_secs_f64().round() as u32;
        assert_eq!(target(Duration::new(secs, nanos)), rounded.max(1));
    }
}
