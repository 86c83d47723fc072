use scream::audio::{
    audio_relay, due_time, enqueue, running_time, step, AudioStep, AudioTimeline, CaptureGate,
    Fanout, PcmChunk, AUDIO_CHUNK, AUDIO_CHUNK_BYTES, AUDIO_QUEUE_CHUNKS,
};
use std::collections::VecDeque;

const MS: u64 = 1_000_000;

fn chunk(due: u64) -> Option<PcmChunk> {
    Some(PcmChunk { due, pcm: vec![1, 2, 3] })
}

// A turn that drains a queue, as a feed loop runs it
fn turn(timeline: &mut AudioTimeline, queue: &mut VecDeque<PcmChunk>, now: u64, base: u64) -> Vec<(u64, usize)> {
    let mut next = timeline.begin(now);
    let mut pushed = Vec::new();
    loop {
        match step(next, now, base, queue.pop_front()) {
            AudioStep::Push { pts, pcm, next: after } => {
                pushed.push((pts, pcm.len()));
                next = after;
            }
            AudioStep::Skip => {}
            AudioStep::Done => break,
        }
    }
    timeline.end(next);
    pushed
}

#[test]
fn running_time_counts_from_the_base() {
    assert_eq!(running_time(Some(70), Some(50)), Some(20));
    assert_eq!(running_time(Some(40), Some(50)), Some(0));
    assert_eq!(running_time(None, Some(50)), None);
    assert_eq!(running_time(Some(40), None), None);
}

#[test]
fn a_chunk_is_due_after_the_jitter() {
    assert_eq!(due_time(5 * MS, 100 * MS), 165 * MS);
}

#[test]
fn a_queue_keeps_the_newest_chunks() {
    let mut queue = VecDeque::new();
    for due in 0..60 {
        enqueue(&mut queue, PcmChunk { due, pcm: vec![] });
    }
    assert_eq!(queue.len(), AUDIO_QUEUE_CHUNKS);
    assert_eq!(queue.front().unwrap().due, 10);
    assert_eq!(queue.back().unwrap().due, 59);
}

#[test]
fn chunks_land_where_they_are_due() {
    match step(0, 500 * MS, 1000 * MS, chunk(1040 * MS)) {
        AudioStep::Push { pts, pcm, next } => {
            assert_eq!((pts, next), (40 * MS, 60 * MS));
            assert_eq!(pcm, vec![1, 2, 3]);
        }
        _ => panic!("not pushed"),
    }
    // A chunk from before the pipeline started lands at its start
    assert!(matches!(step(0, 0, 1000 * MS, chunk(10)), AudioStep::Push { pts: 0, next: AUDIO_CHUNK, .. }));
}

#[test]
fn a_chunk_that_is_covered_is_dropped() {
    assert!(matches!(step(60 * MS, 0, 0, chunk(50 * MS)), AudioStep::Push { .. }));
    assert!(matches!(step(60 * MS + 1, 0, 0, chunk(50 * MS)), AudioStep::Skip));
}

#[test]
fn silence_keeps_the_timeline_going() {
    let mut timeline = AudioTimeline::new();
    let mut queue = VecDeque::new();
    assert!(turn(&mut timeline, &mut queue, 30 * MS, 0).is_empty());
    // Less than the allowance behind
    assert!(turn(&mut timeline, &mut queue, 129 * MS, 0).is_empty());
    assert_eq!(turn(&mut timeline, &mut queue, 130 * MS, 0), vec![(30 * MS, AUDIO_CHUNK_BYTES)]);
    assert_eq!(
        turn(&mut timeline, &mut queue, 200 * MS, 0),
        vec![(50 * MS, 3840), (70 * MS, 3840), (90 * MS, 3840)]
    );
}

#[test]
fn audio_moves_forward_and_padding_spares_it() {
    let mut timeline = AudioTimeline::new();
    let mut queue = VecDeque::new();
    turn(&mut timeline, &mut queue, 0, 0);
    // Padded up to 100 ms behind the clock
    let padded = turn(&mut timeline, &mut queue, 400 * MS, 0);
    assert_eq!(padded.last().unwrap().0, 300 * MS);
    // 80 ms late is still in time, what is older is dropped
    for due in [290, 320, 340, 345, 365] {
        queue.push_back(PcmChunk { due: due * MS, pcm: vec![0] });
    }
    let pushed = turn(&mut timeline, &mut queue, 400 * MS, 0);
    assert_eq!(pushed, vec![(320 * MS, 1), (340 * MS, 1), (365 * MS, 1)]);
    for pair in pushed.windows(2) {
        assert!(pair[1].0 >= pair[0].0 + AUDIO_CHUNK / 2);
    }
}

#[test]
fn the_relay_pipeline_names_its_port() {
    assert_eq!(
        audio_relay(7005),
        "udpsrc port=7005 caps=application/x-rtp,media=audio,encoding-name=OPUS,clock-rate=48000,payload=97 ! rtpjitterbuffer latency=60 mode=none do-lost=true ! rtpopusdepay ! opusdec plc=true ! audioconvert ! audioresample ! audio/x-raw,format=S16LE,rate=48000,channels=2,layout=interleaved ! appsink name=asink sync=false max-buffers=64 drop=true"
    );
}

#[test]
fn every_subscriber_hears_the_whole_stream() {
    let mut fanout = Fanout::new();
    fanout.publish(0, &[9]);
    let a = fanout.subscribe();
    fanout.publish(1, &[1]);
    let b = fanout.subscribe();
    assert_ne!(a, b);
    for due in 2..60 {
        fanout.publish(due, &[due as u8]);
    }
    // A stalled consumer keeps the newest, the other one what came since it joined
    for id in [a, b] {
        let mut heard = Vec::new();
        while let Some(chunk) = fanout.take(id) {
            assert_eq!(chunk.pcm, vec![chunk.due as u8]);
            heard.push(chunk.due);
        }
        assert_eq!(heard, (10..60).collect::<Vec<u64>>());
    }
    fanout.publish(60, &[]);
    fanout.unsubscribe(a);
    assert!(fanout.take(a).is_none());
    assert!(fanout.take(99).is_none());
    let c = fanout.subscribe();
    assert!(fanout.take(c).is_none());
    assert_eq!(fanout.take(b).unwrap().due, 60);
    assert!(fanout.take(b).is_none());
}

#[test]
fn one_capture_runs_at_a_time() {
    let mut gate = CaptureGate::new();
    assert!(!gate.start(0));
    assert!(gate.start(7005));
    assert!(!gate.start(7005));
    assert!(!gate.start(7006));
    assert!(!gate.start(0));
    gate.stop();
    assert!(!gate.start(0));
    assert!(gate.start(7006));
}
