use scream::pipeline::{
    asked_size, canvas_size, hand_over, known_size, output_launch, segment_frames,
    usable_framerate, window_launch, Handover,
};

#[test]
fn the_output_pipeline_has_audio_where_a_port_is_set() {
    let silent = "appsrc name=mysrc is-live=true do-timestamp=true format=time caps=video/x-raw,format=BGRx,width=16,height=16,framerate=30/1 ! queue leaky=downstream max-size-time=200000000 max-size-bytes=0 max-size-buffers=0 ! videoconvert ! video/x-raw,format=I420 ! x264enc speed-preset=ultrafast tune=zerolatency key-int-max=30 ! queue max-size-time=200000000 max-size-bytes=0 max-size-buffers=0 ! rtph264pay name=pay0 pt=96 config-interval=1";
    assert_eq!(output_launch(30, 0), silent);
    assert_eq!(
        output_launch(30, 7005),
        format!("{silent} appsrc name=audiosrc is-live=true format=time caps=audio/x-raw,format=S16LE,rate=48000,channels=2,layout=interleaved ! queue ! audioconvert ! audioresample ! opusenc bitrate=96000 ! queue ! rtpopuspay name=pay1 pt=97")
    );
}

#[test]
fn the_window_pipeline_is_a_placeholder() {
    assert_eq!(
        window_launch(25),
        "videotestsrc ! video/x-raw,format=I420,width=16,height=16,framerate=25/1 ! x264enc speed-preset=ultrafast ! rtph264pay name=pay0 pt=96"
    );
}

#[test]
fn a_frame_rate_is_at_least_one() {
    assert_eq!(usable_framerate(0), 1);
    assert_eq!(usable_framerate(60), 60);
    assert_eq!(segment_frames(60), 60);
    assert_eq!(segment_frames(u32::MAX), u32::MAX);
}

#[test]
fn the_canvas_is_the_one_that_was_asked_for() {
    assert_eq!(asked_size(Some(800), Some(600)), Some((800, 600)));
    assert_eq!(asked_size(Some(800), None), None);
    assert_eq!(asked_size(None, Some(600)), None);
    assert_eq!(known_size(1, 1), Some((1, 1)));
    assert_eq!(known_size(0, 1), None);
    assert_eq!(known_size(1, 0), None);
    assert_eq!(canvas_size(Some((800, 600)), Some((1, 2))), (800, 600));
    assert_eq!(canvas_size(None, Some((1, 2))), (1, 2));
    assert_eq!(canvas_size(None, None), (1920, 1080));
}

#[test]
fn frames_wait_for_the_clock() {
    let mut caps_set = false;
    assert_eq!(hand_over(false, &mut caps_set), Handover::Hold);
    assert!(!caps_set);
    assert_eq!(hand_over(true, &mut caps_set), Handover::First);
    assert_eq!(hand_over(true, &mut caps_set), Handover::Push);
    assert_eq!(hand_over(false, &mut caps_set), Handover::Hold);
    assert!(caps_set);
}
