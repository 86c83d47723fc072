use scream::capture::{
    bind_for_capture, bind_for_watch, gst_video_format, shm_layout, Global, Session, SessionEvent,
    ShmFormat, ShmLayout, Step,
};

#[test]
fn an_output_capture_binds_the_first_output() {
    assert_eq!(bind_for_capture("wl_output", 9, false, false), Some((Global::Output, 4)));
    assert_eq!(bind_for_capture("wl_output", 2, false, false), Some((Global::Output, 2)));
    assert_eq!(bind_for_capture("wl_output", 4, false, true), None);
    assert_eq!(
        bind_for_capture("ext_output_image_capture_source_manager_v1", 3, false, true),
        Some((Global::OutputSources, 1))
    );
    assert_eq!(bind_for_capture("ext_foreign_toplevel_list_v1", 1, false, false), None);
}

#[test]
fn a_window_capture_binds_the_list() {
    assert_eq!(bind_for_capture("wl_output", 4, true, false), None);
    assert_eq!(
        bind_for_capture("ext_foreign_toplevel_list_v1", 1, true, false),
        Some((Global::ToplevelList, 1))
    );
    assert_eq!(
        bind_for_capture("ext_foreign_toplevel_image_capture_source_manager_v1", 1, true, false),
        Some((Global::ToplevelSources, 1))
    );
    assert_eq!(bind_for_capture("wl_shm", 2, true, false), Some((Global::Shm, 1)));
    assert_eq!(
        bind_for_capture("ext_image_copy_capture_manager_v1", 1, false, false),
        Some((Global::CaptureManager, 1))
    );
    assert_eq!(bind_for_capture("wl_seat", 1, true, false), None);
}

#[test]
fn the_watch_binds_outputs_until_it_knows_a_size() {
    assert_eq!(bind_for_watch("wl_output", 4, 0), Some((Global::Output, 2)));
    assert_eq!(bind_for_watch("wl_output", 4, 1920), None);
    assert_eq!(
        bind_for_watch("ext_foreign_toplevel_list_v1", 1, 1920),
        Some((Global::ToplevelList, 1))
    );
    assert_eq!(bind_for_watch("wl_shm", 1, 0), None);
}

#[test]
fn pixel_formats_have_names() {
    assert_eq!(gst_video_format(ShmFormat::Argb8888), Some("BGRA"));
    assert_eq!(gst_video_format(ShmFormat::Xrgb8888), Some("BGRx"));
    assert_eq!(gst_video_format(ShmFormat::Other), None);
}

#[test]
fn a_pixel_takes_four_bytes() {
    assert_eq!(shm_layout(3, 2), ShmLayout { stride: 12, size: 24 });
    assert_eq!(shm_layout(16384, 16384), ShmLayout { stride: 65536, size: 1 << 30 });
}

fn constrain(session: &mut Session, width: u32, height: u32, format: ShmFormat) {
    session.event(SessionEvent::BufferSize { width, height });
    session.event(SessionEvent::Format { format });
    session.event(SessionEvent::Done);
}

#[test]
fn a_session_captures_frame_after_frame() {
    let mut session = Session::new();
    assert_eq!(session.advance(false), Step::Dispatch);
    session.event(SessionEvent::Format { format: ShmFormat::Other });
    constrain(&mut session, 640, 480, ShmFormat::Xrgb8888);
    session.event(SessionEvent::Format { format: ShmFormat::Argb8888 });
    assert_eq!(
        session.advance(false),
        Step::Capture { width: 640, height: 480, fresh: Some(ShmFormat::Xrgb8888) }
    );
    assert_eq!(session.advance(false), Step::Dispatch);
    session.event(SessionEvent::FrameReady);
    assert_eq!(
        session.advance(false),
        Step::Publish { width: 640, height: 480, format: ShmFormat::Xrgb8888 }
    );
    assert_eq!(session.advance(false), Step::Capture { width: 640, height: 480, fresh: None });
    session.event(SessionEvent::FrameFailed);
    assert_eq!(session.advance(false), Step::Retry);
    assert_eq!(session.advance(false), Step::Capture { width: 640, height: 480, fresh: None });
}

#[test]
fn new_constraints_take_effect_with_the_next_frame() {
    let mut session = Session::new();
    constrain(&mut session, 640, 480, ShmFormat::Xrgb8888);
    session.advance(false);
    constrain(&mut session, 800, 600, ShmFormat::Argb8888);
    session.event(SessionEvent::FrameReady);
    assert_eq!(
        session.advance(false),
        Step::Publish { width: 640, height: 480, format: ShmFormat::Xrgb8888 }
    );
    assert_eq!(
        session.advance(false),
        Step::Capture { width: 800, height: 600, fresh: Some(ShmFormat::Argb8888) }
    );
    // The same size again needs no other buffer
    constrain(&mut session, 800, 600, ShmFormat::Xrgb8888);
    session.event(SessionEvent::FrameReady);
    session.advance(false);
    assert_eq!(session.advance(false), Step::Capture { width: 800, height: 600, fresh: None });
    session.event(SessionEvent::FrameReady);
    assert_eq!(
        session.advance(false),
        Step::Publish { width: 800, height: 600, format: ShmFormat::Xrgb8888 }
    );
}

#[test]
fn constraints_that_cannot_be_met_end_the_session() {
    for (width, height, format) in [
        (0, 480, ShmFormat::Xrgb8888),
        (640, 0, ShmFormat::Xrgb8888),
        (16385, 480, ShmFormat::Xrgb8888),
        (640, 16385, ShmFormat::Xrgb8888),
        (640, 480, ShmFormat::Other),
    ] {
        let mut session = Session::new();
        constrain(&mut session, width, height, format);
        assert_eq!(session.advance(false), Step::Stop);
    }
}

#[test]
fn a_stopped_session_ends() {
    let mut session = Session::new();
    session.event(SessionEvent::Stopped);
    assert_eq!(session.advance(false), Step::Stop);

    let mut called_off = Session::new();
    constrain(&mut called_off, 640, 480, ShmFormat::Xrgb8888);
    assert_eq!(called_off.advance(true), Step::Stop);

    // A frame that was ready before is still published
    let mut capturing = Session::new();
    constrain(&mut capturing, 640, 480, ShmFormat::Xrgb8888);
    capturing.advance(false);
    capturing.event(SessionEvent::FrameReady);
    capturing.event(SessionEvent::Stopped);
    assert!(matches!(capturing.advance(false), Step::Publish { .. }));
    assert_eq!(capturing.advance(false), Step::Stop);
}
