//! What a capture thread decides: which globals it binds, which window it captures, and how a
//! capture session goes from the compositor's constraints to one frame after the other.
use crate::text::same;
use vstd::prelude::*;
use vstd::string::*;

verus! {

// ---------------------------------------------------------------------------
// Globals

/// A global that a capture uses.
#[derive(Debug, Clone, Copy, PartialEq, Eq, Structural)]
pub enum Global {
    Shm,
    CaptureManager,
    Output,
    OutputSources,
    ToplevelList,
    ToplevelSources,
}

/// The smaller of two versions.
pub open spec fn at_most(version: u32, limit: u32) -> u32 {
    if version <= limit {
        version
    } else {
        limit
    }
}

fn capped(version: u32, limit: u32) -> (r: u32)
    ensures
        r == at_most(version, limit),
{
    if version <= limit {
        version
    } else {
        limit
    }
}

/// The global that a capture binds for an interface, and in which version. An output capture binds
/// the first output and its source manager, a capture of a toplevel the toplevel list, to find its
/// handle by identifier, and that source manager.
pub open spec fn bound(
    interface: Seq<char>,
    version: u32,
    toplevel: bool,
    has_output: bool,
) -> Option<(Global, u32)> {
    if interface == "wl_shm"@ {
        Some((Global::Shm, at_most(version, 1)))
    } else if interface == "ext_image_copy_capture_manager_v1"@ {
        Some((Global::CaptureManager, at_most(version, 1)))
    } else if interface == "wl_output"@ && !toplevel && !has_output {
        Some((Global::Output, at_most(version, 4)))
    } else if interface == "ext_output_image_capture_source_manager_v1"@ && !toplevel {
        Some((Global::OutputSources, at_most(version, 1)))
    } else if interface == "ext_foreign_toplevel_list_v1"@ && toplevel {
        Some((Global::ToplevelList, at_most(version, 1)))
    } else if interface == "ext_foreign_toplevel_image_capture_source_manager_v1"@ && toplevel {
        Some((Global::ToplevelSources, at_most(version, 1)))
    } else {
        None
    }
}

/// The global that a capture binds for an interface, and in which version.
pub fn bind_for_capture(interface: &str, version: u32, toplevel: bool, has_output: bool) -> (r:
    Option<(Global, u32)>)
    ensures
        r == bound(interface@, version, toplevel, has_output),
{
    if same(interface, "wl_shm") {
        Some((Global::Shm, capped(version, 1)))
    } else if same(interface, "ext_image_copy_capture_manager_v1") {
        Some((Global::CaptureManager, capped(version, 1)))
    } else if same(interface, "wl_output") && !toplevel && !has_output {
        Some((Global::Output, capped(version, 4)))
    } else if same(interface, "ext_output_image_capture_source_manager_v1") && !toplevel {
        Some((Global::OutputSources, capped(version, 1)))
    } else if same(interface, "ext_foreign_toplevel_list_v1") && toplevel {
        Some((Global::ToplevelList, capped(version, 1)))
    } else if same(interface, "ext_foreign_toplevel_image_capture_source_manager_v1") && toplevel {
        Some((Global::ToplevelSources, capped(version, 1)))
    } else {
        None
    }
}

/// The global that the watch on the windows binds for an interface, and in which version. It needs
/// no further output once it knows the size of one.
pub open spec fn watched(interface: Seq<char>, version: u32, output_w: u32) -> Option<
    (Global, u32),
> {
    if interface == "wl_output"@ && output_w == 0 {
        Some((Global::Output, at_most(version, 2)))
    } else if interface == "ext_foreign_toplevel_list_v1"@ {
        Some((Global::ToplevelList, at_most(version, 1)))
    } else {
        None
    }
}

/// The global that the watch on the windows binds for an interface, and in which version.
pub fn bind_for_watch(interface: &str, version: u32, output_w: u32) -> (r: Option<(Global, u32)>)
    ensures
        r == watched(interface@, version, output_w),
{
    if same(interface, "wl_output") && output_w == 0 {
        Some((Global::Output, capped(version, 2)))
    } else if same(interface, "ext_foreign_toplevel_list_v1") {
        Some((Global::ToplevelList, capped(version, 1)))
    } else {
        None
    }
}

// ---------------------------------------------------------------------------
// Buffers

/// The pixel formats that the compositor can offer.
#[derive(Debug, Clone, Copy, PartialEq, Eq, Structural)]
pub enum ShmFormat {
    Argb8888,
    Xrgb8888,
    Other,
}

/// What the encoders call a pixel format, `None` for one that they are not fed.
pub fn gst_video_format(format: ShmFormat) -> (r: Option<&'static str>)
    ensures
        match format {
            ShmFormat::Argb8888 => r is Some && (r->0)@ == "BGRA"@,
            ShmFormat::Xrgb8888 => r is Some && (r->0)@ == "BGRx"@,
            ShmFormat::Other => r is None,
        },
{
    match format {
        ShmFormat::Argb8888 => Some("BGRA"),
        ShmFormat::Xrgb8888 => Some("BGRx"),
        ShmFormat::Other => None,
    }
}

/// The largest width or height that is captured.
pub const MAX_SIDE: u32 = 16384;

/// Whether a frame of this size is captured.
pub open spec fn fits(width: u32, height: u32) -> bool {
    0 < width <= MAX_SIDE && 0 < height <= MAX_SIDE
}

/// How the pixels of a frame lie in a buffer.
#[derive(Debug, Clone, Copy, PartialEq, Eq, Structural)]
pub struct ShmLayout {
    /// The bytes from one row to the next.
    pub stride: i32,
    /// The bytes of the whole buffer.
    pub size: i32,
}

/// How the pixels of a frame lie in a buffer, four bytes each.
pub fn shm_layout(width: u32, height: u32) -> (r: ShmLayout)
    requires
        fits(width, height),
    ensures
        r.stride == width * 4,
        r.size == width * 4 * height,
{
    assert(width * 4 * height <= 0x4000_0000) by (nonlinear_arith)
        requires
            width <= 16384,
            height <= 16384,
    ;
    let stride: u32 = width * 4;
    let size: u32 = stride * height;
    ShmLayout { stride: stride as i32, size: size as i32 }
}

// ---------------------------------------------------------------------------
// The session

/// What the compositor reports about a capture session and its frames.
#[derive(Debug, Clone, Copy, PartialEq, Eq, Structural)]
pub enum SessionEvent {
    /// The size of the buffers it takes.
    BufferSize { width: u32, height: u32 },
    /// A pixel format that it takes.
    Format { format: ShmFormat },
    /// All constraints were named.
    Done,
    /// The session is over.
    Stopped,
    /// The frame is in the buffer.
    FrameReady,
    /// There will be no frame.
    FrameFailed,
}

/// How far a session has come.
#[derive(Debug, Clone, Copy, PartialEq, Eq, Structural)]
pub enum Phase {
    /// Its constraints are not known yet.
    Starting,
    /// The next frame can be asked for.
    Idle,
    /// A frame was asked for.
    Capturing,
}

/// What a capture thread does next.
#[derive(Debug, Clone, Copy, PartialEq, Eq, Structural)]
pub enum Step {
    /// Wait for events. If the connection is gone, stop.
    Dispatch,
    /// Ask for a frame of this size, into a new buffer of this format if one is named.
    Capture { width: u32, height: u32, fresh: Option<ShmFormat> },
    /// The frame is there: drop the request and publish the pixels.
    Publish { width: u32, height: u32, format: ShmFormat },
    /// The frame failed: drop the request and try again in a tenth of a second.
    Retry,
    /// The capture is over.
    Stop,
}

/// The buffer of a session: its size, and the format of what is captured into it.
#[derive(Debug, Clone, Copy, PartialEq, Eq, Structural)]
pub struct Buffer {
    pub width: u32,
    pub height: u32,
    pub format: ShmFormat,
}

/// A capture session, as the events and the steps leave it.
#[derive(Debug, Clone, Copy, PartialEq, Eq, Structural)]
pub struct Session {
    pub phase: Phase,
    /// The size that the compositor named last.
    pub width: u32,
    pub height: u32,
    /// The first usable format that it named since the last constraints.
    pub format: Option<ShmFormat>,
    /// Constraints that were named and not yet acted on.
    pub dirty: bool,
    pub stopped: bool,
    pub buffer: Option<Buffer>,
    /// Whether the frame under way is ready, or has failed.
    pub frame: Option<bool>,
}

/// Whether a frame can be captured in this format.
pub open spec fn usable(format: ShmFormat) -> bool {
    format != ShmFormat::Other
}

impl Session {
    /// A buffer has a size that is captured and a usable format, and there is one while a frame is
    /// under way.
    pub open spec fn valid(self) -> bool {
        &&& self.format is Some ==> usable(self.format->0)
        &&& self.buffer is Some ==> fits(self.buffer->0.width, self.buffer->0.height) && usable(
            self.buffer->0.format,
        )
        &&& self.phase == Phase::Capturing ==> self.buffer is Some
    }

    /// The session after an event.
    pub open spec fn told(self, event: SessionEvent) -> Session {
        match event {
            SessionEvent::BufferSize { width, height } => Session { width, height, ..self },
            SessionEvent::Format { format } => if self.format is None && usable(format) {
                Session { format: Some(format), ..self }
            } else {
                self
            },
            SessionEvent::Done => Session { dirty: true, ..self },
            SessionEvent::Stopped => Session { stopped: true, ..self },
            SessionEvent::FrameReady => Session { frame: Some(true), ..self },
            SessionEvent::FrameFailed => Session { frame: Some(false), ..self },
        }
    }

    /// Whether the constraints that were named last allow a capture.
    pub open spec fn acceptable(self) -> bool {
        self.format is Some && fits(self.width, self.height)
    }

    /// What asking for the next frame comes to: the session after it, and the step.
    pub open spec fn asked(self) -> (Session, Step) {
        if self.dirty && !self.acceptable() {
            (Session { dirty: false, format: None, ..self }, Step::Stop)
        } else if self.dirty {
            let format = self.format->0;
            let fits_already = self.buffer is Some && self.buffer->0.width == self.width
                && self.buffer->0.height == self.height;
            (
                Session {
                    phase: Phase::Capturing,
                    dirty: false,
                    format: None,
                    buffer: Some(Buffer { width: self.width, height: self.height, format }),
                    frame: None,
                    ..self
                },
                Step::Capture {
                    width: self.width,
                    height: self.height,
                    fresh: if fits_already {
                        None
                    } else {
                        Some(format)
                    },
                },
            )
        } else {
            match self.buffer {
                Some(buffer) => (
                    Session { phase: Phase::Capturing, frame: None, ..self },
                    Step::Capture { width: buffer.width, height: buffer.height, fresh: None },
                ),
                None => (self, Step::Dispatch),
            }
        }
    }

    /// What comes of a session next, and what it then is. `stop` says whether the capture was
    /// called off.
    pub open spec fn advanced(self, stop: bool) -> (Session, Step) {
        let over = stop || self.stopped;
        match self.phase {
            Phase::Starting => if !self.dirty && !over {
                (self, Step::Dispatch)
            } else if over {
                (Session { phase: Phase::Idle, ..self }, Step::Stop)
            } else {
                Session { phase: Phase::Idle, ..self }.asked()
            },
            Phase::Idle => if over {
                (self, Step::Stop)
            } else {
                self.asked()
            },
            Phase::Capturing => match self.frame {
                Some(ready) => (
                    Session { phase: Phase::Idle, frame: None, ..self },
                    if ready {
                        Step::Publish {
                            width: self.buffer->0.width,
                            height: self.buffer->0.height,
                            format: self.buffer->0.format,
                        }
                    } else {
                        Step::Retry
                    },
                ),
                None => if over {
                    (Session { phase: Phase::Idle, ..self }, Step::Stop)
                } else {
                    (self, Step::Dispatch)
                },
            },
        }
    }

    /// A session whose constraints are not known yet.
    pub fn new() -> (r: Session)
        ensures
            r == (Session {
                phase: Phase::Starting,
                width: 0,
                height: 0,
                format: None,
                dirty: false,
                stopped: false,
                buffer: None,
                frame: None,
            }),
            r.valid(),
    {
        Session {
            phase: Phase::Starting,
            width: 0,
            height: 0,
            format: None,
            dirty: false,
            stopped: false,
            buffer: None,
            frame: None,
        }
    }

    /// Takes note of an event.
    pub fn event(&mut self, event: SessionEvent)
        ensures
            *final(self) == old(self).told(event),
            old(self).valid() ==> final(self).valid(),
    {
        match event {
            SessionEvent::BufferSize { width, height } => {
                self.width = width;
                self.height = height;
            },
            SessionEvent::Format { format } => {
                if self.format.is_none() && format != ShmFormat::Other {
                    self.format = Some(format);
                }
            },
            SessionEvent::Done => {
                self.dirty = true;
            },
            SessionEvent::Stopped => {
                self.stopped = true;
            },
            SessionEvent::FrameReady => {
                self.frame = Some(true);
            },
            SessionEvent::FrameFailed => {
                self.frame = Some(false);
            },
        }
    }

    fn ask(&mut self) -> (r: Step)
        requires
            old(self).valid(),
        ensures
            (*final(self), r) == old(self).asked(),
            final(self).valid(),
    {
        let mut fresh: Option<ShmFormat> = None;
        if self.dirty {
            self.dirty = false;
            let format = self.format;
            self.format = None;
            let format = match format {
                Some(format) => format,
                None => {
                    return Step::Stop;
                },
            };
            if self.width == 0 || self.height == 0 || self.width > MAX_SIDE || self.height
                > MAX_SIDE {
                return Step::Stop;
            }
            fresh = match self.buffer {
                Some(buffer) => if buffer.width == self.width && buffer.height == self.height {
                    None
                } else {
                    Some(format)
                },
                None => Some(format),
            };
            self.buffer = Some(Buffer { width: self.width, height: self.height, format });
        }
        match self.buffer {
            Some(buffer) => {
                self.phase = Phase::Capturing;
                self.frame = None;
                Step::Capture { width: buffer.width, height: buffer.height, fresh }
            },
            None => Step::Dispatch,
        }
    }

    /// Waits for the session's constraints, then captures frame after frame until the session
    /// stops or is called off.
    pub fn advance(&mut self, stop: bool) -> (r: Step)
        requires
            old(self).valid(),
        ensures
            (*final(self), r) == old(self).advanced(stop),
            final(self).valid(),
    {
        let over = stop || self.stopped;
        match self.phase {
            Phase::Starting => {
                if !self.dirty && !over {
                    return Step::Dispatch;
                }
                self.phase = Phase::Idle;
                if over {
                    return Step::Stop;
                }
                self.ask()
            },
            Phase::Idle => {
                if over {
                    return Step::Stop;
                }
                self.ask()
            },
            Phase::Capturing => {
                match self.frame {
                    Some(ready) => {
                        self.phase = Phase::Idle;
                        self.frame = None;
                        match self.buffer {
                            Some(buffer) => if ready {
                                Step::Publish {
                                    width: buffer.width,
                                    height: buffer.height,
                                    format: buffer.format,
                                }
                            } else {
                                Step::Retry
                            },
                            None => Step::Stop,
                        }
                    },
                    None => {
                        if over {
                            self.phase = Phase::Idle;
                            Step::Stop
                        } else {
                            Step::Dispatch
                        }
                    },
                }
            },
        }
    }
}

// ---------------------------------------------------------------------------
// Laws

impl Session {
    /// The session after some events.
    pub open spec fn told_all(self, events: Seq<SessionEvent>) -> Session
        decreases events.len(),
    {
        if events.len() == 0 {
            self
        } else {
            self.told_all(events.drop_last()).told(events.last())
        }
    }
}

proof fn lemma_events_keep_the_frame(session: Session, events: Seq<SessionEvent>)
    ensures
        session.told_all(events).phase == session.phase,
        session.told_all(events).buffer == session.buffer,
        session.stopped ==> session.told_all(events).stopped,
        session.valid() ==> session.told_all(events).valid(),
    decreases events.len(),
{
    if events.len() > 0 {
        lemma_events_keep_the_frame(session, events.drop_last());
    }
}

/// A frame is published with the size that it was asked for with, whatever the compositor reports
/// in between, and in a format that the encoders are fed.
pub proof fn law_frames_are_published_as_asked(
    session: Session,
    called_off: bool,
    events: Seq<SessionEvent>,
    stop: bool,
)
    requires
        session.valid(),
        session.advanced(called_off).1 is Capture,
        session.advanced(called_off).0.told_all(events).advanced(stop).1 is Publish,
    ensures
        ({
            let asked = session.advanced(called_off).1;
            let published = session.advanced(called_off).0.told_all(events).advanced(stop).1;
            &&& published->Publish_width == asked->Capture_width
            &&& published->Publish_height == asked->Capture_height
            &&& fits(published->Publish_width, published->Publish_height)
            &&& usable(published->Publish_format)
        }),
{
    lemma_events_keep_the_frame(session.advanced(called_off).0, events);
}

/// A session that has stopped ends: it neither waits nor asks for a frame any more, whatever the
/// compositor still reports.
pub proof fn law_stopped_session_ends(session: Session, events: Seq<SessionEvent>, stop: bool)
    requires
        session.stopped,
    ensures
        !(session.told_all(events).advanced(stop).1 is Dispatch),
        !(session.told_all(events).advanced(stop).1 is Capture),
{
    lemma_events_keep_the_frame(session, events);
}

/// Only one frame is under way: while one is, none is asked for.
pub proof fn law_one_frame_at_a_time(session: Session, stop: bool)
    requires
        session.phase == Phase::Capturing,
    ensures
        !(session.advanced(stop).1 is Capture),
{
}

/// A buffer is kept for as long as the size stays the same.
pub proof fn law_buffers_are_reused(session: Session, stop: bool)
    requires
        session.advanced(stop).1 is Capture,
        session.buffer is Some,
        session.buffer->0.width == session.width,
        session.buffer->0.height == session.height,
    ensures
        session.advanced(stop).1->fresh is None,
{
}

/// A version is never above the one offered nor above the limit, and no lower than that asks for.
pub proof fn law_versions_are_capped(version: u32, limit: u32)
    ensures
        at_most(version, limit) <= version,
        at_most(version, limit) <= limit,
        at_most(version, limit) == version || at_most(version, limit) == limit,
{
}

proof fn lemma_interfaces_differ()
    ensures
        "wl_shm"@.len() == 6,
        "wl_output"@.len() == 9,
        "ext_image_copy_capture_manager_v1"@.len() == 33,
        "ext_output_image_capture_source_manager_v1"@.len() == 42,
        "ext_foreign_toplevel_list_v1"@.len() == 28,
        "ext_foreign_toplevel_image_capture_source_manager_v1"@.len() == 52,
{
    reveal_strlit("wl_shm");
    reveal_strlit("wl_output");
    reveal_strlit("ext_image_copy_capture_manager_v1");
    reveal_strlit("ext_output_image_capture_source_manager_v1");
    reveal_strlit("ext_foreign_toplevel_list_v1");
    reveal_strlit("ext_foreign_toplevel_image_capture_source_manager_v1");
}

/// Every capture binds the shared memory and the capture manager; one of an output binds the first
/// output, in a version up to 4, and its sources, one of a toplevel the list and its sources.
/// Nothing else is bound, and no version is above the one offered.
pub proof fn law_capture_binds(interface: Seq<char>, version: u32, toplevel: bool, has_output: bool)
    ensures
        ({
            let r = bound(interface, version, toplevel, has_output);
            let one: u32 = if version == 0 {
                0
            } else {
                1
            };
            &&& interface == "wl_shm"@ ==> r == Some((Global::Shm, one))
            &&& interface == "ext_image_copy_capture_manager_v1"@ ==> r == Some(
                (Global::CaptureManager, one),
            )
            &&& interface == "wl_output"@ ==> if toplevel || has_output {
                r is None
            } else {
                r is Some && (r->0).0 == Global::Output && (r->0).1 <= version && (r->0).1 <= 4 && (
                version <= 4 ==> (r->0).1 == version) && (version > 4 ==> (r->0).1 == 4)
            }
            &&& interface == "ext_output_image_capture_source_manager_v1"@ ==> r == if toplevel {
                None
            } else {
                Some((Global::OutputSources, one))
            }
            &&& interface == "ext_foreign_toplevel_list_v1"@ ==> r == if toplevel {
                Some((Global::ToplevelList, one))
            } else {
                None
            }
            &&& interface == "ext_foreign_toplevel_image_capture_source_manager_v1"@ ==> r
                == if toplevel {
                Some((Global::ToplevelSources, one))
            } else {
                None
            }
            &&& r is Some ==> interface == "wl_shm"@ || interface
                == "ext_image_copy_capture_manager_v1"@ || interface == "wl_output"@ || interface
                == "ext_output_image_capture_source_manager_v1"@ || interface
                == "ext_foreign_toplevel_list_v1"@ || interface
                == "ext_foreign_toplevel_image_capture_source_manager_v1"@
        }),
{
    lemma_interfaces_differ();
}

/// The watch binds an output, in a version up to 2, until it knows the width of one, and the list.
pub proof fn law_watch_binds(interface: Seq<char>, version: u32, output_w: u32)
    ensures
        ({
            let r = watched(interface, version, output_w);
            &&& interface == "wl_output"@ ==> if output_w > 0 {
                r is None
            } else {
                r is Some && (r->0).0 == Global::Output && (version <= 2 ==> (r->0).1 == version) && (
                version > 2 ==> (r->0).1 == 2)
            }
            &&& interface == "ext_foreign_toplevel_list_v1"@ ==> r is Some && (r->0).0
                == Global::ToplevelList && (version <= 1 ==> (r->0).1 == version) && (version > 1
                ==> (r->0).1 == 1)
            &&& interface != "wl_output"@ && interface != "ext_foreign_toplevel_list_v1"@ ==> r
                is None
        }),
{
    lemma_interfaces_differ();
}

/// What is fed to the encoders has a name there, and nothing else has.
pub proof fn law_formats_with_a_name(format: ShmFormat, r: Option<&'static str>)
    requires
        call_ensures(gst_video_format, (format,), r),
    ensures
        r is Some <==> usable(format),
        usable(format) <==> format == ShmFormat::Argb8888 || format == ShmFormat::Xrgb8888,
{
}

/// A row of a buffer holds four bytes for each pixel, and the buffer every row.
pub proof fn law_shm_layout(width: u32, height: u32, r: ShmLayout)
    requires
        fits(width, height),
        call_ensures(shm_layout, (width, height), r),
    ensures
        r.stride == 4 * width,
        r.size == r.stride * height,
        0 < r.size <= 0x4000_0000,
{
    assert(0 < width * 4 * height <= 0x4000_0000) by (nonlinear_arith)
        requires
            0 < width <= 16384,
            0 < height <= 16384,
    ;
}

/// An event changes what it reports, and nothing else: the size that was named last, the first
/// usable format, that the constraints are complete, that the session is over, or what became of
/// the frame.
pub proof fn law_event_is_noted(session: Session, event: SessionEvent)
    ensures
        ({
            let r = session.told(event);
            &&& r.phase == session.phase && r.buffer == session.buffer
            &&& r.width == (match event {
                SessionEvent::BufferSize { width, .. } => width,
                _ => session.width,
            })
            &&& r.height == (match event {
                SessionEvent::BufferSize { height, .. } => height,
                _ => session.height,
            })
            &&& session.format is Some ==> r.format == session.format
            &&& session.format is None ==> r.format == (match event {
                SessionEvent::Format { format } => if format == ShmFormat::Other {
                    None
                } else {
                    Some(format)
                },
                _ => None,
            })
            &&& r.dirty == (session.dirty || event is Done)
            &&& r.stopped == (session.stopped || event is Stopped)
            &&& event is FrameReady ==> r.frame == Some(true)
            &&& event is FrameFailed ==> r.frame == Some(false)
            &&& !(event is FrameReady) && !(event is FrameFailed) ==> r.frame == session.frame
        }),
{
}

/// With new constraints a frame is asked for exactly if a usable format was named and each side has
/// between 1 and 16384 pixels; it has the size that was named, and a new buffer in that format
/// unless the old one has the size. The capture ends otherwise. Without new constraints the last
/// size is asked for again, and events are awaited where there is none.
pub proof fn law_next_frame(session: Session)
    ensures
        ({
            let (after, step) = session.asked();
            let good = session.format is Some && 1 <= session.width <= 16384 && 1 <= session.height
                <= 16384;
            &&& session.dirty && !good ==> step is Stop && after.phase == session.phase
                && after.buffer == session.buffer
            &&& session.dirty && good ==> {
                &&& step is Capture && step->Capture_width == session.width
                    && step->Capture_height == session.height
                &&& step->fresh is None <==> session.buffer is Some && session.buffer->0.width
                    == session.width && session.buffer->0.height == session.height
                &&& step->fresh is Some ==> step->fresh == session.format
                &&& after.phase == Phase::Capturing && after.buffer is Some
                &&& after.buffer->0.width == session.width && after.buffer->0.height
                    == session.height && after.buffer->0.format == session.format->0
            }
            &&& session.dirty ==> !after.dirty && after.format is None
            &&& !session.dirty ==> after.dirty == session.dirty && after.format == session.format
                && after.buffer == session.buffer
            &&& !session.dirty && session.buffer is Some ==> step is Capture && step->fresh is None
                && step->Capture_width == session.buffer->0.width && step->Capture_height
                == session.buffer->0.height && after.phase == Phase::Capturing
            &&& !session.dirty && session.buffer is None ==> step is Dispatch && after == session
            &&& step is Capture ==> after.frame is None
            &&& after.width == session.width && after.height == session.height && after.stopped
                == session.stopped
        }),
{
}

/// How a session goes on: it waits for its first constraints, asks for a frame, waits for it,
/// publishes it or tries again, and asks for the next. Once it is over it stops, but for a frame
/// that has come.
pub proof fn law_session_goes_on(session: Session, stop: bool)
    ensures
        ({
            let (after, step) = session.advanced(stop);
            let over = stop || session.stopped;
            &&& session.phase == Phase::Starting && !over && !session.dirty ==> step is Dispatch
                && after == session
            &&& session.phase != Phase::Capturing && over ==> step is Stop && after.phase
                == Phase::Idle
            &&& session.phase == Phase::Idle && !over ==> (after, step) == session.asked()
            &&& session.phase == Phase::Starting && !over && session.dirty ==> (after, step) == (
            Session { phase: Phase::Idle, ..session }).asked()
            &&& session.phase == Phase::Capturing && session.frame is None && !over ==> step
                is Dispatch && after == session
            &&& session.phase == Phase::Capturing && session.frame is None && over ==> step is Stop
                && after.phase == Phase::Idle
            &&& session.phase == Phase::Capturing && session.frame == Some(false) ==> step is Retry
                && after.phase == Phase::Idle && after.frame is None && after.buffer
                == session.buffer
            &&& session.phase == Phase::Capturing && session.frame == Some(true) ==> step is Publish
                && step->Publish_width == session.buffer->0.width && step->Publish_height
                == session.buffer->0.height && step->Publish_format == session.buffer->0.format
                && after.phase == Phase::Idle && after.frame is None && after.buffer
                == session.buffer
        }),
{
}

/// A new session knows nothing, so that it waits for its constraints.
pub proof fn law_new_session_waits(r: Session)
    requires
        call_ensures(Session::new, (), r),
    ensures
        r.advanced(false) == (r, Step::Dispatch),
        r.buffer is None && r.format is None && r.frame is None && !r.stopped && !r.dirty,
{
}

} // verus!
