//! The descriptions of the pipelines that the rtsp server launches, and the numbers they are made
//! with.
use crate::hls::SEGMENT_SECS;
use crate::numbers::{decimal, to_decimal};
use crate::text::{holds, law_holds};
use vstd::prelude::*;
use vstd::string::*;

verus! {

/// The frames per second for what was asked for: at least one.
pub fn usable_framerate(asked: u32) -> (r: u32)
    ensures
        r == if asked == 0 {
            1
        } else {
            asked
        },
{
    if asked == 0 {
        1
    } else {
        asked
    }
}

/// The frames from one keyframe to the next where a segment starts with each.
pub fn segment_frames(framerate: u32) -> (r: u32)
    ensures
        r == framerate * SEGMENT_SECS,
{
    framerate * SEGMENT_SECS
}

/// The second stream of a session: the media player's relayed audio, encoded to opus. It is silence
/// while nothing is relayed.
pub const AUDIO_BRANCH: &'static str =
    " appsrc name=audiosrc is-live=true format=time caps=audio/x-raw,format=S16LE,rate=48000,channels=2,layout=interleaved ! queue ! audioconvert ! audioresample ! opusenc bitrate=96000 ! queue ! rtpopuspay name=pay1 pt=97";

/// The pipeline that captures an output. There are queues on both sides of the encoder: the live
/// source and the server's own sink each need buffering to meet their processing deadline, otherwise
/// a single slow frame arrives late.
pub open spec fn output_pipeline(framerate: nat, audio: bool) -> Seq<char> {
    "appsrc name=mysrc is-live=true do-timestamp=true format=time caps=video/x-raw,format=BGRx,width=16,height=16,framerate="@
        + decimal(framerate)
        + "/1 ! queue leaky=downstream max-size-time=200000000 max-size-bytes=0 max-size-buffers=0 ! videoconvert ! video/x-raw,format=I420 ! x264enc speed-preset=ultrafast tune=zerolatency key-int-max="@
        + decimal(framerate)
        + " ! queue max-size-time=200000000 max-size-bytes=0 max-size-buffers=0 ! rtph264pay name=pay0 pt=96 config-interval=1"@
        + if audio {
        AUDIO_BRANCH@
    } else {
        ""@
    }
}

/// The pipeline that captures an output, with audio where it is relayed to a port.
pub fn output_launch(framerate: u32, audio_port: u16) -> (r: String)
    ensures
        r@ == output_pipeline(framerate as nat, audio_port != 0),
{
    let mut r =
        "appsrc name=mysrc is-live=true do-timestamp=true format=time caps=video/x-raw,format=BGRx,width=16,height=16,framerate=".to_owned();
    r.append(to_decimal(framerate as u64).as_str());
    r.append(
        "/1 ! queue leaky=downstream max-size-time=200000000 max-size-bytes=0 max-size-buffers=0 ! videoconvert ! video/x-raw,format=I420 ! x264enc speed-preset=ultrafast tune=zerolatency key-int-max=",
    );
    r.append(to_decimal(framerate as u64).as_str());
    r.append(
        " ! queue max-size-time=200000000 max-size-bytes=0 max-size-buffers=0 ! rtph264pay name=pay0 pt=96 config-interval=1",
    );
    if audio_port != 0 {
        r.append(AUDIO_BRANCH);
    } else {
        r.append("");
    }
    r
}

/// The placeholder that the composed pipeline takes the place of.
pub open spec fn window_pipeline(framerate: nat) -> Seq<char> {
    "videotestsrc ! video/x-raw,format=I420,width=16,height=16,framerate="@ + decimal(framerate)
        + "/1 ! x264enc speed-preset=ultrafast ! rtph264pay name=pay0 pt=96"@
}

/// The placeholder that the composed pipeline takes the place of.
pub fn window_launch(framerate: u32) -> (r: String)
    ensures
        r@ == window_pipeline(framerate as nat),
{
    let mut r = "videotestsrc ! video/x-raw,format=I420,width=16,height=16,framerate=".to_owned();
    r.append(to_decimal(framerate as u64).as_str());
    r.append("/1 ! x264enc speed-preset=ultrafast ! rtph264pay name=pay0 pt=96");
    r
}

/// What becomes of a frame that is handed to a source.
#[derive(Debug, Clone, Copy, PartialEq, Eq, Structural)]
pub enum Handover {
    /// It waits: the pipeline does not play yet, and a source without a clock would emit frames
    /// unstamped.
    Hold,
    /// It is the first one, and says what all of them look like.
    First,
    /// It is pushed.
    Push,
}

/// What becomes of a frame that is handed to a source, and whether the source then knows what
/// frames look like.
pub open spec fn handed_over(has_clock: bool, caps_set: bool) -> (Handover, bool) {
    if !has_clock {
        (Handover::Hold, caps_set)
    } else if caps_set {
        (Handover::Push, true)
    } else {
        (Handover::First, true)
    }
}

/// What becomes of a frame that is handed to a source, and whether the source then knows what
/// frames look like.
pub fn hand_over(has_clock: bool, caps_set: &mut bool) -> (r: Handover)
    ensures
        r == handed_over(has_clock, *old(caps_set)).0,
        *final(caps_set) == handed_over(has_clock, *old(caps_set)).1,
{
    if !has_clock {
        Handover::Hold
    } else if *caps_set {
        Handover::Push
    } else {
        *caps_set = true;
        Handover::First
    }
}

// ---------------------------------------------------------------------------
// The canvas

/// The canvas that was asked for, if both sides were named.
pub fn asked_size(width: Option<u32>, height: Option<u32>) -> (r: Option<(u32, u32)>)
    ensures
        r == match (width, height) {
            (Some(width), Some(height)) => Some((width, height)),
            _ => None,
        },
{
    match (width, height) {
        (Some(width), Some(height)) => Some((width, height)),
        _ => None,
    }
}

/// The size of an output, if it has one.
pub fn known_size(width: u32, height: u32) -> (r: Option<(u32, u32)>)
    ensures
        r == if width > 0 && height > 0 {
            Some((width, height))
        } else {
            None
        },
{
    if width > 0 && height > 0 {
        Some((width, height))
    } else {
        None
    }
}

/// The canvas: the one that was asked for takes priority, then comes the size of the output, then
/// full HD.
pub fn canvas_size(asked: Option<(u32, u32)>, output: Option<(u32, u32)>) -> (r: (u32, u32))
    ensures
        r == match (asked, output) {
            (Some(size), _) => size,
            (None, Some(size)) => size,
            (None, None) => (1920u32, 1080u32),
        },
{
    match asked {
        Some(size) => size,
        None => match output {
            Some(size) => size,
            None => (1920, 1080),
        },
    }
}

// ---------------------------------------------------------------------------
// Laws

/// The frame rate is the one that was asked for, and one where none was; a segment takes the frames
/// of one second.
pub proof fn law_framerate(asked: u32, usable: u32, frames: u32)
    requires
        call_ensures(usable_framerate, (asked,), usable),
        call_ensures(segment_frames, (usable,), frames),
    ensures
        usable >= 1,
        asked >= 1 ==> usable == asked,
        asked == 0 ==> usable == 1,
        frames == usable,
{
}

/// The canvas is the one that was asked for, where both sides were named. Else it is the size of
/// the output, where it has one, and full HD without either.
pub proof fn law_canvas(
    width: Option<u32>,
    height: Option<u32>,
    output_w: u32,
    output_h: u32,
    asked: Option<(u32, u32)>,
    output: Option<(u32, u32)>,
    r: (u32, u32),
)
    requires
        call_ensures(asked_size, (width, height), asked),
        call_ensures(known_size, (output_w, output_h), output),
        call_ensures(canvas_size, (asked, output), r),
    ensures
        width is Some && height is Some ==> r.0 == width->0 && r.1 == height->0,
        (width is None || height is None) && output_w >= 1 && output_h >= 1 ==> r.0 == output_w
            && r.1 == output_h,
        (width is None || height is None) && (output_w == 0 || output_h == 0) ==> r.0 == 1920 && r.1
            == 1080,
{
}

/// The pipeline of an output takes frames at its rate, makes a keyframe each second, and has the
/// audio branch at its end exactly where audio is relayed.
pub proof fn law_output_pipeline(framerate: nat)
    ensures
        output_pipeline(framerate, true) == output_pipeline(framerate, false) + AUDIO_BRANCH@,
        holds(output_pipeline(framerate, false), decimal(framerate) + "/1 ! queue"@),
        holds(
            output_pipeline(framerate, false),
            "key-int-max="@ + decimal(framerate) + " ! queue"@,
        ),
        holds(window_pipeline(framerate), decimal(framerate) + "/1 ! x264enc"@),
{
    let n = decimal(framerate);
    let head =
        "appsrc name=mysrc is-live=true do-timestamp=true format=time caps=video/x-raw,format=BGRx,width=16,height=16,framerate="@;
    let middle =
        "/1 ! queue leaky=downstream max-size-time=200000000 max-size-bytes=0 max-size-buffers=0 ! videoconvert ! video/x-raw,format=I420 ! x264enc speed-preset=ultrafast tune=zerolatency key-int-max="@;
    let tail =
        " ! queue max-size-time=200000000 max-size-bytes=0 max-size-buffers=0 ! rtph264pay name=pay0 pt=96 config-interval=1"@;
    let bare = head + n + middle + n + tail;
    assert(output_pipeline(framerate, false) == bare) by {
        reveal_strlit("");
        assert(bare + ""@ =~= bare);
    }
    lemma_literals();
    let a = middle.subrange(10, middle.len() as int);
    assert(middle =~= "/1 ! queue"@ + a);
    let first = n + "/1 ! queue"@;
    assert(bare =~= head + first + (a + n + tail));
    law_holds(head, first, a + n + tail);
    let b = middle.take(middle.len() - 12);
    assert(middle =~= b + "key-int-max="@);
    let c = tail.skip(8);
    assert(tail =~= " ! queue"@ + c);
    let second = "key-int-max="@ + n + " ! queue"@;
    assert(bare =~= (head + n + b) + second + c);
    law_holds(head + n + b, second, c);
    let start = "videotestsrc ! video/x-raw,format=I420,width=16,height=16,framerate="@;
    let rest = "/1 ! x264enc speed-preset=ultrafast ! rtph264pay name=pay0 pt=96"@;
    let d = rest.skip(12);
    assert(rest =~= "/1 ! x264enc"@ + d);
    let third = n + "/1 ! x264enc"@;
    assert(window_pipeline(framerate) =~= start + third + d);
    law_holds(start, third, d);
}

proof fn lemma_literals()
    ensures
        ({
            let middle =
                "/1 ! queue leaky=downstream max-size-time=200000000 max-size-bytes=0 max-size-buffers=0 ! videoconvert ! video/x-raw,format=I420 ! x264enc speed-preset=ultrafast tune=zerolatency key-int-max="@;
            let tail =
                " ! queue max-size-time=200000000 max-size-bytes=0 max-size-buffers=0 ! rtph264pay name=pay0 pt=96 config-interval=1"@;
            let rest = "/1 ! x264enc speed-preset=ultrafast ! rtph264pay name=pay0 pt=96"@;
            &&& middle.len() >= 22 && middle.take(10) == "/1 ! queue"@ && middle.skip(
                middle.len() - 12,
            ) == "key-int-max="@
            &&& tail.len() >= 8 && tail.take(8) == " ! queue"@
            &&& rest.len() >= 12 && rest.take(12) == "/1 ! x264enc"@
        }),
{
    reveal_strlit(
        "/1 ! queue leaky=downstream max-size-time=200000000 max-size-bytes=0 max-size-buffers=0 ! videoconvert ! video/x-raw,format=I420 ! x264enc speed-preset=ultrafast tune=zerolatency key-int-max=",
    );
    reveal_strlit(
        " ! queue max-size-time=200000000 max-size-bytes=0 max-size-buffers=0 ! rtph264pay name=pay0 pt=96 config-interval=1",
    );
    reveal_strlit("/1 ! x264enc speed-preset=ultrafast ! rtph264pay name=pay0 pt=96");
    reveal_strlit("/1 ! queue");
    reveal_strlit("key-int-max=");
    reveal_strlit(" ! queue");
    reveal_strlit("/1 ! x264enc");
    let middle =
        "/1 ! queue leaky=downstream max-size-time=200000000 max-size-bytes=0 max-size-buffers=0 ! videoconvert ! video/x-raw,format=I420 ! x264enc speed-preset=ultrafast tune=zerolatency key-int-max="@;
    let tail =
        " ! queue max-size-time=200000000 max-size-bytes=0 max-size-buffers=0 ! rtph264pay name=pay0 pt=96 config-interval=1"@;
    let rest = "/1 ! x264enc speed-preset=ultrafast ! rtph264pay name=pay0 pt=96"@;
    assert(middle.take(10) =~= "/1 ! queue"@);
    assert(middle.skip(middle.len() - 12) =~= "key-int-max="@);
    assert(tail.take(8) =~= " ! queue"@);
    assert(rest.take(12) =~= "/1 ! x264enc"@);
}

/// No frame is pushed without a clock, and holding one back leaves the source as it is. The first
/// one that is pushed says what frames look like, and no later one does so again.
pub proof fn law_first_frame_comes_once(has_clock: bool, caps_set: bool)
    ensures
        handed_over(has_clock, caps_set).0 == Handover::Hold <==> !has_clock,
        handed_over(has_clock, caps_set).0 == Handover::First <==> has_clock && !caps_set,
        handed_over(has_clock, caps_set).1 <==> caps_set || has_clock,
        handed_over(true, handed_over(true, caps_set).1).0 == Handover::Push,
{
}

} // verus!
