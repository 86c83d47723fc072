//! The audio timeline of an output pipeline. The media player relays the audio of the current
//! stream, which is decoded once and fanned out to every output. Each chunk carries the clock time
//! at which it is due. Every pipeline runs on the one system clock, so an output places a chunk on
//! its own running time by subtracting its base time, and the audio lands where video stamped by
//! that same clock lands. Times are nanoseconds; the largest number is no time.
use crate::numbers::{decimal, to_decimal};
use std::collections::VecDeque;
use vstd::prelude::*;
use vstd::slice::slice_to_vec;
use vstd::string::*;

verus! {

/// 20 ms, what the decoder puts out at a time.
pub const AUDIO_CHUNK: u64 = 20_000_000;

/// The bytes of 20 ms of 48 kHz interleaved stereo with two bytes a sample.
pub const AUDIO_CHUNK_BYTES: usize = 3840;

/// The media player sends over loopback, so this covers ordinary scheduling jitter without the far
/// larger fixed delay that a real network hop would need.
pub const AUDIO_JITTER: u64 = 60_000_000;

/// How far behind the clock the audio timeline may fall before silence pads it. Longer than a chunk
/// waits for the next feed turn, so that real audio is not displaced by padding.
pub const AUDIO_QUIET_AFTER: u64 = 100_000_000;

/// A consumer drains its queue every feed turn, so this only bounds what a stalled one piles up.
pub const AUDIO_QUEUE_CHUNKS: usize = 50;

/// A chunk of decoded audio with the clock time at which it is due.
pub struct PcmChunk {
    pub due: u64,
    pub pcm: Vec<u8>,
}

/// What of `a` lies beyond `b`.
pub open spec fn beyond(a: u64, b: u64) -> u64 {
    if a >= b {
        (a - b) as u64
    } else {
        0
    }
}

/// Where the pipeline clock stands for an element, `None` until it has a clock and a base time.
pub fn running_time(clock: Option<u64>, base: Option<u64>) -> (r: Option<u64>)
    ensures
        r == match (clock, base) {
            (Some(time), Some(base)) => Some(beyond(time, base)),
            _ => None,
        },
{
    match (clock, base) {
        (Some(time), Some(base)) => Some(time.saturating_sub(base)),
        _ => None,
    }
}

/// When a chunk is due that left the jitterbuffer at a running time of the decoding pipeline.
pub fn due_time(pts: u64, base: u64) -> (r: u64)
    requires
        pts + base + AUDIO_JITTER < u64::MAX,
    ensures
        r == pts + base + AUDIO_JITTER,
{
    pts + base + AUDIO_JITTER
}

/// What a chunk holds.
pub struct PcmText {
    pub due: u64,
    pub pcm: Seq<u8>,
}

impl View for PcmChunk {
    type V = PcmText;

    open spec fn view(&self) -> PcmText {
        PcmText { due: self.due, pcm: self.pcm@ }
    }
}

/// The newest chunks of a queue, as many as it may hold.
pub open spec fn newest<A>(queue: Seq<A>) -> Seq<A> {
    if queue.len() <= AUDIO_QUEUE_CHUNKS {
        queue
    } else {
        queue.skip(queue.len() - AUDIO_QUEUE_CHUNKS)
    }
}

/// A chunk joins the queue of a consumer, and the oldest leave it where there are too many.
pub fn enqueue(queue: &mut VecDeque<PcmChunk>, chunk: PcmChunk)
    ensures
        final(queue)@ == newest(old(queue)@.push(chunk)),
        final(queue)@.len() <= AUDIO_QUEUE_CHUNKS,
{
    let ghost all = queue@.push(chunk);
    queue.push_back(chunk);
    assert(all.skip(0) =~= all);
    while queue.len() > AUDIO_QUEUE_CHUNKS
        invariant
            queue.len() <= all.len(),
            queue@ == all.skip(all.len() - queue.len()),
            queue.len() == all.len() || queue.len() >= AUDIO_QUEUE_CHUNKS,
        decreases queue.len(),
    {
        queue.pop_front();
        assert(queue@ =~= all.skip(all.len() - queue.len()));
    }
}

// ---------------------------------------------------------------------------
// Fanning out

/// What a queue holds.
pub open spec fn queue_text(queue: Seq<PcmChunk>) -> Seq<PcmText> {
    queue.map_values(|c: PcmChunk| c@)
}

/// What a place for a subscriber holds.
pub open spec fn place_text(place: Option<VecDeque<PcmChunk>>) -> Option<Seq<PcmText>> {
    match place {
        Some(queue) => Some(queue_text(queue@)),
        None => None,
    }
}

/// The places for subscribers with their queues, `None` where a place is free.
pub type Places = Seq<Option<Seq<PcmText>>>;

/// Hands every decoded chunk to every subscriber, so that each of them hears the whole stream
/// instead of splitting chunks between however many are listening at once.
pub struct Fanout {
    places: Vec<Option<VecDeque<PcmChunk>>>,
}

impl View for Fanout {
    type V = Places;

    closed spec fn view(&self) -> Places {
        self.places@.map_values(|p: Option<VecDeque<PcmChunk>>| place_text(p))
    }
}

/// The place after a chunk was decoded: it joins the queue of the subscriber there.
pub open spec fn handed(place: Option<Seq<PcmText>>, chunk: PcmText) -> Option<Seq<PcmText>> {
    match place {
        Some(queue) => Some(newest(queue.push(chunk))),
        None => None,
    }
}

/// All places after a chunk was decoded.
pub open spec fn handed_out(places: Places, chunk: PcmText) -> Places {
    places.map_values(|p: Option<Seq<PcmText>>| handed(p, chunk))
}

/// The places with a new subscriber, at a place that was free or at a new one.
pub open spec fn subscribed(places: Places, id: int) -> Places {
    if id < places.len() {
        places.update(id, Some(Seq::empty()))
    } else {
        places.push(Some(Seq::empty()))
    }
}

/// The places without a subscriber.
pub open spec fn unsubscribed(places: Places, id: int) -> Places {
    if id < places.len() {
        places.update(id, None)
    } else {
        places
    }
}

/// The chunk that a subscriber takes, and the places after that.
pub open spec fn taken(places: Places, id: int) -> (Option<PcmText>, Places) {
    if 0 <= id < places.len() && places[id] is Some && places[id]->0.len() > 0 {
        let queue = places[id]->0;
        (Some(queue[0]), places.update(id, Some(queue.skip(1))))
    } else {
        (None, places)
    }
}

impl Fanout {
    /// Nobody listens.
    pub fn new() -> (r: Fanout)
        ensures
            r@ == Seq::<Option<Seq<PcmText>>>::empty(),
    {
        let r = Fanout { places: Vec::new() };
        assert(r@ =~= Seq::empty());
        r
    }

    /// A new queue for a consumer of its own, which receives every chunk from here on. It gets a
    /// place that was free, or a new one.
    pub fn subscribe(&mut self) -> (id: usize)
        ensures
            final(self)@ == subscribed(old(self)@, id as int),
            id < old(self)@.len() ==> old(self)@[id as int] is None && final(self)@ == old(
                self,
            )@.update(id as int, Some(Seq::empty())),
            id >= old(self)@.len() ==> id == old(self)@.len() && final(self)@ == old(self)@.push(
                Some(Seq::empty()),
            ),
    {
        let queue: VecDeque<PcmChunk> = VecDeque::new();
        let ghost before = self@;
        assert(queue_text(queue@) =~= Seq::empty());
        let mut id: usize = 0;
        while id < self.places.len() && self.places[id].is_some()
            invariant
                id <= self.places.len(),
            decreases self.places.len() - id,
        {
            id += 1;
        }
        if id < self.places.len() {
            self.places.set(id, Some(queue));
            assert(self@ =~= before.update(id as int, Some(Seq::empty())));
        } else {
            self.places.push(Some(queue));
            assert(self@ =~= before.push(Some(Seq::empty())));
        }
        id
    }

    /// A consumer is gone, and its place is free.
    pub fn unsubscribe(&mut self, id: usize)
        ensures
            final(self)@ == unsubscribed(old(self)@, id as int),
    {
        let ghost before = self@;
        if id < self.places.len() {
            self.places.set(id, None);
            assert(self@ =~= before.update(id as int, None));
        }
    }

    /// A chunk was decoded: every subscriber gets a copy.
    pub fn publish(&mut self, due: u64, pcm: &[u8])
        ensures
            final(self)@ == handed_out(old(self)@, PcmText { due, pcm: pcm@ }),
    {
        let ghost before = self@;
        let ghost chunk = PcmText { due, pcm: pcm@ };
        let n = self.places.len();
        let mut i: usize = 0;
        while i < n
            invariant
                i <= n,
                n == self.places.len(),
                n == before.len(),
                chunk == (PcmText { due, pcm: pcm@ }),
                self@.len() == n,
                forall|j: int| 0 <= j < i ==> #[trigger] self@[j] == handed(before[j], chunk),
                forall|j: int| i <= j < n ==> #[trigger] self@[j] == before[j],
            decreases n - i,
        {
            let ghost now = self@;
            assert(now[i as int] == place_text(self.places@[i as int]));
            let mut place: Option<VecDeque<PcmChunk>> = None;
            core::mem::swap(&mut place, &mut self.places[i]);
            if let Some(queue) = place {
                let mut queue = queue;
                let ghost had = queue@;
                let copy = PcmChunk { due, pcm: slice_to_vec(pcm) };
                enqueue(&mut queue, copy);
                assert(queue_text(had.push(copy)) =~= queue_text(had).push(chunk));
                assert(queue_text(queue@) =~= newest(queue_text(had).push(chunk)));
                self.places.set(i, Some(queue));
            }
            assert(self@ =~= now.update(i as int, handed(before[i as int], chunk)));
            i += 1;
        }
        assert(self@ =~= handed_out(before, chunk));
    }

    /// The oldest chunk in the queue of a subscriber, which leaves it.
    pub fn take(&mut self, id: usize) -> (r: Option<PcmChunk>)
        ensures
            final(self)@ == taken(old(self)@, id as int).1,
            match r {
                Some(chunk) => taken(old(self)@, id as int).0 == Some(chunk@),
                None => taken(old(self)@, id as int).0 is None,
            },
            if id < old(self)@.len() && old(self)@[id as int] is Some && old(
                self,
            )@[id as int]->0.len() > 0 {
                let queue = old(self)@[id as int]->0;
                &&& r is Some
                &&& (r->0)@ == queue[0]
                &&& final(self)@ == old(self)@.update(id as int, Some(queue.skip(1)))
            } else {
                r is None && final(self)@ == old(self)@
            },
    {
        let ghost before = self@;
        if id >= self.places.len() {
            return None;
        }
        assert(before[id as int] == place_text(self.places@[id as int]));
        let mut place: Option<VecDeque<PcmChunk>> = None;
        core::mem::swap(&mut place, &mut self.places[id]);
        match place {
            Some(queue) => {
                let mut queue = queue;
                let ghost had = queue@;
                let r = queue.pop_front();
                self.places.set(id, Some(queue));
                proof {
                    if had.len() > 0 {
                        assert(queue_text(queue@) =~= queue_text(had).skip(1));
                        assert(self@ =~= before.update(id as int, Some(queue_text(had).skip(1))));
                    } else {
                        assert(self@ =~= before);
                    }
                }
                r
            },
            None => {
                assert(self@ =~= before);
                None
            },
        }
    }
}

/// The places after some chunks were decoded, one after the other.
pub open spec fn all_handed_out(places: Places, chunks: Seq<PcmText>) -> Places
    decreases chunks.len(),
{
    if chunks.len() == 0 {
        places
    } else {
        handed_out(all_handed_out(places, chunks.drop_last()), chunks.last())
    }
}

/// Every subscriber hears the whole stream: whatever was decoded while it listened stands in its
/// queue in order, up to the newest that a queue may hold, and no queue holds more.
pub proof fn law_subscribers_hear_everything(places: Places, chunks: Seq<PcmText>, i: int)
    requires
        0 <= i < places.len(),
        places[i] is Some,
        places[i]->0.len() <= AUDIO_QUEUE_CHUNKS,
    ensures
        all_handed_out(places, chunks).len() == places.len(),
        all_handed_out(places, chunks)[i] == Some(newest(places[i]->0 + chunks)),
        newest(places[i]->0 + chunks).len() <= AUDIO_QUEUE_CHUNKS,
    decreases chunks.len(),
{
    let queue = places[i]->0;
    if chunks.len() == 0 {
        assert(queue + chunks =~= queue);
    } else {
        let earlier = chunks.drop_last();
        law_subscribers_hear_everything(places, earlier, i);
        assert(queue + chunks =~= (queue + earlier).push(chunks.last()));
        assert(newest(newest(queue + earlier).push(chunks.last())) =~= newest(
            (queue + earlier).push(chunks.last()),
        ));
    }
}

// ---------------------------------------------------------------------------
// One capture

/// Whether a capture of the relayed audio runs.
pub struct CaptureGate {
    running: bool,
}

impl View for CaptureGate {
    type V = bool;

    closed spec fn view(&self) -> bool {
        self.running
    }
}

impl CaptureGate {
    /// None runs.
    pub fn new() -> (r: CaptureGate)
        ensures
            !r@,
    {
        CaptureGate { running: false }
    }

    /// Whether to start a capture on a port: not on port zero, which stands for no audio, and not
    /// while one runs. If so, it counts as running.
    pub fn start(&mut self, port: u16) -> (started: bool)
        ensures
            started == gate_starts(old(self)@, GateStep::Start { port }),
            started == (port != 0 && !old(self)@),
            final(self)@ == gate_after(old(self)@, GateStep::Start { port }),
            final(self)@ == (old(self)@ || started),
    {
        if port == 0 || self.running {
            return false;
        }
        self.running = true;
        true
    }

    /// The capture has ended.
    pub fn stop(&mut self)
        ensures
            final(self)@ == gate_after(old(self)@, GateStep::Stop),
            !final(self)@,
    {
        self.running = false;
    }
}

/// One thing that happens to a gate.
pub enum GateStep {
    /// Somebody wants a capture on a port.
    Start { port: u16 },
    /// A capture ends.
    Stop,
}

/// Whether a capture runs after one more step.
pub open spec fn gate_after(running: bool, step: GateStep) -> bool {
    match step {
        GateStep::Start { port } => running || port != 0,
        GateStep::Stop => false,
    }
}

/// Whether a step starts a capture.
pub open spec fn gate_starts(running: bool, step: GateStep) -> bool {
    match step {
        GateStep::Start { port } => port != 0 && !running,
        GateStep::Stop => false,
    }
}

/// Whether a capture runs after some steps.
pub open spec fn running_after(steps: Seq<GateStep>) -> bool
    decreases steps.len(),
{
    if steps.len() == 0 {
        false
    } else {
        gate_after(running_after(steps.drop_last()), steps.last())
    }
}

/// How many captures were started.
pub open spec fn starts(steps: Seq<GateStep>) -> nat
    decreases steps.len(),
{
    if steps.len() == 0 {
        0
    } else {
        let earlier = steps.drop_last();
        if gate_starts(running_after(earlier), steps.last()) {
            starts(earlier) + 1
        } else {
            starts(earlier)
        }
    }
}

/// How many captures have ended.
pub open spec fn stops(steps: Seq<GateStep>) -> nat
    decreases steps.len(),
{
    if steps.len() == 0 {
        0
    } else if steps.last() is Stop {
        stops(steps.drop_last()) + 1
    } else {
        stops(steps.drop_last())
    }
}

/// Whether only captures that run come to an end.
pub open spec fn stops_what_runs(steps: Seq<GateStep>) -> bool {
    forall|i: int|
        0 <= i < steps.len() && (#[trigger] steps[i]) is Stop ==> running_after(steps.take(i))
}

/// At most one capture runs at a time, however often and on whatever ports one is asked for: as many
/// have ended as were started, but for the one that runs.
pub proof fn law_one_capture_at_a_time(steps: Seq<GateStep>)
    requires
        stops_what_runs(steps),
    ensures
        starts(steps) == stops(steps) + if running_after(steps) {
            1nat
        } else {
            0nat
        },
    decreases steps.len(),
{
    if steps.len() > 0 {
        let earlier = steps.drop_last();
        assert forall|i: int| 0 <= i < earlier.len() && (#[trigger] earlier[i]) is Stop implies running_after(
            earlier.take(i),
        ) by {
            assert(earlier[i] == steps[i]);
            assert(earlier.take(i) =~= steps.take(i));
        }
        law_one_capture_at_a_time(earlier);
        if steps.last() is Stop {
            assert(steps[steps.len() - 1] is Stop);
            assert(steps.take(steps.len() - 1) =~= earlier);
        }
    }
}

// ---------------------------------------------------------------------------
// The timeline

/// Whether the timeline is so far behind the clock that silence pads it.
pub open spec fn quiet(next: u64, now: u64) -> bool {
    next + AUDIO_QUIET_AFTER <= now
}

/// Whether a chunk at this time is already covered, by silence or by a burst after the source
/// stalled.
pub open spec fn covered(next: u64, pts: u64) -> bool {
    pts + AUDIO_CHUNK / 2 < next
}

/// What a feed turn does next.
pub enum AudioStep {
    /// Push this buffer of one chunk, and go on with the timeline at `next`.
    Push { pts: u64, pcm: Vec<u8>, next: u64 },
    /// Drop the chunk and go on. This keeps the timeline on the clock instead of letting it run
    /// ahead of the video.
    Skip,
    /// The turn is over.
    Done,
}

/// Places the next chunk of the queue, or silence where there is none and the timeline is too far
/// behind. `next` is where the timeline stands, `now` the running time and `base` the base time of
/// the pipeline.
pub fn step(next: u64, now: u64, base: u64, chunk: Option<PcmChunk>) -> (r: AudioStep)
    requires
        match chunk {
            Some(chunk) => covered(next, beyond(chunk.due, base)) || beyond(chunk.due, base)
                + AUDIO_CHUNK < u64::MAX,
            None => next + AUDIO_QUIET_AFTER < u64::MAX,
        },
    ensures
        match chunk {
            Some(chunk) => {
                let at = beyond(chunk.due, base);
                if covered(next, at) {
                    r is Skip
                } else {
                    r matches AudioStep::Push { pts, pcm, next: after } && pts == at && pcm@
                        == chunk.pcm@ && after == at + AUDIO_CHUNK
                }
            },
            None => if quiet(next, now) {
                r matches AudioStep::Push { pts, pcm, next: after } && pts == next && pcm@
                    == Seq::new(AUDIO_CHUNK_BYTES as nat, |i: int| 0u8) && after == next
                    + AUDIO_CHUNK
            } else {
                r is Done
            },
        },
{
    match chunk {
        Some(chunk) => {
            let pts = chunk.due.saturating_sub(base);
            if pts + AUDIO_CHUNK / 2 < next {
                AudioStep::Skip
            } else {
                AudioStep::Push { pts, pcm: chunk.pcm, next: pts + AUDIO_CHUNK }
            }
        },
        None => {
            if next + AUDIO_QUIET_AFTER <= now {
                let pcm: Vec<u8> = vec![0u8; AUDIO_CHUNK_BYTES];
                assert(pcm@ =~= Seq::new(AUDIO_CHUNK_BYTES as nat, |i: int| 0u8));
                AudioStep::Push { pts: next, pcm, next: next + AUDIO_CHUNK }
            } else {
                AudioStep::Done
            }
        },
    }
}

/// Where the timeline of one output pipeline stands, `None` before its first turn.
pub struct AudioTimeline {
    next: Option<u64>,
}

impl View for AudioTimeline {
    type V = Option<u64>;

    closed spec fn view(&self) -> Option<u64> {
        self.next
    }
}

/// Where a turn goes on: where the last one left off, or at the running time.
pub open spec fn begun(timeline: Option<u64>, now: u64) -> u64 {
    match timeline {
        Some(next) => next,
        None => now,
    }
}

impl AudioTimeline {
    /// A timeline that has not started.
    pub fn new() -> (r: AudioTimeline)
        ensures
            r@ is None,
    {
        AudioTimeline { next: None }
    }

    /// Where a turn goes on. The first turn starts the timeline at the running time.
    pub fn begin(&mut self, now: u64) -> (next: u64)
        ensures
            next == begun(old(self)@, now),
            final(self)@ == Some(next),
    {
        let next = match self.next {
            Some(next) => next,
            None => now,
        };
        self.next = Some(next);
        next
    }

    /// Where a turn left the timeline.
    pub fn end(&mut self, next: u64)
        ensures
            final(self)@ == Some(next),
    {
        self.next = Some(next);
    }
}

// ---------------------------------------------------------------------------
// Laws

/// The audio moves forward: a chunk that is placed after another starts at least half a chunk later
/// than it, so no two are stamped alike.
pub proof fn law_audio_moves_forward(earlier: u64, pts: u64)
    requires
        earlier + AUDIO_CHUNK < u64::MAX,
        !covered((earlier + AUDIO_CHUNK) as u64, pts),
    ensures
        pts >= earlier + AUDIO_CHUNK / 2,
{
}

/// Where the timeline stands after a turn that finds no audio.
pub open spec fn padded(next: u64, now: u64) -> u64
    decreases now - next,
{
    if quiet(next, now) {
        padded((next + AUDIO_CHUNK) as u64, now)
    } else {
        next
    }
}

/// Silence keeps the timeline going: after a turn that finds no audio it is less than
/// `AUDIO_QUIET_AFTER` behind the clock. Padding does not run ahead: it ends more than a chunk
/// short of that.
pub proof fn law_silence_keeps_up(next: u64, now: u64)
    ensures
        !quiet(padded(next, now), now),
        padded(next, now) >= next,
        quiet(next, now) ==> padded(next, now) + AUDIO_QUIET_AFTER <= now + AUDIO_CHUNK,
    decreases now - next,
{
    if quiet(next, now) {
        law_silence_keeps_up((next + AUDIO_CHUNK) as u64, now);
    }
}

/// Padding displaces only audio that is late: a chunk that arrives no later than
/// `AUDIO_QUIET_AFTER` less one chunk after its time is not covered by any silence before it.
pub proof fn law_padding_spares_timely_audio(next: u64, now: u64, pts: u64)
    requires
        quiet(next, now),
        now <= pts + (AUDIO_QUIET_AFTER - AUDIO_CHUNK),
    ensures
        !covered(padded(next, now), pts),
{
    law_silence_keeps_up(next, now);
}

// ---------------------------------------------------------------------------
// Pipelines

/// The pipeline that receives and decodes the relayed audio, opus over rtp.
pub open spec fn relay_pipeline(port: nat) -> Seq<char> {
    "udpsrc port="@ + decimal(port)
        + " caps=application/x-rtp,media=audio,encoding-name=OPUS,clock-rate=48000,payload=97 ! rtpjitterbuffer latency="@
        + decimal((AUDIO_JITTER / 1_000_000) as nat)
        + " mode=none do-lost=true ! rtpopusdepay ! opusdec plc=true ! audioconvert ! audioresample ! audio/x-raw,format=S16LE,rate=48000,channels=2,layout=interleaved ! appsink name=asink sync=false max-buffers=64 drop=true"@
}

/// The pipeline that receives and decodes the relayed audio.
pub fn audio_relay(port: u16) -> (r: String)
    ensures
        r@ == relay_pipeline(port as nat),
{
    let mut r = "udpsrc port=".to_owned();
    r.append(to_decimal(port as u64).as_str());
    r.append(
        " caps=application/x-rtp,media=audio,encoding-name=OPUS,clock-rate=48000,payload=97 ! rtpjitterbuffer latency=",
    );
    r.append(to_decimal(AUDIO_JITTER / 1_000_000).as_str());
    r.append(
        " mode=none do-lost=true ! rtpopusdepay ! opusdec plc=true ! audioconvert ! audioresample ! audio/x-raw,format=S16LE,rate=48000,channels=2,layout=interleaved ! appsink name=asink sync=false max-buffers=64 drop=true",
    );
    r
}

/// What lies beyond and what it lies beyond of add up to the greater of the two.
pub proof fn law_beyond(a: u64, b: u64)
    ensures
        a >= b ==> beyond(a, b) + b == a,
        a <= b ==> beyond(a, b) == 0,
{
}

/// A queue keeps the last fifty of what joins it, in order.
pub proof fn law_queue_keeps_the_last_fifty<A>(queue: Seq<A>)
    ensures
        newest(queue).len() == if queue.len() < 50 {
            queue.len()
        } else {
            50
        },
        forall|i: int|
            0 <= i < newest(queue).len() ==> #[trigger] newest(queue)[i] == queue[queue.len()
                - newest(queue).len() + i],
{
}

/// A chunk that is decoded joins the queue of every subscriber, and no place without one.
pub proof fn law_every_place_gets_the_chunk(places: Places, chunk: PcmText, i: int)
    requires
        0 <= i < places.len(),
    ensures
        handed_out(places, chunk).len() == places.len(),
        places[i] is None ==> handed_out(places, chunk)[i] is None,
        places[i] matches Some(queue) ==> handed_out(places, chunk)[i] is Some && {
            let after = handed_out(places, chunk)[i]->0;
            &&& after.len() > 0 && after.last() == chunk
            &&& queue.len() < 50 ==> after == queue.push(chunk)
            &&& queue.len() == 50 ==> after == queue.skip(1).push(chunk)
        },
{
    if let Some(queue) = places[i] {
        if queue.len() == 50 {
            assert(queue.push(chunk).skip(1) =~= queue.skip(1).push(chunk));
        }
    }
}

/// A subscriber takes the chunks in the order in which they joined its queue, and nobody else's.
pub proof fn law_chunks_are_taken_in_order(places: Places, id: int, first: PcmText, rest: Seq<PcmText>)
    requires
        0 <= id < places.len(),
    ensures
        places[id] == Some(seq![first] + rest) ==> taken(places, id).0 == Some(first) && taken(
            places,
            id,
        ).1[id] == Some(rest),
        places[id] == Some(Seq::<PcmText>::empty()) || places[id] is None ==> taken(places, id) == (
            None::<PcmText>,
            places,
        ),
        taken(places, id).1.len() == places.len(),
        forall|j: int|
            0 <= j < places.len() && j != id ==> #[trigger] taken(places, id).1[j] == places[j],
{
    assert((seq![first] + rest).skip(1) =~= rest);
}

/// A capture starts exactly if one is asked for on a port other than zero while none runs; then one
/// runs until it ends.
pub proof fn law_gate(running: bool, port: u16)
    ensures
        gate_starts(running, GateStep::Start { port }) <==> port > 0 && !running,
        gate_after(running, GateStep::Start { port }) <==> running || gate_starts(
            running,
            GateStep::Start { port },
        ),
        !gate_after(running, GateStep::Stop),
        !gate_starts(running, GateStep::Stop),
{
}

/// A chunk is dropped exactly if more than half of it, ten milliseconds, lies before the end of the
/// timeline, and the timeline is padded exactly if it is a tenth of a second behind or more.
pub proof fn law_late_chunks_and_silence(next: u64, at: u64)
    ensures
        covered(next, at) <==> next - at > 10_000_000,
        quiet(next, at) <==> at - next >= 100_000_000,
{
}

/// A chunk is placed at its due time on the running time of the pipeline, and the timeline goes on
/// 20 milliseconds after that. Silence is a whole chunk of zeros at the end of the timeline.
pub proof fn law_step(next: u64, now: u64, base: u64, chunk: Option<PcmChunk>, r: AudioStep)
    requires
        call_ensures(step, (next, now, base, chunk), r),
    ensures
        match chunk {
            Some(chunk) => {
                let at = if chunk.due >= base {
                    chunk.due - base
                } else {
                    0
                };
                &&& r is Skip <==> next - at > 10_000_000
                &&& !(r is Skip) ==> r is Push && r->pts == at && r->pcm@ == chunk.pcm@
                    && r->Push_next == at + 20_000_000
            },
            None => {
                &&& r is Done <==> now - next < 100_000_000
                &&& !(r is Done) ==> r is Push && r->pts == next && r->Push_next == next
                    + 20_000_000 && r->pcm@.len() == 3840 && forall|i: int|
                    0 <= i < 3840 ==> r->pcm@[i] == 0
            },
        },
{
}

/// A chunk is due 60 milliseconds after it left the jitterbuffer, by the clock.
pub proof fn law_due_time(pts: u64, base: u64, r: u64)
    requires
        call_ensures(due_time, (pts, base), r),
    ensures
        r - 60_000_000 == pts + base,
{
}

/// The pipeline listens on the port that it is made for.
pub proof fn law_relay_pipeline_names_the_port(port: nat)
    ensures
        ("udpsrc port="@ + decimal(port) + " caps=application/x-rtp,"@).is_prefix_of(
            relay_pipeline(port),
        ),
{
    let n = decimal(port);
    let start = "udpsrc port="@;
    let caps =
        " caps=application/x-rtp,media=audio,encoding-name=OPUS,clock-rate=48000,payload=97 ! rtpjitterbuffer latency="@;
    let short = " caps=application/x-rtp,"@;
    assert(short.len() <= caps.len() && short == caps.take(short.len() as int)) by {
        reveal_strlit(
            " caps=application/x-rtp,media=audio,encoding-name=OPUS,clock-rate=48000,payload=97 ! rtpjitterbuffer latency=",
        );
        reveal_strlit(" caps=application/x-rtp,");
        assert(short =~= caps.take(short.len() as int));
    }
    let whole = relay_pipeline(port);
    let front = start + n + caps;
    assert(front =~= whole.subrange(0, front.len() as int));
    let part = start + n + short;
    assert(part =~= front.subrange(0, part.len() as int));
    assert(part =~= whole.subrange(0, part.len() as int));
}

/// A new subscriber starts with an empty queue, at a place that nobody else has, and everybody else
/// keeps what was in theirs. One that leaves frees its place and no other.
pub proof fn law_subscribers_come_and_go(places: Places, id: int, other: int)
    requires
        0 <= id <= places.len(),
        id < places.len() ==> places[id] is None,
        0 <= other < places.len(),
        other != id,
    ensures
        subscribed(places, id)[id] == Some(Seq::<PcmText>::empty()),
        subscribed(places, id)[other] == places[other],
        unsubscribed(subscribed(places, id), id)[id] is None,
        unsubscribed(subscribed(places, id), id)[other] == places[other],
        id < places.len() ==> unsubscribed(subscribed(places, id), id) == places,
        unsubscribed(places, places.len() as int) == places,
{
    if id < places.len() {
        assert(unsubscribed(subscribed(places, id), id) =~= places);
    }
}

/// The first turn starts the timeline at the running time; every later one goes on where the last
/// one left off, whatever the time is.
pub proof fn law_timeline_goes_on(next: u64, now: u64)
    ensures
        begun(None, now) == now,
        begun(Some(next), now) == next,
{
}

/// The running time is what the clock shows beyond the base time, and there is none without both.
pub proof fn law_running_time(clock: Option<u64>, base: Option<u64>, r: Option<u64>)
    requires
        call_ensures(running_time, (clock, base), r),
    ensures
        r is Some <==> clock is Some && base is Some,
        r is Some && clock->0 >= base->0 ==> r->0 + base->0 == clock->0,
        r is Some && clock->0 < base->0 ==> r->0 == 0,
{
}

/// A chunk is what its parts are.
pub proof fn law_chunk_parts(chunk: PcmChunk)
    ensures
        chunk@.due == chunk.due,
        chunk@.pcm == chunk.pcm@,
{
}

/// At first nobody listens, no capture runs, and no timeline has started.
pub proof fn law_nothing_runs_at_first(
    fanout: Fanout,
    gate: CaptureGate,
    timeline: AudioTimeline,
    port: u16,
    now: u64,
)
    requires
        call_ensures(Fanout::new, (), fanout),
        call_ensures(CaptureGate::new, (), gate),
        call_ensures(AudioTimeline::new, (), timeline),
    ensures
        fanout@.len() == 0,
        gate_starts(gate@, GateStep::Start { port }) <==> port != 0,
        begun(timeline@, now) == now,
{
}

} // verus!
