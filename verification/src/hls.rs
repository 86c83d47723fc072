//! HLS without a disk: the mpeg-ts packets from the encoder are cut into segments at keyframes and
//! kept in memory, the playlist is rendered from whatever is in the ring.
//!
//! A segment has to be decodable on its own, so it starts with the tables a demuxer needs.
//! mpegtsmux sends PAT and PMT on a timer, not at keyframes, so the latest of each is remembered
//! and put in front of every new segment.
use crate::numbers::{decimal, decimal_digits, law_decimal_round_trip, number, parse_u64, to_decimal};
use crate::text::{holds, law_holds, law_holds_within, lemma_join, strip_prefix, strip_suffix};
use crate::time::Duration;
use std::collections::VecDeque;
use vstd::prelude::*;
use vstd::slice::slice_subrange;
use vstd::string::*;

verus! {

pub const PLAYLIST_PATH: &'static str = "/hls/stream.m3u8";

/// Keyframe interval and so the segment length. One second keeps the join time and the play
/// position near what dlna players get, the player runs three target durations behind the live
/// edge.
pub const SEGMENT_SECS: u32 = 1;

/// A live playlist needs three segments before a player will start.
pub const MIN_SEGMENTS: usize = 3;

/// How many segments the playlist lists.
pub const PLAYLIST_SEGMENTS: usize = 4;

/// How many segments are kept, so that one named in the last playlist a player fetched is still
/// there when it asks for it.
pub const RING_SEGMENTS: usize = 6;

/// The length of one transport stream packet.
pub const TS_PACKET: usize = 188;

// ---------------------------------------------------------------------------
// Packets

/// The packet identifier: the low 13 bits of the second and third byte.
pub open spec fn pid_of(packet: Seq<u8>) -> u16 {
    ((packet[1] as int % 32) * 256 + packet[2]) as u16
}

/// The packet identifier of a packet.
pub fn pid(packet: &[u8]) -> (r: u16)
    requires
        packet.len() >= 3,
    ensures
        r == pid_of(packet@),
{
    (packet[1] % 32) as u16 * 256 + packet[2] as u16
}

/// Whether the packet has an adaptation field, which mpegtsmux pads a short table with.
pub open spec fn has_adaptation(packet: Seq<u8>) -> bool {
    (packet[3] / 32) % 2 == 1
}

/// Where the payload of the packet starts: behind the header and the adaptation field.
pub open spec fn payload_start(packet: Seq<u8>) -> int {
    if has_adaptation(packet) {
        5 + packet[4]
    } else {
        4
    }
}

/// Where the table in the packet starts: behind the pointer field and what it skips.
pub open spec fn table_start(packet: Seq<u8>) -> Option<int> {
    let p = payload_start(packet);
    if p >= packet.len() || p + 1 + packet[p] > packet.len() {
        None
    } else {
        Some(p + 1 + packet[p])
    }
}

/// Whether the header, and the section length of the table if there is one, lie within the
/// packet.
pub open spec fn readable(packet: Seq<u8>) -> bool {
    &&& packet.len() >= 4
    &&& has_adaptation(packet) ==> packet.len() >= 5
    &&& table_start(packet) matches Some(t) ==> t + 3 <= packet.len()
}

/// The pid of the first program in a list of 4 byte entries. Program 0 is the network pid and
/// skipped.
pub open spec fn first_program(programs: Seq<u8>) -> Option<u16>
    decreases programs.len(),
{
    if programs.len() < 4 {
        None
    } else if programs[0] != 0 || programs[1] != 0 {
        Some(((programs[2] as int % 32) * 256 + programs[3]) as u16)
    } else {
        first_program(programs.skip(4))
    }
}

/// The PMT pid that a PAT announces: behind the 8 byte table header come the program entries, up
/// to the checksum at the end of the section.
pub open spec fn pmt_pid_of(packet: Seq<u8>) -> Option<u16> {
    match table_start(packet) {
        Some(t) => {
            let table = packet.skip(t);
            let section_length = (table[1] as int % 16) * 256 + table[2];
            if 8 <= section_length - 1 <= table.len() {
                first_program(table.subrange(8, section_length - 1))
            } else {
                None
            }
        },
        None => None,
    }
}

/// Where the table in the packet starts.
fn find_table(packet: &[u8]) -> (r: Option<usize>)
    requires
        packet.len() >= 4,
        has_adaptation(packet@) ==> packet.len() >= 5,
    ensures
        match r {
            Some(t) => table_start(packet@) == Some(t as int) && t <= packet.len(),
            None => table_start(packet@) is None,
        },
{
    let payload: usize = if (packet[3] / 32) % 2 == 1 {
        5 + packet[4] as usize
    } else {
        4
    };
    if payload >= packet.len() {
        return None;
    }
    let pointer: usize = packet[payload] as usize;
    if pointer > packet.len() - payload - 1 {
        None
    } else {
        Some(payload + 1 + pointer)
    }
}

/// Whether a PAT can be read at all.
pub fn is_readable(packet: &[u8]) -> (r: bool)
    ensures
        r == readable(packet@),
{
    if packet.len() < 4 || ((packet[3] / 32) % 2 == 1 && packet.len() < 5) {
        return false;
    }
    match find_table(packet) {
        Some(t) => packet.len() - t >= 3,
        None => true,
    }
}

/// The PMT pid is in the PAT: after the adaptation field, the pointer field and the 8 byte table
/// header come 4 byte program entries, the pid is the low 13 bits of the last two.
pub fn pmt_pid_from_pat(packet: &[u8]) -> (r: Option<u16>)
    requires
        readable(packet@),
    ensures
        r == pmt_pid_of(packet@),
{
    let t = match find_table(packet) {
        Some(t) => t,
        None => return None,
    };
    let ghost table = packet@.skip(t as int);
    let section_length: usize = (packet[t + 1] % 16) as usize * 256 + packet[t + 2] as usize;
    assert(table[1] == packet@[t + 1] && table[2] == packet@[t + 2]);
    if section_length < 9 || section_length - 1 > packet.len() - t {
        return None;
    }
    let end: usize = section_length - 1;
    let ghost programs = table.subrange(8, end as int);
    let mut i: usize = 8;
    assert(programs.skip(0) =~= programs);
    while end - i >= 4
        invariant
            8 <= i <= end,
            t + end <= packet.len(),
            table == packet@.skip(t as int),
            programs == table.subrange(8, end as int),
            first_program(programs.skip(i - 8)) == pmt_pid_of(packet@),
        decreases end - i,
    {
        let ghost rest = programs.skip(i - 8);
        assert(rest[0] == packet@[t + i] && rest[1] == packet@[t + i + 1]);
        assert(rest[2] == packet@[t + i + 2] && rest[3] == packet@[t + i + 3]);
        assert(rest.skip(4) =~= programs.skip(i + 4 - 8));
        if packet[t + i] != 0 || packet[t + i + 1] != 0 {
            return Some((packet[t + i + 2] % 32) as u16 * 256 + packet[t + i + 3] as u16);
        }
        i += 4;
    }
    None
}

// ---------------------------------------------------------------------------
// Segments

/// One segment of the stream.
pub struct Segment {
    pub seq: u64,
    pub duration: Duration,
    pub data: Vec<u8>,
    /// First segment of an encoder run: its timeline is unrelated to what a player may have played
    /// before, the playlist says so.
    pub discontinuity: bool,
}

/// What a segment holds, its duration in nanoseconds.
pub struct SegmentText {
    pub seq: u64,
    pub duration: nat,
    pub data: Seq<u8>,
    pub discontinuity: bool,
}

impl View for Segment {
    type V = SegmentText;

    open spec fn view(&self) -> SegmentText {
        SegmentText {
            seq: self.seq,
            duration: self.duration@,
            data: self.data@,
            discontinuity: self.discontinuity,
        }
    }
}

/// The latest tables in the stream.
pub struct Tables {
    pub pat: Seq<u8>,
    pub pmt: Seq<u8>,
    pub pmt_pid: Option<u16>,
}

/// What one packet makes of the tables, and whether it is more than a table.
pub open spec fn absorb(tables: Tables, packet: Seq<u8>) -> (Tables, bool) {
    if pid_of(packet) == 0 {
        (Tables { pat: packet, pmt_pid: pmt_pid_of(packet), ..tables }, false)
    } else if Some(pid_of(packet)) == tables.pmt_pid {
        (Tables { pmt: packet, ..tables }, false)
    } else {
        (tables, true)
    }
}

/// Packet number `i` of the data.
pub open spec fn packet_at(data: Seq<u8>, i: int) -> Seq<u8> {
    data.subrange(i * TS_PACKET, (i + 1) * TS_PACKET)
}

/// What the first `n` packets of the data make of the tables, and whether one of them is more than
/// a table.
pub open spec fn scan(tables: Tables, data: Seq<u8>, n: nat) -> (Tables, bool)
    decreases n,
{
    if n == 0 {
        (tables, false)
    } else {
        let (before, content) = scan(tables, data, (n - 1) as nat);
        let (after, more) = absorb(before, packet_at(data, n - 1));
        (after, content || more)
    }
}

/// How many whole packets the data holds.
pub open spec fn packets(data: Seq<u8>) -> nat {
    data.len() / TS_PACKET as nat
}

/// Whether every PAT in the data can be read.
pub open spec fn tables_readable(data: Seq<u8>) -> bool {
    forall|i: int|
        0 <= i < packets(data) && pid_of(#[trigger] packet_at(data, i)) == 0 ==> readable(
            packet_at(data, i),
        )
}

/// Whether every PAT in the data can be read.
pub fn check_tables(data: &[u8]) -> (r: bool)
    ensures
        r == tables_readable(data@),
{
    let n: usize = data.len() / TS_PACKET;
    let mut i: usize = 0;
    while i < n
        invariant
            i <= n,
            n == packets(data@),
            n * TS_PACKET <= data.len(),
            forall|j: int|
                0 <= j < i && pid_of(#[trigger] packet_at(data@, j)) == 0 ==> readable(
                    packet_at(data@, j),
                ),
        decreases n - i,
    {
        let packet = slice_subrange(data, i * TS_PACKET, (i + 1) * TS_PACKET);
        assert(packet@ == packet_at(data@, i as int));
        if pid(packet) == 0 && !is_readable(packet) {
            return false;
        }
        i += 1;
    }
    true
}

/// Cuts a packet stream into segments. Feed every packet in order, a finished segment comes back
/// on the packet that starts the next one.
pub struct Segmenter {
    pat: Vec<u8>,
    pmt: Vec<u8>,
    pmt_pid: Option<u16>,
    current: Vec<u8>,
    start: Option<Duration>,
    next_seq: u64,
    first: bool,
}

/// Where a segmenter stands: the tables, the segment under way with the time at which it started
/// in nanoseconds, and the numbering.
pub struct Cutting {
    pub tables: Tables,
    pub current: Seq<u8>,
    pub start: Option<nat>,
    pub next_seq: u64,
    pub first: bool,
}

impl View for Segmenter {
    type V = Cutting;

    closed spec fn view(&self) -> Cutting {
        Cutting {
            tables: Tables { pat: self.pat@, pmt: self.pmt@, pmt_pid: self.pmt_pid },
            current: self.current@,
            start: match self.start {
                Some(start) => Some(start@),
                None => None,
            },
            next_seq: self.next_seq,
            first: self.first,
        }
    }
}

impl Cutting {
    /// Nothing is kept before the first keyframe.
    pub open spec fn valid(self) -> bool {
        self.start is None ==> self.current.len() == 0
    }

    /// A segmenter that has seen nothing.
    pub open spec fn fresh(next_seq: u64) -> Cutting {
        Cutting {
            tables: Tables { pat: Seq::empty(), pmt: Seq::empty(), pmt_pid: None },
            current: Seq::empty(),
            start: None,
            next_seq,
            first: true,
        }
    }

    /// The tables after the data.
    pub open spec fn tables_after(self, data: Seq<u8>) -> Tables {
        scan(self.tables, data, packets(data)).0
    }

    /// Whether the data starts a new segment: it holds a flagged packet that is not a table, at a
    /// later time than the one at which the segment under way started.
    pub open spec fn cuts(self, data: Seq<u8>, keyframe: bool, pts: nat) -> bool {
        &&& keyframe
        &&& scan(self.tables, data, packets(data)).1
        &&& self.start matches Some(start) ==> pts > start
    }

    /// The segment that the data finishes.
    pub open spec fn finished(self, data: Seq<u8>, keyframe: bool, pts: nat) -> Option<
        SegmentText,
    > {
        match self.start {
            Some(start) => if self.cuts(data, keyframe, pts) {
                Some(
                    SegmentText {
                        seq: self.next_seq,
                        duration: (pts - start) as nat,
                        data: self.current,
                        discontinuity: self.first,
                    },
                )
            } else {
                None
            },
            None => None,
        }
    }

    /// Where the segmenter stands after the data. A new segment starts with the tables; what comes
    /// before the first keyframe is dropped.
    pub open spec fn pushed(self, data: Seq<u8>, keyframe: bool, pts: nat) -> Cutting {
        let tables = self.tables_after(data);
        if self.cuts(data, keyframe, pts) {
            let finishes = self.start is Some;
            let kept = if finishes {
                Seq::empty()
            } else {
                self.current
            };
            Cutting {
                tables,
                current: kept + tables.pat + tables.pmt + data,
                start: Some(pts),
                next_seq: if finishes {
                    (self.next_seq + 1) as u64
                } else {
                    self.next_seq
                },
                first: self.first && !finishes,
            }
        } else if self.start is Some {
            Cutting { tables, current: self.current + data, ..self }
        } else {
            Cutting { tables, ..self }
        }
    }
}

impl Segmenter {
    /// A segmenter that numbers its segments from `next_seq` on.
    pub fn new(next_seq: u64) -> (r: Segmenter)
        ensures
            r@ == Cutting::fresh(next_seq),
            r@.valid(),
    {
        Segmenter {
            pat: Vec::new(),
            pmt: Vec::new(),
            pmt_pid: None,
            current: Vec::new(),
            start: None,
            next_seq,
            first: true,
        }
    }

    /// The number of the next segment.
    pub fn next_seq(&self) -> (r: u64)
        ensures
            r == self@.next_seq,
    {
        self.next_seq
    }

    /// One buffer from the muxer, one or more whole ts packets. `keyframe` is the buffer flag
    /// mpegtsmux sets on the packet that starts a video keyframe, `pts` that packet's timestamp.
    /// The flag is also on the tables it sends first, which are not a cut, and only one cut per
    /// timestamp.
    pub fn push(&mut self, data: &[u8], keyframe: bool, pts: Duration) -> (r: Option<Segment>)
        requires
            tables_readable(data@),
            old(self)@.finished(data@, keyframe, pts@) is Some ==> old(self)@.next_seq < u64::MAX,
        ensures
            final(self)@ == old(self)@.pushed(data@, keyframe, pts@),
            old(self)@.valid() ==> final(self)@.valid(),
            match r {
                Some(segment) => old(self)@.finished(data@, keyframe, pts@) == Some(segment@),
                None => old(self)@.finished(data@, keyframe, pts@) is None,
            },
    {
        let content = self.scan_tables(data);
        let starts = keyframe && content && match self.start {
            Some(start) => pts.longer_than(start),
            None => true,
        };
        let mut done: Option<Segment> = None;
        if starts {
            if let Some(start) = self.start {
                done = Some(self.finish(pts.minus(start)));
            }
            self.start = Some(pts);
            extend(&mut self.current, self.pat.as_slice());
            extend(&mut self.current, self.pmt.as_slice());
        }
        // Nothing before the first keyframe is decodable
        if self.start.is_some() {
            extend(&mut self.current, data);
        }
        done
    }

    /// Takes the tables out of the data. Whether a packet of it is more than a table.
    fn scan_tables(&mut self, data: &[u8]) -> (content: bool)
        requires
            tables_readable(data@),
        ensures
            content == scan(old(self)@.tables, data@, packets(data@)).1,
            final(self)@ == (Cutting { tables: old(self)@.tables_after(data@), ..old(self)@ }),
            final(self).start == old(self).start,
    {
        let n: usize = data.len() / TS_PACKET;
        let mut content = false;
        let mut i: usize = 0;
        while i < n
            invariant
                i <= n,
                n == packets(data@),
                n * TS_PACKET <= data.len(),
                tables_readable(data@),
                content == scan(old(self)@.tables, data@, i as nat).1,
                self@ == (Cutting {
                    tables: scan(old(self)@.tables, data@, i as nat).0,
                    ..old(self)@
                }),
                self.start == old(self).start,
            decreases n - i,
        {
            let packet = slice_subrange(data, i * TS_PACKET, (i + 1) * TS_PACKET);
            assert(packet@ == packet_at(data@, i as int));
            let p = pid(packet);
            if p == 0 {
                self.pat = vstd::slice::slice_to_vec(packet);
                self.pmt_pid = pmt_pid_from_pat(packet);
            } else if self.pmt_pid == Some(p) {
                self.pmt = vstd::slice::slice_to_vec(packet);
            } else {
                content = true;
            }
            i += 1;
        }
        content
    }

    /// Closes the segment under way.
    fn finish(&mut self, duration: Duration) -> (r: Segment)
        requires
            old(self)@.next_seq < u64::MAX,
        ensures
            r@ == (SegmentText {
                seq: old(self)@.next_seq,
                duration: duration@,
                data: old(self)@.current,
                discontinuity: old(self)@.first,
            }),
            final(self)@ == (Cutting {
                current: Seq::empty(),
                next_seq: (old(self)@.next_seq + 1) as u64,
                first: false,
                ..old(self)@
            }),
    {
        let seq = self.next_seq;
        self.next_seq = seq + 1;
        let discontinuity = self.first;
        self.first = false;
        let mut data: Vec<u8> = Vec::new();
        core::mem::swap(&mut data, &mut self.current);
        Segment { seq, duration, data, discontinuity }
    }
}

/// Appends bytes to a buffer.
fn extend(buffer: &mut Vec<u8>, bytes: &[u8])
    ensures
        final(buffer)@ == old(buffer)@ + bytes@,
{
    buffer.extend_from_slice(bytes);
    assert(buffer@ =~= old(buffer)@ + bytes@);
}

// ---------------------------------------------------------------------------
// What a run of the segmenter gives

/// One buffer handed to the segmenter.
pub struct Push {
    pub data: Seq<u8>,
    pub keyframe: bool,
    pub pts: nat,
}

impl Cutting {
    /// Where the segmenter stands after a run of buffers.
    pub open spec fn after_run(self, run: Seq<Push>) -> Cutting
        decreases run.len(),
    {
        if run.len() == 0 {
            self
        } else {
            let p = run.last();
            self.after_run(run.drop_last()).pushed(p.data, p.keyframe, p.pts)
        }
    }

    /// The segments that a run of buffers finishes, in order.
    pub open spec fn segments(self, run: Seq<Push>) -> Seq<SegmentText>
        decreases run.len(),
    {
        if run.len() == 0 {
            Seq::empty()
        } else {
            let p = run.last();
            let earlier = self.segments(run.drop_last());
            match self.after_run(run.drop_last()).finished(p.data, p.keyframe, p.pts) {
                Some(segment) => earlier.push(segment),
                None => earlier,
            }
        }
    }
}

/// The data of a run of buffers, one after the other.
pub open spec fn joined(run: Seq<Push>) -> Seq<u8>
    decreases run.len(),
{
    if run.len() == 0 {
        Seq::empty()
    } else {
        joined(run.drop_last()) + run.last().data
    }
}

/// The durations of segments added up.
pub open spec fn total(segments: Seq<SegmentText>) -> nat
    decreases segments.len(),
{
    if segments.len() == 0 {
        0
    } else {
        total(segments.drop_last()) + segments.last().duration
    }
}

/// Nothing is kept before the first keyframe, whatever came.
pub proof fn law_run_stays_valid(c: Cutting, run: Seq<Push>)
    requires
        c.valid(),
    ensures
        c.after_run(run).valid(),
    decreases run.len(),
{
    if run.len() > 0 {
        law_run_stays_valid(c, run.drop_last());
    }
}

/// The segments of a run are numbered one after the other from where the segmenter was told to
/// start, only the first is marked as a new timeline, and none is of no length.
pub proof fn law_segments_are_numbered(next_seq: u64, run: Seq<Push>)
    requires
        next_seq + Cutting::fresh(next_seq).segments(run).len() <= u64::MAX,
    ensures
        ({
            let segments = Cutting::fresh(next_seq).segments(run);
            let end = Cutting::fresh(next_seq).after_run(run);
            &&& segments.len() <= run.len()
            &&& end.next_seq == next_seq + segments.len()
            &&& end.first == (segments.len() == 0)
            &&& forall|i: int|
                0 <= i < segments.len() ==> {
                    &&& (#[trigger] segments[i]).seq == next_seq + i
                    &&& segments[i].discontinuity == (i == 0)
                    &&& segments[i].duration > 0
                }
        }),
    decreases run.len(),
{
    if run.len() > 0 {
        law_segments_are_numbered(next_seq, run.drop_last());
    }
}

/// The durations leave no gap: from the time at which a segment started, they add up to the time
/// at which the segment under way started.
pub proof fn law_durations_leave_no_gap(c: Cutting, run: Seq<Push>)
    requires
        c.start is Some,
    ensures
        c.after_run(run).start is Some,
        c.start->0 + total(c.segments(run)) == c.after_run(run).start->0,
    decreases run.len(),
{
    if run.len() > 0 {
        law_durations_leave_no_gap(c, run.drop_last());
        let p = run.last();
        let before = c.after_run(run.drop_last());
        if let Some(segment) = before.finished(p.data, p.keyframe, p.pts) {
            assert(c.segments(run).drop_last() =~= c.segments(run.drop_last()));
        }
    }
}

/// Whether no buffer of the run starts a new segment.
pub open spec fn no_cut(c: Cutting, run: Seq<Push>) -> bool {
    forall|i: int|
        0 <= i < run.len() ==> {
            let p = #[trigger] run[i];
            !c.after_run(run.take(i)).cuts(p.data, p.keyframe, p.pts)
        }
}

proof fn lemma_no_cut_push(c: Cutting, p: Push)
    requires
        c.start is Some,
        !c.cuts(p.data, p.keyframe, p.pts),
    ensures
        c.pushed(p.data, p.keyframe, p.pts) == (Cutting {
            tables: c.tables_after(p.data),
            current: c.current + p.data,
            ..c
        }),
        c.finished(p.data, p.keyframe, p.pts) is None,
{
}

proof fn lemma_no_cut_run(c: Cutting, run: Seq<Push>)
    requires
        c.start is Some,
        no_cut(c, run),
    ensures
        c.after_run(run).start == c.start,
        c.after_run(run).current == c.current + joined(run),
        c.after_run(run).next_seq == c.next_seq,
        c.after_run(run).first == c.first,
        c.segments(run).len() == 0,
    decreases run.len(),
{
    if run.len() == 0 {
        assert(c.current + joined(run) =~= c.current);
    } else {
        let n = run.len() - 1;
        let earlier = run.drop_last();
        assert(run.take(n) =~= earlier);
        assert(run[n] == run.last());
        assert forall|i: int| 0 <= i < earlier.len() implies {
            let p = #[trigger] earlier[i];
            !c.after_run(earlier.take(i)).cuts(p.data, p.keyframe, p.pts)
        } by {
            assert(earlier[i] == run[i]);
            assert(earlier.take(i) =~= run.take(i));
        }
        lemma_no_cut_run(c, earlier);
        lemma_no_cut_push(c.after_run(earlier), run.last());
        lemma_join(c.current, joined(earlier), run.last().data);
    }
}

/// A segment starts with the tables as they were at its keyframe, and then holds every buffer from
/// the keyframe up to the next one, in order, with nothing lost and nothing added.
pub proof fn law_segment_contents(c: Cutting, keyframe: Push, run: Seq<Push>, next: Push)
    requires
        c.valid(),
        c.cuts(keyframe.data, keyframe.keyframe, keyframe.pts),
        ({
            let begun = c.pushed(keyframe.data, keyframe.keyframe, keyframe.pts);
            no_cut(begun, run) && begun.after_run(run).cuts(next.data, next.keyframe, next.pts)
        }),
    ensures
        ({
            let begun = c.pushed(keyframe.data, keyframe.keyframe, keyframe.pts);
            let tables = c.tables_after(keyframe.data);
            let segment = begun.after_run(run).finished(next.data, next.keyframe, next.pts);
            &&& segment is Some
            &&& segment->0.data == tables.pat + tables.pmt + keyframe.data + joined(run)
            &&& segment->0.duration == next.pts - keyframe.pts
        }),
{
    let begun = c.pushed(keyframe.data, keyframe.keyframe, keyframe.pts);
    let tables = c.tables_after(keyframe.data);
    lemma_no_cut_run(begun, run);
    let kept = if c.start is Some {
        Seq::empty()
    } else {
        c.current
    };
    assert(kept =~= Seq::empty());
    assert(kept + tables.pat + tables.pmt + keyframe.data =~= tables.pat + tables.pmt
        + keyframe.data);
}

// ---------------------------------------------------------------------------
// Paths

/// The path of the segment with this number.
pub open spec fn path_of(seq: nat) -> Seq<char> {
    "/hls/"@ + decimal(seq) + ".ts"@
}

/// The segment number that a request path names, `/hls/<seq>.ts`.
pub open spec fn seq_named(path: Seq<char>) -> Option<nat> {
    let rest = path.skip("/hls/"@.len() as int);
    if "/hls/"@.is_prefix_of(path) && ".ts"@.is_suffix_of(rest) {
        number(rest.take(rest.len() - ".ts"@.len()), u64::MAX as nat)
    } else {
        None
    }
}

/// The segment sequence a request names, `/hls/<seq>.ts`.
pub fn segment_seq(path: &str) -> (r: Option<u64>)
    ensures
        match r {
            Some(seq) => seq_named(path@) == Some(seq as nat),
            None => seq_named(path@) is None,
        },
{
    match strip_prefix(path, "/hls/") {
        Some(rest) => {
            assert(rest@ =~= path@.skip("/hls/"@.len() as int));
            match strip_suffix(rest, ".ts") {
                Some(digits) => {
                    assert(digits@ =~= rest@.take(rest@.len() - ".ts"@.len()));
                    parse_u64(digits)
                },
                None => None,
            }
        },
        None => None,
    }
}

/// The path of the segment with this number.
pub fn segment_path(seq: u64) -> (r: String)
    ensures
        r@ == path_of(seq as nat),
{
    let mut r = "/hls/".to_owned();
    r.append(to_decimal(seq).as_str());
    r.append(".ts");
    r
}

/// A segment's path names that segment.
pub proof fn law_segment_paths_round_trip(seq: u64)
    ensures
        seq_named(path_of(seq as nat)) == Some(seq as nat),
{
    let path = path_of(seq as nat);
    let rest = path.skip("/hls/"@.len() as int);
    assert("/hls/"@ =~= path.subrange(0, "/hls/"@.len() as int));
    assert(rest =~= decimal(seq as nat) + ".ts"@);
    assert(".ts"@ =~= rest.subrange(rest.len() - ".ts"@.len(), rest.len() as int));
    assert(rest.take(rest.len() - ".ts"@.len()) =~= decimal(seq as nat));
    law_decimal_round_trip(seq as nat, u64::MAX as nat);
}

/// No segment has the path of the playlist.
pub proof fn law_playlist_is_no_segment()
    ensures
        seq_named(PLAYLIST_PATH@) is None,
{
    reveal_strlit("/hls/stream.m3u8");
    reveal_strlit("/hls/");
    reveal_strlit(".ts");
    let rest = PLAYLIST_PATH@.skip(5);
    let tail = rest.subrange(rest.len() - 3, rest.len() as int);
    assert(tail[0] == '3');
    assert(".ts"@[0] == '.');
}

// ---------------------------------------------------------------------------
// The playlist

/// How `{:.3}` shows the seconds of a span as a binary floating point number.
pub uninterp spec fn seconds_text(secs: u64, nanos: u32) -> Seq<char>;

/// A number of thousandths as a decimal fraction with three places.
pub open spec fn thousandths(n: nat) -> Seq<char> {
    decimal(n / 1000) + "."@ + decimal_digits(n % 1000, 3)
}

/// Whether a span is short enough, and far enough from the middle between two milliseconds, that
/// its binary approximation lies next to the same millisecond.
pub open spec fn plainly_rounded(secs: u64, nanos: u32) -> bool {
    secs < 0x10_0000 && nanos % 1_000_000 != 500_000
}

/// `std::time::Duration::as_secs_f64`, shown by `format!` with three places. The text is a
/// function of the span. Within twelve days, and but for the spans in the very middle between two
/// milliseconds, it is the span to the nearest millisecond; how those in the middle are shown
/// depends on the binary approximation and is not said here.
#[verifier::external_body]
fn show_seconds(secs: u64, nanos: u32) -> (r: String)
    requires
        nanos < 1_000_000_000,
    ensures
        r@ == seconds_text(secs, nanos),
        plainly_rounded(secs, nanos) ==> r@ == thousandths(
            ((secs * 1_000_000_000 + nanos + 500_000) / 1_000_000) as nat,
        ),
{
    format!("{:.3}", std::time::Duration::new(secs, nanos).as_secs_f64())
}

/// The seconds of a span, of the given nanoseconds, as the playlist shows them.
pub open spec fn seconds_shown(span: nat) -> Seq<char> {
    let secs = (span / 1_000_000_000) as u64;
    let nanos = (span % 1_000_000_000) as u32;
    if plainly_rounded(secs, nanos) {
        thousandths((span + 500_000) / 1_000_000)
    } else {
        seconds_text(secs, nanos)
    }
}

/// What `f64::round` makes of the seconds of a span as a binary floating point number, as a `u32`.
pub uninterp spec fn seconds_rounded(secs: u64, nanos: u32) -> u32;

/// `std::time::Duration::as_secs_f64`, rounded by `f64::round` and cast to a `u32`. The number is a
/// function of the span. Within twelve days it is the span to the nearest second, the middle
/// between two rounded up; what the binary approximation of a longer span is rounded to is not said
/// here.
#[verifier::external_body]
fn round_seconds(secs: u64, nanos: u32) -> (r: u32)
    requires
        nanos < 1_000_000_000,
    ensures
        r == seconds_rounded(secs, nanos),
        secs < 0x10_0000 ==> r == (secs * 1_000_000_000 + nanos + 500_000_000) / 1_000_000_000,
{
    std::time::Duration::new(secs, nanos).as_secs_f64().round() as u32
}

/// The seconds of a span, of the given nanoseconds, to the nearest second as its binary
/// approximation has it.
pub open spec fn rounded_secs(span: nat) -> nat {
    let secs = (span / 1_000_000_000) as u64;
    let nanos = (span % 1_000_000_000) as u32;
    if secs < 0x10_0000 {
        (span + 500_000_000) / 1_000_000_000
    } else {
        seconds_rounded(secs, nanos) as nat
    }
}

/// The newest segments in the ring, as many as the playlist lists.
pub open spec fn listed(ring: Seq<Segment>) -> Seq<Segment> {
    if ring.len() <= PLAYLIST_SEGMENTS {
        ring
    } else {
        ring.skip(ring.len() - PLAYLIST_SEGMENTS)
    }
}

/// The longest duration in whole seconds, and at least `SEGMENT_SECS`.
pub open spec fn target_duration(segments: Seq<Segment>) -> nat
    decreases segments.len(),
{
    if segments.len() == 0 {
        SEGMENT_SECS as nat
    } else {
        let others = target_duration(segments.drop_last());
        let last = rounded_secs(segments.last()@.duration);
        if last > others {
            last
        } else {
            others
        }
    }
}

/// The lines for one segment.
pub open spec fn entry(segment: SegmentText) -> Seq<char> {
    (if segment.discontinuity {
        "#EXT-X-DISCONTINUITY\n"@
    } else {
        Seq::empty()
    }) + ("#EXTINF:"@ + seconds_shown(segment.duration) + ",\n"@ + path_of(segment.seq as nat)
        + "\n"@)
}

/// The lines for segments, in order.
pub open spec fn entries(segments: Seq<Segment>) -> Seq<char>
    decreases segments.len(),
{
    if segments.len() == 0 {
        Seq::empty()
    } else {
        entries(segments.drop_last()) + entry(segments.last()@)
    }
}

/// The live playlist that lists the given segments.
pub open spec fn playlist_text(segments: Seq<Segment>) -> Seq<char> {
    let first = if segments.len() == 0 {
        0nat
    } else {
        segments.first().seq as nat
    };
    "#EXTM3U\n#EXT-X-VERSION:3\n#EXT-X-TARGETDURATION:"@ + decimal(target_duration(segments))
        + "\n#EXT-X-MEDIA-SEQUENCE:"@ + decimal(first) + "\n"@ + entries(segments)
}

fn entry_lines(segment: &Segment) -> (r: String)
    ensures
        r@ == entry(segment@),
{
    let secs = segment.duration.as_secs();
    let nanos = segment.duration.subsec_nanos();
    let seconds = show_seconds(secs, nanos);
    assert(secs * 1_000_000_000 + nanos == segment.duration@);
    let mut line = "#EXTINF:".to_owned();
    line.append(seconds.as_str());
    line.append(",\n");
    line.append(segment_path(segment.seq).as_str());
    line.append("\n");
    let mut r = if segment.discontinuity {
        "#EXT-X-DISCONTINUITY\n".to_owned()
    } else {
        String::new()
    };
    r.append(line.as_str());
    r
}

fn round_secs(span: Duration) -> (r: u32)
    ensures
        r == rounded_secs(span@),
{
    let secs = span.as_secs();
    let nanos = span.subsec_nanos();
    assert(secs * 1_000_000_000 + nanos == span@);
    round_seconds(secs, nanos)
}

/// The live playlist for the newest segments in the ring. A player treats a playlist without
/// EXT-X-ENDLIST as live and refetches it.
pub fn playlist(ring: &VecDeque<Segment>) -> (r: String)
    ensures
        r@ == playlist_text(listed(ring@)),
{
    let skip: usize = if ring.len() <= PLAYLIST_SEGMENTS {
        0
    } else {
        ring.len() - PLAYLIST_SEGMENTS
    };
    let ghost shown = listed(ring@);
    assert(shown =~= ring@.skip(skip as int));
    let mut target: u32 = SEGMENT_SECS;
    let mut lines = String::new();
    let mut i: usize = skip;
    while i < ring.len()
        invariant
            skip <= i <= ring.len(),
            shown == ring@.skip(skip as int),
            target == target_duration(shown.take(i - skip)),
            lines@ == entries(shown.take(i - skip)),
        decreases ring.len() - i,
    {
        let segment = &ring[i];
        assert(shown[i - skip] == ring@[i as int]);
        assert(shown.take(i + 1 - skip).drop_last() =~= shown.take(i - skip));
        let rounded = round_secs(segment.duration);
        if rounded > target {
            target = rounded;
        }
        lines.append(entry_lines(segment).as_str());
        i += 1;
    }
    assert(shown.take(shown.len() as int) =~= shown);
    let first: u64 = if skip < ring.len() {
        assert(shown.first() == ring@[skip as int]);
        ring[skip].seq
    } else {
        0
    };
    let mut r = "#EXTM3U\n#EXT-X-VERSION:3\n#EXT-X-TARGETDURATION:".to_owned();
    r.append(to_decimal(target as u64).as_str());
    r.append("\n#EXT-X-MEDIA-SEQUENCE:");
    r.append(to_decimal(first).as_str());
    r.append("\n");
    r.append(lines.as_str());
    r
}

/// The target duration is the least number of whole seconds, from `SEGMENT_SECS` on, that no
/// listed segment exceeds when it is rounded.
pub proof fn law_target_covers_segments(segments: Seq<Segment>)
    ensures
        target_duration(segments) >= SEGMENT_SECS,
        forall|i: int|
            0 <= i < segments.len() ==> rounded_secs((#[trigger] segments[i])@.duration)
                <= target_duration(segments),
        target_duration(segments) == SEGMENT_SECS || exists|i: int|
            0 <= i < segments.len() && target_duration(segments) == rounded_secs(
                (#[trigger] segments[i])@.duration,
            ),
    decreases segments.len(),
{
    if segments.len() > 0 {
        let others = segments.drop_last();
        law_target_covers_segments(others);
        assert(segments[segments.len() - 1] == segments.last());
        assert forall|i: int| 0 <= i < segments.len() implies rounded_secs(
            (#[trigger] segments[i])@.duration,
        ) <= target_duration(segments) by {
            if i < others.len() {
                assert(others[i] == segments[i]);
            }
        }
        if target_duration(segments) != SEGMENT_SECS && target_duration(segments)
            == target_duration(others) {
            let i = choose|i: int|
                0 <= i < others.len() && target_duration(others) == rounded_secs(
                    (#[trigger] others[i])@.duration,
                );
            assert(segments[i] == others[i]);
        }
    }
}

// ---------------------------------------------------------------------------
// Laws of the bytes

/// The identifier that packet number `i` of the data has on the wire: the low 13 bits of its second
/// and third byte.
pub open spec fn wire_pid(data: Seq<u8>, i: int) -> int {
    (data[188 * i + 1] * 256 + data[188 * i + 2]) % 8192
}

/// Packet number `j` is the latest PAT in front of packet number `n`.
pub open spec fn latest_pat(data: Seq<u8>, n: int, j: int) -> bool {
    &&& 0 <= j < n
    &&& wire_pid(data, j) == 0
    &&& forall|k: int| j < k < n ==> #[trigger] wire_pid(data, k) != 0
}

/// No packet in front of packet number `n` is a PAT.
pub open spec fn no_pat(data: Seq<u8>, n: int) -> bool {
    forall|k: int| 0 <= k < n ==> #[trigger] wire_pid(data, k) != 0
}

/// The PMT has this pid at packet number `n`: the latest PAT in front of it says so, or, with none
/// in the data, it was so before.
pub open spec fn pmt_pid_at(known: Option<u16>, data: Seq<u8>, n: int, pid: Option<u16>) -> bool {
    ||| no_pat(data, n) && pid == known
    ||| exists|j: int|
        #[trigger] latest_pat(data, n, j) && pid == pmt_pid_of(
            data.subrange(188 * j, 188 * j + 188),
        )
}

/// Packet number `i` is neither a PAT nor the PMT.
pub open spec fn plain_packet(known: Option<u16>, data: Seq<u8>, i: int) -> bool {
    &&& 0 <= i < data.len() / 188
    &&& wire_pid(data, i) != 0
    &&& exists|pid: Option<u16>|
        #[trigger] pmt_pid_at(known, data, i, pid) && pid != Some(wire_pid(data, i) as u16)
}

/// Packet number `i` is the PMT.
pub open spec fn pmt_packet(known: Option<u16>, data: Seq<u8>, i: int) -> bool {
    &&& 0 <= i < data.len() / 188
    &&& wire_pid(data, i) != 0
    &&& pmt_pid_at(known, data, i, Some(wire_pid(data, i) as u16))
}

proof fn lemma_wire_pid(data: Seq<u8>, i: int)
    requires
        0 <= i < data.len() / 188,
    ensures
        packet_at(data, i) == data.subrange(188 * i, 188 * i + 188),
        packet_at(data, i).len() == 188,
        pid_of(packet_at(data, i)) == wire_pid(data, i),
        0 <= wire_pid(data, i) < 8192,
{
    let packet = packet_at(data, i);
    assert(188 * i + 188 <= data.len());
    assert(packet[1] == data[188 * i + 1]);
    assert(packet[2] == data[188 * i + 2]);
    assert((packet[1] * 256 + packet[2]) % 8192 == (packet[1] as int % 32) * 256 + packet[2]);
}

proof fn lemma_pmt_pid_at_unique(
    known: Option<u16>,
    data: Seq<u8>,
    n: int,
    p: Option<u16>,
    q: Option<u16>,
)
    requires
        pmt_pid_at(known, data, n, p),
        pmt_pid_at(known, data, n, q),
    ensures
        p == q,
{
    if no_pat(data, n) {
        assert forall|j: int| !#[trigger] latest_pat(data, n, j) by {
            if 0 <= j < n {
                assert(wire_pid(data, j) != 0);
            }
        }
    } else {
        let i = choose|j: int|
            #[trigger] latest_pat(data, n, j) && p == pmt_pid_of(
                data.subrange(188 * j, 188 * j + 188),
            );
        let j = choose|j: int|
            #[trigger] latest_pat(data, n, j) && q == pmt_pid_of(
                data.subrange(188 * j, 188 * j + 188),
            );
        if i < j {
            assert(wire_pid(data, j) != 0);
        }
        if j < i {
            assert(wire_pid(data, i) != 0);
        }
    }
}

/// The first packet further changes which PAT is the latest only if it is one.
proof fn lemma_latest_pat_step(data: Seq<u8>, n: int)
    requires
        0 <= n,
    ensures
        wire_pid(data, n) == 0 ==> latest_pat(data, n + 1, n) && !no_pat(data, n + 1),
        wire_pid(data, n) != 0 ==> no_pat(data, n) == no_pat(data, n + 1),
        wire_pid(data, n) != 0 ==> forall|j: int|
            #[trigger] latest_pat(data, n, j) ==> latest_pat(data, n + 1, j),
{
    if wire_pid(data, n) != 0 {
        assert forall|j: int| #[trigger] latest_pat(data, n, j) implies latest_pat(
            data,
            n + 1,
            j,
        ) by {
            assert forall|k: int| j < k < n + 1 implies #[trigger] wire_pid(data, k) != 0 by {}
        }
        if no_pat(data, n) {
            assert forall|k: int| 0 <= k < n + 1 implies #[trigger] wire_pid(data, k) != 0 by {}
        }
    }
}

/// The PAT and the pid of the PMT that are kept are those of the latest PAT.
pub proof fn law_latest_pat_is_kept(tables: Tables, data: Seq<u8>, n: nat)
    requires
        n <= data.len() / 188,
    ensures
        pmt_pid_at(tables.pmt_pid, data, n as int, scan(tables, data, n).0.pmt_pid),
        no_pat(data, n as int) ==> scan(tables, data, n).0.pat == tables.pat,
        forall|j: int|
            #[trigger] latest_pat(data, n as int, j) ==> scan(tables, data, n).0.pat
                == data.subrange(188 * j, 188 * j + 188),
    decreases n,
{
    if n == 0 {
        assert(no_pat(data, 0));
    } else {
        let m = (n - 1) as nat;
        law_latest_pat_is_kept(tables, data, m);
        lemma_wire_pid(data, m as int);
        lemma_latest_pat_step(data, m as int);
        let before = scan(tables, data, m).0;
        let packet = packet_at(data, m as int);
        if wire_pid(data, m as int) == 0 {
            assert(latest_pat(data, n as int, m as int));
            assert(pmt_pid_at(tables.pmt_pid, data, n as int, pmt_pid_of(packet)));
            assert forall|j: int| #[trigger] latest_pat(data, n as int, j) implies j == m by {
                if j < m {
                    assert(wire_pid(data, m as int) != 0);
                }
            }
        } else {
            if !no_pat(data, m as int) {
                let j = choose|j: int|
                    #[trigger] latest_pat(data, m as int, j) && before.pmt_pid == pmt_pid_of(
                        data.subrange(188 * j, 188 * j + 188),
                    );
                assert(latest_pat(data, n as int, j));
            }
            assert(pmt_pid_at(tables.pmt_pid, data, n as int, before.pmt_pid));
            assert forall|j: int| #[trigger] latest_pat(data, n as int, j) implies latest_pat(
                data,
                m as int,
                j,
            ) by {
                if j == m {
                    assert(wire_pid(data, m as int) == 0);
                }
            }
        }
    }
}

/// Data is more than tables exactly if one of its packets is neither a PAT nor the PMT.
pub proof fn law_content_is_a_plain_packet(tables: Tables, data: Seq<u8>, n: nat)
    requires
        n <= data.len() / 188,
    ensures
        scan(tables, data, n).1 <==> exists|i: int|
            0 <= i < n && #[trigger] plain_packet(tables.pmt_pid, data, i),
    decreases n,
{
    if n > 0 {
        let m = (n - 1) as nat;
        law_content_is_a_plain_packet(tables, data, m);
        law_latest_pat_is_kept(tables, data, m);
        lemma_wire_pid(data, m as int);
        let before = scan(tables, data, m).0;
        let more = absorb(before, packet_at(data, m as int)).1;
        assert(more <==> plain_packet(tables.pmt_pid, data, m as int)) by {
            if plain_packet(tables.pmt_pid, data, m as int) {
                let pid = choose|pid: Option<u16>|
                    #[trigger] pmt_pid_at(tables.pmt_pid, data, m as int, pid) && pid != Some(
                        wire_pid(data, m as int) as u16,
                    );
                lemma_pmt_pid_at_unique(tables.pmt_pid, data, m as int, pid, before.pmt_pid);
            }
        }
        if scan(tables, data, n).1 {
            if scan(tables, data, m).1 {
                let i = choose|i: int|
                    0 <= i < m && #[trigger] plain_packet(tables.pmt_pid, data, i);
                assert(plain_packet(tables.pmt_pid, data, i));
            } else {
                assert(plain_packet(tables.pmt_pid, data, m as int));
            }
        }
    }
}

/// The PMT that is kept is the latest one.
pub proof fn law_latest_pmt_is_kept(tables: Tables, data: Seq<u8>, n: nat, i: int)
    requires
        n <= data.len() / 188,
        -1 <= i < n,
        i >= 0 ==> pmt_packet(tables.pmt_pid, data, i),
        forall|k: int| i < k < n ==> !#[trigger] pmt_packet(tables.pmt_pid, data, k),
    ensures
        scan(tables, data, n).0.pmt == if i >= 0 {
            data.subrange(188 * i, 188 * i + 188)
        } else {
            tables.pmt
        },
    decreases n,
{
    if n > 0 {
        let m = (n - 1) as nat;
        law_latest_pat_is_kept(tables, data, m);
        lemma_wire_pid(data, m as int);
        let before = scan(tables, data, m).0;
        if i == m {
            lemma_pmt_pid_at_unique(
                tables.pmt_pid,
                data,
                m as int,
                before.pmt_pid,
                Some(wire_pid(data, m as int) as u16),
            );
        } else {
            law_latest_pmt_is_kept(tables, data, m, i);
            assert(!pmt_packet(tables.pmt_pid, data, m as int));
        }
    }
}

/// While a segment is under way, a buffer with the keyframe flag that holds a packet which is
/// neither a PAT nor the PMT, at any time later than the one at which the segment started, finishes
/// it, and no other buffer does. The segment lasts from the one time to the other and holds what
/// was gathered.
pub proof fn law_keyframe_finishes_the_segment(
    c: Cutting,
    data: Seq<u8>,
    keyframe: bool,
    start: nat,
    pts: nat,
)
    requires
        c.start == Some(start),
    ensures
        ({
            let r = c.finished(data, keyframe, pts);
            &&& r is Some <==> keyframe && pts > start && exists|i: int|
                #[trigger] plain_packet(c.tables.pmt_pid, data, i)
            &&& r is Some ==> r->0.duration == pts - start && r->0.data == c.current && r->0.seq
                == c.next_seq && r->0.discontinuity == c.first
        }),
{
    let n = data.len() / 188;
    law_content_is_a_plain_packet(c.tables, data, n);
    if exists|i: int| #[trigger] plain_packet(c.tables.pmt_pid, data, i) {
        let i = choose|i: int| #[trigger] plain_packet(c.tables.pmt_pid, data, i);
        assert(0 <= i < n && plain_packet(c.tables.pmt_pid, data, i));
    }
}

/// What a buffer leaves behind. Before the first keyframe nothing is kept, and no segment comes; a
/// keyframe starts a segment with the tables and itself; any other buffer is added to the segment
/// under way, whose start it leaves alone. Finishing a segment counts the number up by one.
pub proof fn law_push_gathers_from_the_keyframe_on(
    c: Cutting,
    data: Seq<u8>,
    keyframe: bool,
    pts: nat,
)
    requires
        c.valid(),
        c.next_seq < u64::MAX,
    ensures
        ({
            let r = c.pushed(data, keyframe, pts);
            let plain = exists|i: int| #[trigger] plain_packet(c.tables.pmt_pid, data, i);
            let starts = keyframe && plain && (c.start is None || pts > c.start->0);
            &&& c.start is None ==> c.finished(data, keyframe, pts) is None
            &&& starts ==> r.start == Some(pts) && r.current == r.tables.pat + r.tables.pmt + data
            &&& !starts ==> r.start == c.start && r.current == if c.start is Some {
                c.current + data
            } else {
                Seq::empty()
            }
            &&& r.next_seq == c.next_seq + if starts && c.start is Some {
                1int
            } else {
                0int
            }
            &&& r.first == (c.first && !(starts && c.start is Some))
            &&& r.tables == scan(c.tables, data, data.len() / 188).0
        }),
{
    let n = data.len() / 188;
    let r = c.pushed(data, keyframe, pts);
    law_content_is_a_plain_packet(c.tables, data, n);
    if exists|i: int| #[trigger] plain_packet(c.tables.pmt_pid, data, i) {
        let i = choose|i: int| #[trigger] plain_packet(c.tables.pmt_pid, data, i);
        assert(0 <= i < n && plain_packet(c.tables.pmt_pid, data, i));
    }
    assert(c.start is None ==> c.current =~= Seq::empty());
    assert(Seq::<u8>::empty() + r.tables.pat + r.tables.pmt + data =~= r.tables.pat + r.tables.pmt
        + data);
}

/// The number of the program in entry number `j` of a list of four byte entries.
pub open spec fn program_at(programs: Seq<u8>, j: int) -> int {
    programs[4 * j] * 256 + programs[4 * j + 1]
}

/// The pid in entry number `j` of a list of four byte entries: the low 13 bits of its last two bytes.
pub open spec fn program_pid_at(programs: Seq<u8>, j: int) -> int {
    (programs[4 * j + 2] * 256 + programs[4 * j + 3]) % 8192
}

proof fn lemma_program_skip(programs: Seq<u8>, j: int)
    requires
        0 <= j,
        4 * j + 8 <= programs.len(),
    ensures
        program_at(programs.skip(4), j) == program_at(programs, j + 1),
        program_pid_at(programs.skip(4), j) == program_pid_at(programs, j + 1),
{
    let rest = programs.skip(4);
    let k = 4 * j;
    assert(rest[k] == programs[k + 4]);
    assert(rest[k + 1] == programs[k + 5]);
    assert(rest[k + 2] == programs[k + 6]);
    assert(rest[k + 3] == programs[k + 7]);
}

proof fn lemma_first_entry(programs: Seq<u8>)
    requires
        programs.len() >= 4,
    ensures
        first_program(programs) == if program_at(programs, 0) != 0 {
            Some(program_pid_at(programs, 0) as u16)
        } else {
            first_program(programs.skip(4))
        },
{
    assert((programs[2] * 256 + programs[3]) % 8192 == (programs[2] as int % 32) * 256
        + programs[3]);
}

/// The first program in a list of four byte entries is the first whose number is not 0, and there
/// is none if all are 0.
pub proof fn law_first_program(programs: Seq<u8>, i: int)
    requires
        0 <= i,
        4 * i <= programs.len(),
        forall|j: int| 0 <= j < i ==> #[trigger] program_at(programs, j) == 0,
    ensures
        programs.len() < 4 * i + 4 ==> first_program(programs) is None,
        programs.len() >= 4 * i + 4 && program_at(programs, i) != 0 ==> first_program(programs)
            == Some(program_pid_at(programs, i) as u16),
    decreases i,
{
    if programs.len() >= 4 {
        lemma_first_entry(programs);
    }
    if i > 0 {
        let rest = programs.skip(4);
        assert(program_at(programs, 0) == 0);
        assert forall|j: int| 0 <= j < i - 1 implies #[trigger] program_at(rest, j) == 0 by {
            lemma_program_skip(programs, j);
            assert(program_at(programs, j + 1) == 0);
        }
        if programs.len() >= 4 * i + 4 {
            lemma_program_skip(programs, i - 1);
        }
        law_first_program(rest, i - 1);
    }
}

/// A PAT: a header of four bytes, an adaptation field where the header says so, a pointer with the
/// bytes that it skips, and the table.
pub open spec fn pat_packet(
    head: Seq<u8>,
    adaptation: Seq<u8>,
    pointer: u8,
    skipped: Seq<u8>,
    table: Seq<u8>,
) -> Seq<u8> {
    head + adaptation + seq![pointer] + skipped + table
}

/// Whether the parts of a PAT fit together.
pub open spec fn pat_parts(
    head: Seq<u8>,
    adaptation: Seq<u8>,
    pointer: u8,
    skipped: Seq<u8>,
    table: Seq<u8>,
) -> bool {
    &&& head.len() == 4
    &&& (head[3] / 32) % 2 == 0 ==> adaptation.len() == 0
    &&& (head[3] / 32) % 2 == 1 ==> adaptation.len() > 0 && adaptation.len() == 1 + adaptation[0]
    &&& skipped.len() == pointer
    &&& table.len() >= 3
}

/// The table of a PAT starts behind all that stands in front of it.
proof fn lemma_table_of(
    head: Seq<u8>,
    adaptation: Seq<u8>,
    pointer: u8,
    skipped: Seq<u8>,
    table: Seq<u8>,
)
    requires
        pat_parts(head, adaptation, pointer, skipped, table),
    ensures
        ({
            let packet = pat_packet(head, adaptation, pointer, skipped, table);
            &&& table_start(packet) is Some
            &&& packet.skip(table_start(packet)->0) == table
            &&& readable(packet)
        }),
{
    let packet = pat_packet(head, adaptation, pointer, skipped, table);
    let p: int = 4 + adaptation.len() as int;
    assert(packet[3] == head[3]);
    if (head[3] / 32) % 2 == 1 {
        assert(packet[4] == adaptation[0]);
    }
    assert(payload_start(packet) == p);
    assert(packet[p] == pointer);
    let t = p + 1 + pointer;
    assert(table_start(packet) == Some(t));
    assert(packet.skip(t) =~= table);
}

/// Every PAT of the stream can be read, and it announces nothing if its section is longer than its
/// table or too short for the table's header.
pub proof fn law_pat_is_readable(
    head: Seq<u8>,
    adaptation: Seq<u8>,
    pointer: u8,
    skipped: Seq<u8>,
    table: Seq<u8>,
)
    requires
        pat_parts(head, adaptation, pointer, skipped, table),
    ensures
        readable(pat_packet(head, adaptation, pointer, skipped, table)),
        ({
            let end = (table[1] as int % 16) * 256 + table[2] - 1;
            !(8 <= end <= table.len()) ==> pmt_pid_of(
                pat_packet(head, adaptation, pointer, skipped, table),
            ) is None
        }),
{
    lemma_table_of(head, adaptation, pointer, skipped, table);
}

/// The pid of the PMT is that of the first of the four byte entries, between the table's header and
/// its checksum, whose program is not 0. There is none if every entry has program 0.
pub proof fn law_pat_names_the_first_program(
    head: Seq<u8>,
    adaptation: Seq<u8>,
    pointer: u8,
    skipped: Seq<u8>,
    table: Seq<u8>,
    end: int,
    i: int,
)
    requires
        pat_parts(head, adaptation, pointer, skipped, table),
        end == (table[1] as int % 16) * 256 + table[2] - 1,
        8 <= end <= table.len(),
        0 <= i,
        8 + 4 * i <= end,
        forall|j: int| 0 <= j < i ==> #[trigger] program_at(table.subrange(8, end), j) == 0,
    ensures
        8 + 4 * i + 4 > end ==> pmt_pid_of(
            pat_packet(head, adaptation, pointer, skipped, table),
        ) is None,
        8 + 4 * i + 4 <= end && program_at(table.subrange(8, end), i) != 0 ==> pmt_pid_of(
            pat_packet(head, adaptation, pointer, skipped, table),
        ) == Some(program_pid_at(table.subrange(8, end), i) as u16),
{
    lemma_table_of(head, adaptation, pointer, skipped, table);
    law_first_program(table.subrange(8, end), i);
}

/// The packet identifier is the low 13 bits of the second and third byte.
pub proof fn law_pid(packet: Seq<u8>)
    ensures
        pid_of(packet) == (packet[1] * 256 + packet[2]) % 8192,
{
    assert((packet[1] * 256 + packet[2]) % 8192 == (packet[1] as int % 32) * 256 + packet[2]);
}

// ---------------------------------------------------------------------------
// Laws of the playlist

/// A path names a segment exactly if it is `/hls/`, a number, and `.ts`.
pub proof fn law_segment_paths(path: Seq<char>, digits: Seq<char>)
    ensures
        seq_named("/hls/"@ + digits + ".ts"@) == number(digits, u64::MAX as nat),
        match seq_named(path) {
            Some(n) => exists|d: Seq<char>|
                path == #[trigger] ("/hls/"@ + d) + ".ts"@ && number(d, u64::MAX as nat) == Some(n),
            None => forall|d: Seq<char>|
                path == #[trigger] ("/hls/"@ + d) + ".ts"@ ==> number(d, u64::MAX as nat) is None,
        },
{
    assert forall|d: Seq<char>| seq_named(#[trigger] ("/hls/"@ + d) + ".ts"@) == number(
        d,
        u64::MAX as nat,
    ) by {
        lemma_segment_path(d);
    }
    assert("/hls/"@ + digits + ".ts"@ == ("/hls/"@ + digits) + ".ts"@);
    if seq_named(path) is Some {
        let rest = path.skip("/hls/"@.len() as int);
        let d = rest.take(rest.len() - ".ts"@.len());
        assert(path =~= ("/hls/"@ + d) + ".ts"@);
    }
}

proof fn lemma_segment_path(digits: Seq<char>)
    ensures
        seq_named("/hls/"@ + digits + ".ts"@) == number(digits, u64::MAX as nat),
{
    let path = "/hls/"@ + digits + ".ts"@;
    let rest = path.skip("/hls/"@.len() as int);
    assert("/hls/"@ =~= path.subrange(0, "/hls/"@.len() as int));
    assert(rest =~= digits + ".ts"@);
    assert(".ts"@ =~= rest.subrange(rest.len() - ".ts"@.len(), rest.len() as int));
    assert(rest.take(rest.len() - ".ts"@.len()) =~= digits);
}

/// The playlist lists the four newest segments, or all if there are fewer.
pub proof fn law_playlist_lists_the_newest(ring: Seq<Segment>)
    ensures
        listed(ring).len() == if ring.len() < 4 {
            ring.len()
        } else {
            4
        },
        forall|i: int|
            0 <= i < listed(ring).len() ==> #[trigger] listed(ring)[i] == ring[ring.len()
                - listed(ring).len() + i],
{
}

/// The lines of segments are those of each, one after the other, and each says how long the segment
/// lasts and where it is. A new timeline is announced by one more line in front, and only there.
pub proof fn law_playlist_lines(a: Seq<Segment>, b: Seq<Segment>, segment: Segment)
    ensures
        entries(a + b) == entries(a) + entries(b),
        entries(seq![segment]) == entry(segment@),
        entries(Seq::empty()) == Seq::<char>::empty(),
        entry(SegmentText { discontinuity: true, ..segment@ }) == "#EXT-X-DISCONTINUITY\n"@ + entry(
            SegmentText { discontinuity: false, ..segment@ },
        ),
        "#EXTINF:"@.is_prefix_of(entry(SegmentText { discontinuity: false, ..segment@ })),
        holds(
            entry(segment@),
            seconds_shown(segment@.duration) + ",\n"@ + path_of(segment.seq as nat) + "\n"@,
        ),
    decreases b.len(),
{
    let lines = seconds_shown(segment@.duration) + ",\n"@ + path_of(segment.seq as nat) + "\n"@;
    let plain = entry(SegmentText { discontinuity: false, ..segment@ });
    assert(plain =~= "#EXTINF:"@ + lines);
    assert("#EXTINF:"@ =~= plain.subrange(0, "#EXTINF:"@.len() as int));
    let front = if segment.discontinuity {
        "#EXT-X-DISCONTINUITY\n"@ + "#EXTINF:"@
    } else {
        "#EXTINF:"@
    };
    assert(entry(segment@) =~= front + lines);
    law_holds(front, lines, Seq::empty());
    reveal_with_fuel(entries, 2);
    assert(seq![segment].drop_last() =~= Seq::empty());
    assert(entries(seq![segment]) =~= entry(segment@));
    if b.len() == 0 {
        assert(a + b =~= a);
        assert(entries(a) + entries(b) =~= entries(a));
    } else {
        law_playlist_lines(a, b.drop_last(), segment);
        assert((a + b).drop_last() =~= a + b.drop_last());
        assert(entries(a + b) =~= entries(a) + entries(b));
    }
}

/// A playlist starts as one, numbers its segments from the first that it lists, and ends with their
/// lines. Nothing says that it ends.
pub proof fn law_playlist_counts_from_the_first(segments: Seq<Segment>)
    ensures
        "#EXTM3U\n"@.is_prefix_of(playlist_text(segments)),
        entries(segments).is_suffix_of(playlist_text(segments)),
        segments.len() > 0 ==> holds(
            playlist_text(segments),
            "\n#EXT-X-MEDIA-SEQUENCE:"@ + decimal(segments[0].seq as nat) + "\n"@,
        ),
        holds(
            playlist_text(segments),
            "#EXT-X-TARGETDURATION:"@ + decimal(target_duration(segments))
                + "\n#EXT-X-MEDIA-SEQUENCE:"@,
        ),
{
    let first = if segments.len() == 0 {
        0nat
    } else {
        segments.first().seq as nat
    };
    let start = "#EXTM3U\n#EXT-X-VERSION:3\n#EXT-X-TARGETDURATION:"@;
    let longest = decimal(target_duration(segments));
    let lines = entries(segments);
    let n = decimal(first);
    let named = "\n#EXT-X-MEDIA-SEQUENCE:"@;
    let head = start + longest + named + n + "\n"@;
    law_holds(start + longest, named + n + "\n"@, Seq::empty());
    lemma_join(start + longest, named, n);
    lemma_join(start + longest, named + n, "\n"@);
    assert(head == (start + longest) + (named + n + "\n"@));
    law_holds_within(Seq::empty(), head, lines, named + n + "\n"@);
    assert(lines =~= (head + lines).subrange(head.len() as int, (head + lines).len() as int));
    lemma_playlist_start(longest, n + "\n"@ + lines);
    lemma_join(start + longest + named, n, "\n"@);
    lemma_join(start + longest + named, n + "\n"@, lines);
}

proof fn lemma_playlist_start(longest: Seq<char>, rest: Seq<char>)
    ensures
        ({
            let text = "#EXTM3U\n#EXT-X-VERSION:3\n#EXT-X-TARGETDURATION:"@ + longest
                + "\n#EXT-X-MEDIA-SEQUENCE:"@ + rest;
            &&& "#EXTM3U\n"@.is_prefix_of(text)
            &&& holds(text, "#EXT-X-TARGETDURATION:"@ + longest + "\n#EXT-X-MEDIA-SEQUENCE:"@)
        }),
{
    let start = "#EXTM3U\n#EXT-X-VERSION:3\n#EXT-X-TARGETDURATION:"@;
    let version = "#EXTM3U\n#EXT-X-VERSION:3\n"@;
    let target = "#EXT-X-TARGETDURATION:"@;
    let named = "\n#EXT-X-MEDIA-SEQUENCE:"@;
    let text = start + longest + named + rest;
    assert(start =~= version + target) by {
        reveal_strlit("#EXTM3U\n#EXT-X-VERSION:3\n#EXT-X-TARGETDURATION:");
        reveal_strlit("#EXTM3U\n#EXT-X-VERSION:3\n");
        reveal_strlit("#EXT-X-TARGETDURATION:");
    }
    assert("#EXTM3U\n"@.is_prefix_of(start)) by {
        reveal_strlit("#EXTM3U\n#EXT-X-VERSION:3\n#EXT-X-TARGETDURATION:");
        reveal_strlit("#EXTM3U\n");
        assert("#EXTM3U\n"@ =~= start.subrange(0, 8));
    }
    let k = "#EXTM3U\n"@.len() as int;
    assert(start.subrange(0, k) =~= text.subrange(0, k));
    lemma_join(version, target, longest);
    lemma_join(version, target + longest, named);
    law_holds(version, target + longest + named, rest);
}

/// A span is shown as the nearest number of milliseconds, with three places, and counted as the
/// nearest number of seconds, the middle between two as the greater.
pub proof fn law_spans_are_rounded(span: nat, millis: nat)
    requires
        span < 0x10_0000 * 1_000_000_000,
    ensures
        span % 1_000_000 != 500_000 && -500_000 < millis * 1_000_000 - span < 500_000
            ==> seconds_shown(span) == decimal(millis / 1000) + "."@ + decimal_digits(
            millis % 1000,
            3,
        ),
        rounded_secs(span) * 1_000_000_000 <= span + 500_000_000,
        span + 500_000_000 < (rounded_secs(span) + 1) * 1_000_000_000,
{
    let nanos = span % 1_000_000_000;
    assert(nanos % 1_000_000 == span % 1_000_000);
    assert(span / 1_000_000_000 < 0x10_0000);
}

/// A segment is what its parts are.
pub proof fn law_segment_parts(segment: Segment)
    ensures
        segment@.seq == segment.seq,
        segment@.duration == segment.duration@,
        segment@.data == segment.data@,
        segment@.discontinuity == segment.discontinuity,
{
}

/// A new segmenter has gathered nothing, numbers from where it is told to, and its first segment
/// starts a new timeline.
pub proof fn law_fresh_segmenter(next_seq: u64, r: Segmenter)
    requires
        call_ensures(Segmenter::new, (next_seq,), r),
    ensures
        r@.next_seq == next_seq,
        r@.first,
        r@.start is None,
        r@.current.len() == 0,
        r@.tables.pmt_pid is None && r@.tables.pat.len() == 0 && r@.tables.pmt.len() == 0,
{
}

/// A packet whose adaptation field or pointer reaches beyond its end holds no table: it can be read,
/// and announces nothing.
pub proof fn law_packet_without_a_table(head: Seq<u8>, length: u8, pointer: u8, rest: Seq<u8>)
    requires
        head.len() == 4,
        (head[3] / 32) % 2 == 1 ==> rest.len() <= length,
        (head[3] / 32) % 2 == 0 ==> rest.len() < pointer,
    ensures
        ({
            let packet = head + seq![if (head[3] / 32) % 2 == 1 {
                length
            } else {
                pointer
            }] + rest;
            &&& readable(packet)
            &&& pmt_pid_of(packet) is None
        }),
{
    let first = if (head[3] / 32) % 2 == 1 {
        length
    } else {
        pointer
    };
    let packet = head + seq![first] + rest;
    assert(packet[3] == head[3]);
    assert(packet[4] == first);
    assert(table_start(packet) is None);
}

/// The tables in the data can be read exactly if each of its packets that is a PAT can.
pub proof fn law_readable_tables(data: Seq<u8>)
    ensures
        tables_readable(data) <==> forall|i: int|
            0 <= i < data.len() / 188 && #[trigger] wire_pid(data, i) == 0 ==> readable(
                data.subrange(188 * i, 188 * i + 188),
            ),
{
    if tables_readable(data) {
        assert forall|i: int|
            0 <= i < data.len() / 188 && #[trigger] wire_pid(data, i) == 0 implies readable(
            data.subrange(188 * i, 188 * i + 188),
        ) by {
            lemma_wire_pid(data, i);
        }
    } else {
        let i = choose|i: int|
            0 <= i < packets(data) && pid_of(#[trigger] packet_at(data, i)) == 0 && !readable(
                packet_at(data, i),
            );
        lemma_wire_pid(data, i);
        assert(wire_pid(data, i) == 0);
    }
}

} // verus!
