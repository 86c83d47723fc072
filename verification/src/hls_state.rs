//! What the players of the live playlist share: the segments that wait for their requests, and
//! whether an encoder runs to cut more of them.
use crate::hls;
use crate::hls::{Cutting, Push, Segment};
use crate::time::Duration;
use std::collections::VecDeque;
use vstd::prelude::*;
use vstd::slice::slice_to_vec;

verus! {

/// The seconds without a request after which the encoder stops.
pub const HLS_IDLE: u64 = 10;

/// The seconds that a playlist request waits for the first segments: longer than starting the
/// encoder and cutting them takes.
pub const HLS_START_WAIT: u64 = 8;

/// The encoder is not tied to a connection: a player fetches the playlist and each segment as its
/// own request. So it runs from the first request until `HLS_IDLE` passes without one, and the
/// segments it cut wait in a ring for the requests that name them. Times count from one common
/// start.
pub struct HlsState {
    ring: VecDeque<Segment>,
    next_seq: u64,
    last_request: Duration,
    running: bool,
    error: Option<String>,
}

/// What an `HlsState` holds.
pub struct Shared {
    /// The segments that can be asked for, oldest first.
    pub ring: Seq<Segment>,
    /// The number that the next run starts with. Carried across runs so that numbers never go
    /// backwards for a player that saw the previous run.
    pub next_seq: u64,
    /// When the last request came.
    pub last_request: nat,
    /// Whether an encoder runs.
    pub running: bool,
    /// Why the last run could not start.
    pub error: Option<Seq<char>>,
}

impl View for HlsState {
    type V = Shared;

    closed spec fn view(&self) -> Shared {
        Shared {
            ring: self.ring@,
            next_seq: self.next_seq,
            last_request: self.last_request@,
            running: self.running,
            error: match self.error {
                Some(e) => Some(e@),
                None => None,
            },
        }
    }
}

/// The newest segments of a ring, as many as it may hold.
pub open spec fn newest(ring: Seq<Segment>) -> Seq<Segment> {
    if ring.len() <= hls::RING_SEGMENTS {
        ring
    } else {
        ring.skip(ring.len() - hls::RING_SEGMENTS)
    }
}

/// The first segment of a ring with a number.
pub open spec fn numbered(ring: Seq<Segment>, seq: u64) -> Option<Seq<u8>>
    decreases ring.len(),
{
    if ring.len() == 0 {
        None
    } else if ring[0].seq == seq {
        Some(ring[0].data@)
    } else {
        numbered(ring.drop_first(), seq)
    }
}

/// What a playlist request gets.
pub enum Playlist {
    /// There are not enough segments yet, and they may still come.
    Wait,
    /// The encoder cannot deliver them.
    Unavailable,
    /// The playlist.
    Ready(String),
}

impl Shared {
    /// Whether a request starts an encoder.
    pub open spec fn starts(self) -> bool {
        !self.running
    }

    /// After a request. If no encoder runs one is started, and what went wrong before is forgotten.
    pub open spec fn touched(self, now: nat) -> Shared {
        Shared {
            last_request: now,
            running: true,
            error: if self.running {
                self.error
            } else {
                None
            },
            ..self
        }
    }

    /// With one more segment.
    pub open spec fn added(self, segment: Segment) -> Shared {
        Shared { ring: newest(self.ring.push(segment)), ..self }
    }

    /// After a run.
    pub open spec fn ended(self, next_seq: u64, error: Option<Seq<char>>) -> Shared {
        Shared { ring: Seq::empty(), next_seq, last_request: self.last_request, running: false, error }
    }

    /// Whether so long has passed without a request that the encoder is to stop.
    pub open spec fn idle_at(self, now: nat) -> bool {
        now > self.last_request + HLS_IDLE * 1_000_000_000
    }
}

impl HlsState {
    /// No segment, and no encoder.
    pub fn new(now: Duration) -> (r: HlsState)
        ensures
            r@ == (Shared {
                ring: Seq::empty(),
                next_seq: 0,
                last_request: now@,
                running: false,
                error: None,
            }),
    {
        let r = HlsState {
            ring: VecDeque::new(),
            next_seq: 0,
            last_request: now,
            running: false,
            error: None,
        };
        assert(r@.ring =~= Seq::empty());
        r
    }

    /// Notes a request. An encoder is to be started if none runs; the state then counts it as
    /// running.
    pub fn touch(&mut self, now: Duration) -> (start: bool)
        ensures
            start == old(self)@.starts(),
            final(self)@ == old(self)@.touched(now@),
    {
        self.last_request = now;
        if self.running {
            false
        } else {
            self.running = true;
            self.error = None;
            true
        }
    }

    /// The number that a new run starts with.
    pub fn next_seq(&self) -> (r: u64)
        ensures
            r == self@.next_seq,
    {
        self.next_seq
    }

    /// A segment that was cut joins the ring, and the oldest leave it where there are too many.
    pub fn add(&mut self, segment: Segment)
        ensures
            final(self)@ == old(self)@.added(segment),
            final(self)@.ring.len() <= hls::RING_SEGMENTS,
    {
        let ghost all = self.ring@.push(segment);
        self.ring.push_back(segment);
        assert(all.skip(0) =~= all);
        while self.ring.len() > hls::RING_SEGMENTS
            invariant
                self.ring.len() <= all.len(),
                self.ring@ == all.skip(all.len() - self.ring.len()),
                self.ring.len() == all.len() || self.ring.len() >= hls::RING_SEGMENTS,
                self@ == (Shared { ring: self.ring@, ..old(self)@ }),
            decreases self.ring.len(),
        {
            self.ring.pop_front();
            assert(self.ring@ =~= all.skip(all.len() - self.ring.len()));
        }
    }

    /// Whether so long has passed without a request that the encoder is to stop.
    pub fn idle(&self, now: Duration) -> (r: bool)
        ensures
            r == self@.idle_at(now@),
    {
        if self.last_request.longer_than(now) {
            false
        } else {
            now.minus(self.last_request).longer_than(Duration::from_secs(HLS_IDLE))
        }
    }

    /// A run has ended: its segments go, and the number that it would have cut next stays.
    pub fn finish_run(&mut self, next_seq: u64, error: Option<String>)
        ensures
            final(self)@ == old(self)@.ended(
                next_seq,
                match error {
                    Some(e) => Some(e@),
                    None => None,
                },
            ),
    {
        self.running = false;
        self.ring.clear();
        self.next_seq = next_seq;
        self.error = error;
        assert(self@.ring =~= Seq::empty());
    }

    /// What a playlist request gets: the playlist as soon as there are enough segments to start a
    /// player. `patient` says whether the request may still wait for them.
    pub fn playlist(&self, patient: bool) -> (r: Playlist)
        ensures
            if self@.ring.len() >= hls::MIN_SEGMENTS {
                r is Ready && r->Ready_0@ == hls::playlist_text(hls::listed(self@.ring))
            } else if patient && self@.error is None {
                r is Wait
            } else {
                r is Unavailable
            },
    {
        if self.ring.len() >= hls::MIN_SEGMENTS {
            Playlist::Ready(hls::playlist(&self.ring))
        } else if patient && self.error.is_none() {
            Playlist::Wait
        } else {
            Playlist::Unavailable
        }
    }

    /// The bytes of a segment that waits in the ring.
    pub fn segment(&self, seq: u64) -> (r: Option<Vec<u8>>)
        ensures
            match r {
                Some(data) => numbered(self@.ring, seq) == Some(data@),
                None => numbered(self@.ring, seq) is None,
            },
    {
        let ghost ring = self.ring@;
        let mut i: usize = 0;
        assert(ring.skip(0) =~= ring);
        while i < self.ring.len()
            invariant
                i <= self.ring.len(),
                ring == self.ring@,
                ring == self@.ring,
                numbered(ring, seq) == numbered(ring.skip(i as int), seq),
            decreases self.ring.len() - i,
        {
            assert(ring.skip(i as int)[0] == ring[i as int]);
            assert(ring.skip(i as int).drop_first() =~= ring.skip(i + 1));
            if self.ring[i].seq == seq {
                return Some(slice_to_vec(self.ring[i].data.as_slice()));
            }
            i += 1;
        }
        assert(ring.skip(i as int) =~= Seq::empty());
        None
    }
}

// ---------------------------------------------------------------------------
// Laws

/// Whether the numbers of the segments in a ring follow one another.
pub open spec fn consecutive(ring: Seq<Segment>) -> bool {
    forall|i: int| 0 <= i < ring.len() ==> (#[trigger] ring[i]).seq == ring[0].seq + i
}

/// Segments that come with consecutive numbers stay consecutive in the ring, though the oldest
/// leave it, and the newest is always there.
pub proof fn law_ring_stays_consecutive(ring: Seq<Segment>, segment: Segment)
    requires
        consecutive(ring),
        ring.len() > 0 ==> segment.seq == ring.last().seq + 1,
    ensures
        consecutive(newest(ring.push(segment))),
        newest(ring.push(segment)).len() > 0,
        newest(ring.push(segment)).last() == segment,
{
    let all = ring.push(segment);
    assert forall|i: int| 0 <= i < all.len() implies (#[trigger] all[i]).seq == all[0].seq + i by {
        if i < ring.len() {
            assert(all[i] == ring[i]);
        }
        if ring.len() > 0 {
            assert(all[0] == ring[0]);
            assert(ring[ring.len() - 1].seq == ring[0].seq + (ring.len() - 1));
        }
    }
    let kept = newest(all);
    let gone = all.len() - kept.len();
    assert forall|i: int| 0 <= i < kept.len() implies (#[trigger] kept[i]).seq == kept[0].seq
        + i by {
        assert(kept[i] == all[i + gone]);
        assert(kept[0] == all[gone]);
    }
}

/// Every segment of a ring with consecutive numbers is served under its number.
pub proof fn law_segments_are_served(ring: Seq<Segment>, i: int)
    requires
        consecutive(ring),
        0 <= i < ring.len(),
    ensures
        numbered(ring, ring[i].seq) == Some(ring[i].data@),
    decreases ring.len(),
{
    if i > 0 {
        let rest = ring.drop_first();
        assert(ring[0].seq != ring[i].seq);
        assert forall|k: int| 0 <= k < rest.len() implies (#[trigger] rest[k]).seq == rest[0].seq
            + k by {
            assert(rest[k] == ring[k + 1]);
            assert(rest[0] == ring[1]);
        }
        assert(rest[i - 1] == ring[i]);
        law_segments_are_served(rest, i - 1);
    }
}

/// Every segment that the playlist lists can be fetched: its path names its number, and the ring
/// holds its bytes under that number.
pub proof fn law_listed_segments_can_be_fetched(ring: Seq<Segment>, i: int)
    requires
        consecutive(ring),
        0 <= i < hls::listed(ring).len(),
    ensures
        ({
            let segment = hls::listed(ring)[i];
            &&& hls::seq_named(hls::path_of(segment.seq as nat)) == Some(segment.seq as nat)
            &&& numbered(ring, segment.seq) == Some(segment.data@)
        }),
{
    let segment = hls::listed(ring)[i];
    let skipped = ring.len() - hls::listed(ring).len();
    assert(segment == ring[i + skipped]);
    law_segments_are_served(ring, i + skipped);
    hls::law_segment_paths_round_trip(segment.seq);
}

/// The numbers never go backwards: every segment of a run is numbered above every segment of the
/// run before it.
pub proof fn law_numbers_never_go_backwards(
    next_seq: u64,
    first: Seq<Push>,
    second: Seq<Push>,
    i: int,
    j: int,
)
    requires
        next_seq + Cutting::fresh(next_seq).segments(first).len() + Cutting::fresh(
            Cutting::fresh(next_seq).after_run(first).next_seq,
        ).segments(second).len() <= u64::MAX,
        0 <= i < Cutting::fresh(next_seq).segments(first).len(),
        0 <= j < Cutting::fresh(Cutting::fresh(next_seq).after_run(first).next_seq).segments(
            second,
        ).len(),
    ensures
        Cutting::fresh(next_seq).segments(first)[i].seq < Cutting::fresh(
            Cutting::fresh(next_seq).after_run(first).next_seq,
        ).segments(second)[j].seq,
{
    hls::law_segments_are_numbered(next_seq, first);
    hls::law_segments_are_numbered(Cutting::fresh(next_seq).after_run(first).next_seq, second);
}

/// The ring holds the last six segments that were cut, or all if there are fewer.
pub proof fn law_ring_holds_the_last_six(ring: Seq<Segment>)
    ensures
        newest(ring).len() == if ring.len() < 6 {
            ring.len()
        } else {
            6
        },
        forall|i: int|
            0 <= i < newest(ring).len() ==> #[trigger] newest(ring)[i] == ring[ring.len() - newest(
                ring,
            ).len() + i],
{
}

/// A segment that joins is the newest in the ring and changes nothing else.
pub proof fn law_added_segment(shared: Shared, segment: Segment)
    ensures
        ({
            let r = shared.added(segment);
            &&& r.ring.len() > 0 && r.ring.last() == segment
            &&& shared.ring.len() < 6 ==> r.ring == shared.ring.push(segment)
            &&& r.next_seq == shared.next_seq && r.last_request == shared.last_request && r.running
                == shared.running && r.error == shared.error
        }),
{
}

/// What is served under a number is the first segment that has it, and nothing only if none has.
pub proof fn law_numbered(ring: Seq<Segment>, seq: u64)
    ensures
        match numbered(ring, seq) {
            Some(data) => exists|i: int|
                {
                    &&& 0 <= i < ring.len()
                    &&& (#[trigger] ring[i]).seq == seq
                    &&& ring[i].data@ == data
                    &&& forall|j: int| 0 <= j < i ==> (#[trigger] ring[j]).seq != seq
                },
            None => forall|i: int| 0 <= i < ring.len() ==> (#[trigger] ring[i]).seq != seq,
        },
    decreases ring.len(),
{
    if ring.len() > 0 && ring[0].seq != seq {
        let rest = ring.drop_first();
        law_numbered(rest, seq);
        match numbered(rest, seq) {
            Some(data) => {
                let i = choose|i: int|
                    {
                        &&& 0 <= i < rest.len()
                        &&& (#[trigger] rest[i]).seq == seq
                        &&& rest[i].data@ == data
                        &&& forall|j: int| 0 <= j < i ==> (#[trigger] rest[j]).seq != seq
                    };
                assert(ring[i + 1] == rest[i]);
                assert forall|j: int| 0 <= j < i + 1 implies (#[trigger] ring[j]).seq != seq by {
                    if j > 0 {
                        assert(rest[j - 1] == ring[j]);
                    }
                }
            },
            None => {
                assert forall|j: int| 0 <= j < ring.len() implies (#[trigger] ring[j]).seq
                    != seq by {
                    if j > 0 {
                        assert(rest[j - 1] == ring[j]);
                    }
                }
            },
        }
    }
}

/// One encoder runs from a request until its run ends, and the next request then starts a new one
/// without the error of the last. While one runs a request only keeps it going.
pub proof fn law_one_encoder_runs(
    shared: Shared,
    first: nat,
    second: nat,
    next_seq: u64,
    error: Option<Seq<char>>,
)
    ensures
        shared.touched(first).running,
        shared.starts() <==> !shared.running,
        !shared.touched(first).starts(),
        shared.ended(next_seq, error).starts(),
        shared.touched(first).last_request == first,
        !shared.running ==> shared.touched(first).error is None,
        shared.running ==> shared.touched(first).error == shared.error,
        shared.touched(first).touched(second) == shared.touched(second),
        shared.touched(first).ring == shared.ring && shared.touched(first).next_seq
            == shared.next_seq,
        !shared.ended(next_seq, error).running,
        shared.ended(next_seq, error).error == error,
        shared.ended(next_seq, error).ring.len() == 0,
        shared.ended(next_seq, error).next_seq == next_seq,
        shared.ended(next_seq, error).last_request == shared.last_request,
        shared.ended(next_seq, error).touched(first).error is None,
        shared.ended(next_seq, error).touched(first).next_seq == next_seq,
{
}

/// The encoder is idle exactly when more than ten seconds have gone by since the last request.
pub proof fn law_idle_after_ten_seconds(shared: Shared, request: nat, now: nat)
    ensures
        shared.touched(request).idle_at(now) <==> now - request > 10_000_000_000,
        shared.idle_at(now) <==> now - shared.last_request > 10_000_000_000,
{
}

/// A playlist is given exactly if there are three segments or more, whatever went wrong. With fewer
/// a request waits as long as it may and nothing has gone wrong.
pub proof fn law_playlist_needs_three_segments(state: &HlsState, patient: bool, r: Playlist)
    requires
        call_ensures(HlsState::playlist, (state, patient), r),
    ensures
        r is Ready <==> state@.ring.len() > 2,
        r is Wait <==> state@.ring.len() <= 2 && patient && state@.error is None,
        r is Ready ==> r->Ready_0@ == hls::playlist_text(
            if state@.ring.len() == 3 {
                state@.ring
            } else {
                state@.ring.skip(state@.ring.len() - 4)
            },
        ),
{
    if state@.ring.len() == 4 {
        assert(state@.ring.skip(0) =~= state@.ring);
    }
}

/// At first nothing is there, and the first request starts an encoder that numbers from zero.
pub proof fn law_new_state(now: Duration, r: HlsState)
    requires
        call_ensures(HlsState::new, (now,), r),
    ensures
        r@.starts(),
        r@.ring.len() == 0,
        r@.next_seq == 0,
        r@.last_request == now@,
        r@.error is None,
{
}

} // verus!
