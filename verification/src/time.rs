//! Spans of time, and the pacing of a loop at the frame rate.
use vstd::prelude::*;

verus! {

/// The nanoseconds in a second.
pub const NANOS_PER_SEC: u32 = 1_000_000_000;

/// A span of time: whole seconds and the nanoseconds beyond them.
#[derive(Debug, Clone, Copy, PartialEq, Eq, Structural)]
pub struct Duration {
    secs: u64,
    nanos: u32,
}

impl View for Duration {
    type V = nat;

    /// The span in nanoseconds.
    closed spec fn view(&self) -> nat {
        (self.secs * NANOS_PER_SEC + self.nanos) as nat
    }
}

impl Duration {
    #[verifier::type_invariant]
    spec fn inv(&self) -> bool {
        self.nanos < NANOS_PER_SEC
    }

    /// The span of `secs` seconds and `nanos` nanoseconds.
    pub fn new(secs: u64, nanos: u32) -> (r: Duration)
        requires
            nanos < NANOS_PER_SEC,
        ensures
            r@ == secs * NANOS_PER_SEC + nanos,
    {
        Duration { secs, nanos }
    }

    /// The span of whole seconds.
    pub fn from_secs(secs: u64) -> (r: Duration)
        ensures
            r@ == secs * NANOS_PER_SEC,
    {
        Duration { secs, nanos: 0 }
    }

    /// The span of whole milliseconds.
    pub fn from_millis(millis: u64) -> (r: Duration)
        ensures
            r@ == millis * 1_000_000,
    {
        Duration { secs: millis / 1000, nanos: (millis % 1000) as u32 * 1_000_000 }
    }

    /// The span of whole nanoseconds.
    pub fn from_nanos(nanos: u64) -> (r: Duration)
        ensures
            r@ == nanos,
    {
        Duration {
            secs: nanos / 1_000_000_000,
            nanos: (nanos % 1_000_000_000) as u32,
        }
    }

    /// The whole seconds in the span.
    pub fn as_secs(&self) -> (r: u64)
        ensures
            r == self@ / NANOS_PER_SEC as nat,
    {
        proof {
            use_type_invariant(self);
        }
        self.secs
    }

    /// The nanoseconds beyond the whole seconds.
    pub fn subsec_nanos(&self) -> (r: u32)
        ensures
            r == self@ % NANOS_PER_SEC as nat,
            r < NANOS_PER_SEC,
    {
        proof {
            use_type_invariant(self);
        }
        self.nanos
    }

    /// Whether this span is longer than the other.
    pub fn longer_than(&self, other: Duration) -> (r: bool)
        ensures
            r == (self@ > other@),
    {
        proof {
            use_type_invariant(self);
            use_type_invariant(&other);
        }
        self.secs > other.secs || (self.secs == other.secs && self.nanos > other.nanos)
    }

    /// The span between a shorter one and this one.
    pub fn minus(&self, other: Duration) -> (r: Duration)
        requires
            self@ >= other@,
        ensures
            r@ == self@ - other@,
    {
        proof {
            use_type_invariant(self);
            use_type_invariant(&other);
        }
        if self.nanos >= other.nanos {
            Duration { secs: self.secs - other.secs, nanos: self.nanos - other.nanos }
        } else {
            Duration {
                secs: self.secs - other.secs - 1,
                nanos: self.nanos + NANOS_PER_SEC - other.nanos,
            }
        }
    }

    /// The two spans one after the other.
    pub fn plus(&self, other: Duration) -> (r: Duration)
        requires
            (self@ + other@) / NANOS_PER_SEC as nat <= u64::MAX,
        ensures
            r@ == self@ + other@,
    {
        proof {
            use_type_invariant(self);
            use_type_invariant(&other);
        }
        let nanos: u32 = self.nanos + other.nanos;
        if nanos >= NANOS_PER_SEC {
            Duration { secs: self.secs + other.secs + 1, nanos: nanos - NANOS_PER_SEC }
        } else {
            Duration { secs: self.secs + other.secs, nanos }
        }
    }
}

// ---------------------------------------------------------------------------
// Pacing

/// The nanoseconds that one frame takes. A frame rate of zero counts as one.
pub open spec fn interval(framerate: nat) -> nat {
    if framerate == 0 {
        1_000_000_000
    } else {
        1_000_000_000nat / framerate
    }
}

/// The time that one frame takes at the given rate.
pub fn frame_interval(framerate: u32) -> (r: Duration)
    ensures
        r@ == interval(framerate as nat),
{
    if framerate == 0 {
        Duration::from_secs(1)
    } else {
        Duration::from_nanos(1_000_000_000 / framerate as u64)
    }
}

/// When the turn after the one due at `deadline` is due: one frame later, or right away where that
/// has passed.
pub open spec fn turn_after(deadline: nat, frame: nat, now: nat) -> nat {
    if deadline + frame >= now {
        deadline + frame
    } else {
        now
    }
}

/// What a feed loop does between two turns.
pub struct Turn {
    /// When the next turn is due.
    pub deadline: Duration,
    /// How long to sleep before it, if at all.
    pub wait: Option<Duration>,
}

/// Paces a feed loop at the frame rate without the drift that a sleep after the work adds. A turn
/// that overran starts the next one right away. Both times count from one common start.
pub fn next_turn(deadline: Duration, frame: Duration, now: Duration) -> (r: Turn)
    requires
        (deadline@ + frame@) / NANOS_PER_SEC as nat <= u64::MAX,
    ensures
        r.deadline@ == turn_after(deadline@, frame@, now@),
        match r.wait {
            Some(wait) => deadline@ + frame@ >= now@ && now@ + wait@ == r.deadline@,
            None => deadline@ + frame@ < now@,
        },
{
    let due = deadline.plus(frame);
    if now.longer_than(due) {
        Turn { deadline: now, wait: None }
    } else {
        Turn { deadline: due, wait: Some(due.minus(now)) }
    }
}

/// When the turn is due that follows turns which ended at the given times.
pub open spec fn turns_after(deadline: nat, frame: nat, ends: Seq<nat>) -> nat
    decreases ends.len(),
{
    if ends.len() == 0 {
        deadline
    } else {
        turn_after(turns_after(deadline, frame, ends.drop_last()), frame, ends.last())
    }
}

/// The pace does not drift: where no turn overran, the turns are due exactly one frame apart,
/// however much of each frame the work took.
pub proof fn law_no_drift(deadline: nat, frame: nat, ends: Seq<nat>)
    requires
        forall|i: int| 0 <= i < ends.len() ==> #[trigger] ends[i] <= deadline + (i + 1) * frame,
    ensures
        turns_after(deadline, frame, ends) == deadline + ends.len() * frame,
    decreases ends.len(),
{
    if ends.len() > 0 {
        let n = ends.len();
        assert(ends[n - 1] == ends.last());
        assert forall|i: int| 0 <= i < n - 1 implies #[trigger] ends.drop_last()[i] <= deadline + (i
            + 1) * frame by {
            assert(ends.drop_last()[i] == ends[i]);
        }
        law_no_drift(deadline, frame, ends.drop_last());
        assert((n - 1) * frame + frame == n * frame) by (nonlinear_arith)
            requires
                n > 0,
        ;
    }
}

/// A turn is never due in the past, and never sooner than one frame after the one before it.
pub proof fn law_turn_is_due_later(deadline: nat, frame: nat, now: nat)
    ensures
        turn_after(deadline, frame, now) >= now,
        turn_after(deadline, frame, now) >= deadline + frame,
{
}

/// The next turn is due at the later of one frame on and now: no later than either needs.
pub proof fn law_turn_is_due_as_soon_as_it_may(deadline: nat, frame: nat, now: nat, t: nat)
    requires
        t >= now,
        t >= deadline + frame,
    ensures
        turn_after(deadline, frame, now) <= t,
{
}

/// As many frames as the rate says fit into a second, and they would not fit if each took one
/// nanosecond more. A rate of zero is one of a frame in a second.
pub proof fn law_frames_fill_the_second(framerate: nat)
    ensures
        interval(0) == interval(1),
        framerate > 0 ==> interval(framerate) * framerate <= 1_000_000_000,
        framerate > 0 ==> 1_000_000_000 < (interval(framerate) + 1) * framerate,
{
    if framerate > 0 {
        let r = interval(framerate);
        vstd::arithmetic::div_mod::lemma_fundamental_div_mod(1_000_000_000, framerate as int);
        vstd::arithmetic::div_mod::lemma_mod_bound(1_000_000_000, framerate as int);
        assert(r * framerate <= 1_000_000_000 && 1_000_000_000 < (r + 1) * framerate)
            by (nonlinear_arith)
            requires
                1_000_000_000 == framerate * r + 1_000_000_000int % framerate as int,
                0 <= 1_000_000_000int % framerate as int,
                1_000_000_000int % (framerate as int) < framerate,
        ;
    }
}

// ---------------------------------------------------------------------------
// Laws of spans

/// A second is a thousand milliseconds and a thousand million nanoseconds.
pub proof fn law_units(n: u64, secs: Duration, millis: Duration, nanos: Duration)
    requires
        call_ensures(Duration::from_secs, (n,), secs),
        call_ensures(Duration::from_millis, (n,), millis),
        call_ensures(Duration::from_nanos, (n,), nanos),
    ensures
        nanos@ == n,
        millis@ == 1_000_000 * nanos@,
        secs@ == 1000 * millis@,
{
}

/// Taking off what was put on gives the span back, and the longer of two spans is the one that
/// something is left of.
pub proof fn law_plus_and_minus(a: Duration, b: Duration, sum: Duration, rest: Duration, longer: bool)
    requires
        call_ensures(Duration::plus, (&a, b), sum),
        call_ensures(Duration::minus, (&sum, b), rest),
        call_ensures(Duration::longer_than, (&sum, b), longer),
    ensures
        rest@ == a@,
        longer <==> a@ > 0,
{
}

/// The whole seconds and the nanoseconds beyond them make up the span.
pub proof fn law_parts_of_a_span(a: Duration, secs: u64, nanos: u32, whole: Duration)
    requires
        call_ensures(Duration::as_secs, (&a,), secs),
        call_ensures(Duration::subsec_nanos, (&a,), nanos),
        call_ensures(Duration::new, (secs, nanos), whole),
    ensures
        whole@ == a@,
        nanos < 1_000_000_000,
        secs * 1_000_000_000 <= a@,
{
}

/// A loop sleeps until exactly one frame after its last turn, and not at all where that has passed.
pub proof fn law_next_turn(deadline: Duration, frame: Duration, now: Duration, r: Turn)
    requires
        call_ensures(next_turn, (deadline, frame, now), r),
    ensures
        r.wait is Some <==> now@ <= deadline@ + frame@,
        r.wait is Some ==> now@ + (r.wait->0)@ == deadline@ + frame@ && r.deadline@ == deadline@
            + frame@,
        r.wait is None ==> r.deadline@ == now@,
{
}

} // verus!
