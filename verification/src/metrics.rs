//! Subscriber counts per stream type, exposed at GET /metrics. Each streaming handler holds a
//! [`ClientGuard`] for as long as its connection is open, the rtsp count is kept by the server's
//! client-connected / closed signals.
use crate::numbers::{signed_decimal, to_signed_decimal};
use crate::text::{holds, law_holds, law_holds_within, lemma_join};
use std::sync::atomic::{AtomicI64, Ordering};
use vstd::prelude::*;
use vstd::string::*;

verus! {

/// The counters that the exposition shows.
pub struct Counters {
    pub webm: AtomicI64,
    pub mjpeg: AtomicI64,
    pub mkv: AtomicI64,
    pub snapshot: AtomicI64,
    pub rtsp: AtomicI64,
    pub snapshots_total: AtomicI64,
}

/// Counts one client for as long as it lives.
pub struct ClientGuard(&'static AtomicI64);

impl ClientGuard {
    /// The counter that the guard counts on.
    pub closed spec fn counter(&self) -> &'static AtomicI64 {
        self.0
    }

    /// Adds one client to the counter. What the count then is, is left unsaid: the value in an
    /// atomic is shared with other threads.
    pub fn new(counter: &'static AtomicI64) -> (guard: Self)
        ensures
            guard.counter() == counter,
            exists|before: i64| #[trigger] counted_up(counter, before),
    {
        let before = count_up(AtomicI64::fetch_add, counter);
        assert(counted_up(counter, before));
        ClientGuard(counter)
    }
}

/// Whether `before` is what a counter can have held when one was added to it.
pub open spec fn counted_up(counter: &AtomicI64, before: i64) -> bool {
    call_ensures(AtomicI64::fetch_add, (counter, 1i64, Ordering::Relaxed), before)
}

/// Whether `value` is what a load of the counter can give.
pub open spec fn loaded(counter: &AtomicI64, value: i64) -> bool {
    call_ensures(AtomicI64::load, (counter, Ordering::Relaxed), value)
}

/// Adds one to a counter.
fn count_up<'a, F: Fn(&'a AtomicI64, i64, Ordering) -> i64>(fetch: F, counter: &'a AtomicI64) -> (r:
    i64)
    requires
        call_requires(fetch, (counter, 1i64, Ordering::Relaxed)),
    ensures
        call_ensures(fetch, (counter, 1i64, Ordering::Relaxed), r),
{
    fetch(counter, 1, Ordering::Relaxed)
}

/// Loads a counter.
fn load_counter<'a, F: Fn(&'a AtomicI64, Ordering) -> i64>(load: F, counter: &'a AtomicI64) -> (r:
    i64)
    requires
        call_requires(load, (counter, Ordering::Relaxed)),
    ensures
        call_ensures(load, (counter, Ordering::Relaxed), r),
{
    load(counter, Ordering::Relaxed)
}

/// Whether `before` is what a counter can have held when one was taken off it.
pub open spec fn counted_down(counter: &AtomicI64, before: i64) -> bool {
    call_ensures(AtomicI64::fetch_sub, (counter, 1i64, Ordering::Relaxed), before)
}

/// `AtomicI64::fetch_sub` takes one off the counter, hands out what it held before, and does not
/// panic. Which number that is, is left unsaid: other threads change it too.
#[verifier::external_body]
fn count_down(counter: &AtomicI64) -> (r: i64)
    ensures
        counted_down(counter, r),
    opens_invariants none
    no_unwind
{
    counter.fetch_sub(1, Ordering::Relaxed)
}

impl Drop for ClientGuard {
    /// Takes the client off the counter.
    fn drop(&mut self)
        ensures
            exists|before: i64| #[trigger] counted_down(old(self).counter(), before),
        opens_invariants none
        no_unwind
    {
        let before: i64 = count_down(self.0);
        assert(counted_down(old(self).counter(), before));
    }
}

/// The Prometheus text exposition for counter values.
pub open spec fn exposition(
    webm: i64,
    mjpeg: i64,
    mkv: i64,
    snapshot: i64,
    rtsp: i64,
    snapshots_total: i64,
) -> Seq<char> {
    "# HELP scream_stream_clients Clients currently connected to a stream\n# TYPE scream_stream_clients gauge\nscream_stream_clients{stream=\"webm\"} "@
        + signed_decimal(webm as int) + "\nscream_stream_clients{stream=\"mjpeg\"} "@
        + signed_decimal(mjpeg as int) + "\nscream_stream_clients{stream=\"mkv\"} "@
        + signed_decimal(mkv as int) + "\nscream_stream_clients{stream=\"snapshot\"} "@
        + signed_decimal(snapshot as int) + "\nscream_stream_clients{stream=\"rtsp\"} "@
        + signed_decimal(rtsp as int)
        + "\n# HELP scream_snapshot_requests_total Snapshot stills served\n# TYPE scream_snapshot_requests_total counter\nscream_snapshot_requests_total "@
        + signed_decimal(snapshots_total as int) + "\n"@
}

/// The Prometheus text exposition for the current counter values: under each label stands what a
/// load of its own counter gave. Which value that is, is left unsaid: other threads change it.
pub fn metrics_body(counters: &Counters) -> (r: String)
    ensures
        exists|webm: i64, mjpeg: i64, mkv: i64, snapshot: i64, rtsp: i64, snapshots_total: i64|
            {
                &&& r@ == #[trigger] exposition(webm, mjpeg, mkv, snapshot, rtsp, snapshots_total)
                &&& loaded(&counters.webm, webm)
                &&& loaded(&counters.mjpeg, mjpeg)
                &&& loaded(&counters.mkv, mkv)
                &&& loaded(&counters.snapshot, snapshot)
                &&& loaded(&counters.rtsp, rtsp)
                &&& loaded(&counters.snapshots_total, snapshots_total)
            },
{
    let webm = load_counter(AtomicI64::load, &counters.webm);
    let mjpeg = load_counter(AtomicI64::load, &counters.mjpeg);
    let mkv = load_counter(AtomicI64::load, &counters.mkv);
    let snapshot = load_counter(AtomicI64::load, &counters.snapshot);
    let rtsp = load_counter(AtomicI64::load, &counters.rtsp);
    let snapshots_total = load_counter(AtomicI64::load, &counters.snapshots_total);
    render(webm, mjpeg, mkv, snapshot, rtsp, snapshots_total)
}

/// The formatting on its own.
pub fn render(
    webm: i64,
    mjpeg: i64,
    mkv: i64,
    snapshot: i64,
    rtsp: i64,
    snapshots_total: i64,
) -> (r: String)
    ensures
        r@ == exposition(webm, mjpeg, mkv, snapshot, rtsp, snapshots_total),
{
    let mut r =
        "# HELP scream_stream_clients Clients currently connected to a stream\n# TYPE scream_stream_clients gauge\nscream_stream_clients{stream=\"webm\"} ".to_owned();
    r.append(to_signed_decimal(webm).as_str());
    r.append("\nscream_stream_clients{stream=\"mjpeg\"} ");
    r.append(to_signed_decimal(mjpeg).as_str());
    r.append("\nscream_stream_clients{stream=\"mkv\"} ");
    r.append(to_signed_decimal(mkv).as_str());
    r.append("\nscream_stream_clients{stream=\"snapshot\"} ");
    r.append(to_signed_decimal(snapshot).as_str());
    r.append("\nscream_stream_clients{stream=\"rtsp\"} ");
    r.append(to_signed_decimal(rtsp).as_str());
    r.append(
        "\n# HELP scream_snapshot_requests_total Snapshot stills served\n# TYPE scream_snapshot_requests_total counter\nscream_snapshot_requests_total ",
    );
    r.append(to_signed_decimal(snapshots_total).as_str());
    r.append("\n");
    r
}

// ---------------------------------------------------------------------------
// Laws

/// Under each label of the exposition stands its own number.
pub proof fn law_each_label_has_its_number(
    webm: i64,
    mjpeg: i64,
    mkv: i64,
    snapshot: i64,
    rtsp: i64,
    snapshots_total: i64,
)
    ensures
        ({
            let text = exposition(webm, mjpeg, mkv, snapshot, rtsp, snapshots_total);
            &&& holds(
                text,
                "\nscream_stream_clients{stream=\"webm\"} "@ + signed_decimal(webm as int)
                    + "\nscream_stream_clients{stream=\"mjpeg\"} "@ + signed_decimal(mjpeg as int)
                    + "\nscream_stream_clients{stream=\"mkv\"} "@ + signed_decimal(mkv as int)
                    + "\nscream_stream_clients{stream=\"snapshot\"} "@ + signed_decimal(
                    snapshot as int,
                ) + "\nscream_stream_clients{stream=\"rtsp\"} "@ + signed_decimal(rtsp as int)
                    + "\n"@,
            )
            &&& ("\nscream_snapshot_requests_total "@ + signed_decimal(snapshots_total as int)
                + "\n"@).is_suffix_of(text)
        }),
{
    let a = signed_decimal(webm as int);
    let b = signed_decimal(mjpeg as int);
    let c = signed_decimal(mkv as int);
    let d = signed_decimal(snapshot as int);
    let e = signed_decimal(rtsp as int);
    let f = signed_decimal(snapshots_total as int);
    let head =
        "# HELP scream_stream_clients Clients currently connected to a stream\n# TYPE scream_stream_clients gauge\nscream_stream_clients{stream=\"webm\"} "@;
    let help =
        "# HELP scream_stream_clients Clients currently connected to a stream\n# TYPE scream_stream_clients gauge"@;
    let first = "\nscream_stream_clients{stream=\"webm\"} "@;
    let next =
        "\n# HELP scream_snapshot_requests_total Snapshot stills served\n# TYPE scream_snapshot_requests_total counter\nscream_snapshot_requests_total "@;
    let last = "\nscream_snapshot_requests_total "@;
    let about =
        "# HELP scream_snapshot_requests_total Snapshot stills served\n# TYPE scream_snapshot_requests_total counter"@;
    assert(head == help + first) by {
        reveal_strlit(
            "# HELP scream_stream_clients Clients currently connected to a stream\n# TYPE scream_stream_clients gauge\nscream_stream_clients{stream=\"webm\"} ",
        );
        reveal_strlit(
            "# HELP scream_stream_clients Clients currently connected to a stream\n# TYPE scream_stream_clients gauge",
        );
        reveal_strlit("\nscream_stream_clients{stream=\"webm\"} ");
        assert(head =~= help + first);
    }
    assert(next == "\n"@ + (about + last)) by {
        reveal_strlit(
            "\n# HELP scream_snapshot_requests_total Snapshot stills served\n# TYPE scream_snapshot_requests_total counter\nscream_snapshot_requests_total ",
        );
        reveal_strlit("\nscream_snapshot_requests_total ");
        reveal_strlit(
            "# HELP scream_snapshot_requests_total Snapshot stills served\n# TYPE scream_snapshot_requests_total counter",
        );
        reveal_strlit("\n");
        assert(next =~= "\n"@ + (about + last));
    }
    let l2 = "\nscream_stream_clients{stream=\"mjpeg\"} "@;
    let l3 = "\nscream_stream_clients{stream=\"mkv\"} "@;
    let l4 = "\nscream_stream_clients{stream=\"snapshot\"} "@;
    let l5 = "\nscream_stream_clients{stream=\"rtsp\"} "@;
    lemma_join(help, first, a);
    lemma_join(help, first + a, l2);
    lemma_join(help, first + a + l2, b);
    lemma_join(help, first + a + l2 + b, l3);
    lemma_join(help, first + a + l2 + b + l3, c);
    lemma_join(help, first + a + l2 + b + l3 + c, l4);
    lemma_join(help, first + a + l2 + b + l3 + c + l4, d);
    lemma_join(help, first + a + l2 + b + l3 + c + l4 + d, l5);
    lemma_join(help, first + a + l2 + b + l3 + c + l4 + d + l5, e);
    let counts = first + a + l2 + b + l3 + c + l4 + d + l5 + e;
    lemma_join(help + counts, "\n"@, about + last);
    lemma_join(help, counts, "\n"@);
    let front = help + (counts + "\n"@);
    lemma_join(front, about, last);
    lemma_join(front + about, last, f);
    lemma_join(front + about, last + f, "\n"@);
    let text = exposition(webm, mjpeg, mkv, snapshot, rtsp, snapshots_total);
    let tail = last + f + "\n"@;
    assert(text == front + about + tail);
    assert(tail =~= text.subrange(text.len() - tail.len(), text.len() as int));
    law_holds(help, counts + "\n"@, Seq::empty());
    law_holds_within(Seq::empty(), front, about, counts + "\n"@);
    law_holds_within(Seq::empty(), front + about, tail, counts + "\n"@);
}

} // verus!
