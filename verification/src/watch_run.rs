//! What a [`crate::windows::Watch`] reports over a whole run, from its start on.
use crate::windows::{
    closings, law_closed_windows_are_gone, lemma_place_bounds, openings, place, unreported, without,
    all_reported, Report, Watched, WindowEvent, WindowText,
};
use vstd::prelude::*;

verus! {

/// One thing that happens to a watch.
pub enum Happening {
    /// A window has opened.
    Appeared { handle: u64 },
    /// The compositor says something about a window.
    Told { handle: u64, event: WindowEvent },
    /// The output has a size.
    Mode { width: u32, height: u32 },
    /// The reports that are due are made.
    Reports,
}

/// A window of which nothing is known yet.
pub open spec fn blank(handle: u64) -> WindowText {
    WindowText {
        handle,
        identifier: Seq::empty(),
        app_id: Seq::empty(),
        title: Seq::empty(),
        done: false,
        emitted: false,
    }
}

/// A watch after one more thing has happened, as its methods say.
pub open spec fn after_one(watch: Watched, happening: Happening) -> Watched {
    match happening {
        Happening::Appeared { handle } => watch.with_window(handle),
        Happening::Told { handle, event } => watch.told(handle, event),
        Happening::Mode { width, height } => watch.with_output(width, height),
        Happening::Reports => watch.after_reports(),
    }
}

/// A new watch after a run.
pub open spec fn after_run(run: Seq<Happening>) -> Watched
    decreases run.len(),
{
    if run.len() == 0 {
        Watched { windows: Seq::empty(), closed: Seq::empty(), output: (0, 0), reported: (0, 0) }
    } else {
        after_one(after_run(run.drop_last()), run.last())
    }
}

/// All reports that are made in a run, in order.
pub open spec fn made(run: Seq<Happening>) -> Seq<Report>
    decreases run.len(),
{
    if run.len() == 0 {
        Seq::empty()
    } else if run.last() is Reports {
        made(run.drop_last()) + after_run(run.drop_last()).due()
    } else {
        made(run.drop_last())
    }
}

/// The handles of the windows that open in a run, in order.
pub open spec fn handles(run: Seq<Happening>) -> Seq<u64>
    decreases run.len(),
{
    if run.len() == 0 {
        Seq::empty()
    } else {
        match run.last() {
            Happening::Appeared { handle } => handles(run.drop_last()).push(handle),
            _ => handles(run.drop_last()),
        }
    }
}

/// Whether every window that opens in a run has a handle of its own.
pub open spec fn own_handles(run: Seq<Happening>) -> bool {
    handles(run).no_duplicates()
}

/// The windows that are to be reported.
pub open spec fn waiting(windows: Seq<WindowText>) -> Seq<WindowText>
    decreases windows.len(),
{
    if windows.len() == 0 {
        windows
    } else if unreported(windows.last()) {
        waiting(windows.drop_last()).push(windows.last())
    } else {
        waiting(windows.drop_last())
    }
}

/// The windows that a run reports as opened, each as it stood when it was reported.
pub open spec fn opened(run: Seq<Happening>) -> Seq<WindowText>
    decreases run.len(),
{
    if run.len() == 0 {
        Seq::empty()
    } else if run.last() is Reports {
        opened(run.drop_last()) + waiting(after_run(run.drop_last()).windows)
    } else {
        opened(run.drop_last())
    }
}

/// The windows with an identifier that close in a run: their handles and identifiers.
pub open spec fn closed(run: Seq<Happening>) -> Seq<(u64, Seq<char>)>
    decreases run.len(),
{
    if run.len() == 0 {
        Seq::empty()
    } else {
        let earlier = closed(run.drop_last());
        let windows = after_run(run.drop_last()).windows;
        match run.last() {
            Happening::Told { handle, event } => {
                let i = place(windows, handle);
                if event is Closed && i < windows.len() && windows[i].identifier.len() > 0 {
                    earlier.push((handle, windows[i].identifier))
                } else {
                    earlier
                }
            },
            _ => earlier,
        }
    }
}

/// The sizes that a run reports.
pub open spec fn sizes(run: Seq<Happening>) -> Seq<(u32, u32)>
    decreases run.len(),
{
    if run.len() == 0 {
        Seq::empty()
    } else {
        let before = after_run(run.drop_last());
        if run.last() is Reports && before.resized() {
            sizes(run.drop_last()).push(before.output)
        } else {
            sizes(run.drop_last())
        }
    }
}

/// Which reports are of windows that have opened.
pub open spec fn of_openings() -> spec_fn(Report) -> bool {
    |r: Report| r is Opened
}

/// Which reports are of windows that have closed.
pub open spec fn of_closings() -> spec_fn(Report) -> bool {
    |r: Report| r is Closed
}

/// Which reports are of sizes.
pub open spec fn of_sizes() -> spec_fn(Report) -> bool {
    |r: Report| r is Size
}

/// The report of a window that has opened.
pub open spec fn opening(window: WindowText) -> Report {
    Report::Opened {
        identifier: window.identifier,
        app_id: window.app_id,
        title: window.title,
    }
}

/// The reports of windows that have opened.
pub open spec fn opening_reports(windows: Seq<WindowText>) -> Seq<Report> {
    windows.map_values(|w: WindowText| opening(w))
}

/// The reports of sizes.
pub open spec fn size_reports(sizes: Seq<(u32, u32)>) -> Seq<Report> {
    sizes.map_values(|s: (u32, u32)| Report::Size { width: s.0, height: s.1 })
}

/// The identifiers of windows that have closed.
pub open spec fn identifiers(closed: Seq<(u64, Seq<char>)>) -> Seq<Seq<char>> {
    closed.map_values(|c: (u64, Seq<char>)| c.1)
}

// ---------------------------------------------------------------------------
// Which reports are made

proof fn lemma_keep_all(s: Seq<Report>, keep: spec_fn(Report) -> bool)
    requires
        forall|i: int| 0 <= i < s.len() ==> keep(#[trigger] s[i]),
    ensures
        s.filter(keep) == s,
    decreases s.len(),
{
    reveal(Seq::filter);
    if s.len() > 0 {
        let earlier = s.drop_last();
        assert forall|i: int| 0 <= i < earlier.len() implies keep(#[trigger] earlier[i]) by {
            assert(earlier[i] == s[i]);
        }
        lemma_keep_all(earlier, keep);
        assert(keep(s[s.len() - 1]));
        assert(earlier.push(s.last()) =~= s);
    } else {
        assert(s.filter(keep) =~= s);
    }
}

proof fn lemma_keep_none(s: Seq<Report>, keep: spec_fn(Report) -> bool)
    requires
        forall|i: int| 0 <= i < s.len() ==> !keep(#[trigger] s[i]),
    ensures
        s.filter(keep) == Seq::<Report>::empty(),
    decreases s.len(),
{
    reveal(Seq::filter);
    if s.len() > 0 {
        let earlier = s.drop_last();
        assert forall|i: int| 0 <= i < earlier.len() implies !keep(#[trigger] earlier[i]) by {
            assert(earlier[i] == s[i]);
        }
        lemma_keep_none(earlier, keep);
        assert(!keep(s[s.len() - 1]));
    } else {
        assert(s.filter(keep) =~= Seq::empty());
    }
}

proof fn lemma_openings(windows: Seq<WindowText>)
    ensures
        openings(windows) == opening_reports(waiting(windows)),
        forall|i: int| 0 <= i < openings(windows).len() ==> (#[trigger] openings(windows)[i]) is Opened,
    decreases windows.len(),
{
    if windows.len() > 0 {
        lemma_openings(windows.drop_last());
    }
    assert(openings(windows) =~= opening_reports(waiting(windows)));
}

/// The three kinds of reports that are due.
proof fn lemma_due(watch: Watched)
    ensures
        watch.due().filter(of_openings()) == openings(watch.windows),
        watch.due().filter(of_closings()) == closings(watch.closed),
        watch.due().filter(of_sizes()) == if watch.resized() {
            seq![Report::Size { width: watch.output.0, height: watch.output.1 }]
        } else {
            Seq::empty()
        },
{
    let size = if watch.resized() {
        seq![Report::Size { width: watch.output.0, height: watch.output.1 }]
    } else {
        Seq::empty()
    };
    let open = openings(watch.windows);
    let gone = closings(watch.closed);
    lemma_openings(watch.windows);
    lemma_keep_all(open, of_openings());
    lemma_keep_none(open, of_closings());
    lemma_keep_none(open, of_sizes());
    lemma_keep_none(gone, of_openings());
    lemma_keep_all(gone, of_closings());
    lemma_keep_none(gone, of_sizes());
    lemma_keep_none(size, of_openings());
    lemma_keep_none(size, of_closings());
    lemma_keep_all(size, of_sizes());
    Seq::filter_distributes_over_add(size + open, gone, of_openings());
    Seq::filter_distributes_over_add(size + open, gone, of_closings());
    Seq::filter_distributes_over_add(size + open, gone, of_sizes());
    Seq::filter_distributes_over_add(size, open, of_openings());
    Seq::filter_distributes_over_add(size, open, of_closings());
    Seq::filter_distributes_over_add(size, open, of_sizes());
    assert(watch.due().filter(of_openings()) =~= open);
    assert(watch.due().filter(of_closings()) =~= gone);
    assert(watch.due().filter(of_sizes()) =~= size);
}

/// What making the reports that are due adds to those that were made.
proof fn lemma_made(run: Seq<Happening>, keep: spec_fn(Report) -> bool)
    requires
        run.len() > 0,
    ensures
        run.last() is Reports ==> made(run).filter(keep) == made(run.drop_last()).filter(keep)
            + after_run(run.drop_last()).due().filter(keep),
        !(run.last() is Reports) ==> made(run).filter(keep) == made(run.drop_last()).filter(keep),
{
    if run.last() is Reports {
        Seq::filter_distributes_over_add(
            made(run.drop_last()),
            after_run(run.drop_last()).due(),
            keep,
        );
    }
}

proof fn lemma_opening_reports(a: Seq<WindowText>, b: Seq<WindowText>)
    ensures
        opening_reports(a + b) == opening_reports(a) + opening_reports(b),
{
    assert(opening_reports(a + b) =~= opening_reports(a) + opening_reports(b));
}

proof fn lemma_size_reports(sizes: Seq<(u32, u32)>, size: (u32, u32))
    ensures
        size_reports(sizes.push(size)) == size_reports(sizes) + seq![
            Report::Size { width: size.0, height: size.1 },
        ],
{
    assert(size_reports(sizes.push(size)) =~= size_reports(sizes) + seq![
        Report::Size { width: size.0, height: size.1 },
    ]);
}

proof fn lemma_nothing_more(made: Seq<Report>)
    ensures
        made + closings(Seq::empty()) == made,
        made + Seq::<Report>::empty() == made,
{
    assert(made + closings(Seq::empty()) =~= made);
    assert(made + Seq::<Report>::empty() =~= made);
}

proof fn lemma_one_more_closing(
    made: Seq<Report>,
    due: Seq<Seq<char>>,
    all: Seq<(u64, Seq<char>)>,
    handle: u64,
    identifier: Seq<char>,
)
    requires
        made + closings(due) == closings(identifiers(all)),
    ensures
        made + closings(due.push(identifier)) == closings(
            identifiers(all.push((handle, identifier))),
        ),
{
    let report = Report::Closed { identifier };
    assert(closings(due.push(identifier)) =~= closings(due).push(report));
    assert(closings(identifiers(all.push((handle, identifier)))) =~= closings(
        identifiers(all),
    ).push(report));
    assert(made + closings(due).push(report) =~= (made + closings(due)).push(report));
}

proof fn lemma_openings_made(run: Seq<Happening>)
    ensures
        made(run).filter(of_openings()) == opening_reports(opened(run)),
    decreases run.len(),
{
    if run.len() == 0 {
        lemma_keep_none(made(run), of_openings());
        assert(opening_reports(opened(run)) =~= Seq::empty());
    } else {
        let earlier = run.drop_last();
        let before = after_run(earlier);
        lemma_openings_made(earlier);
        lemma_made(run, of_openings());
        if run.last() is Reports {
            lemma_due(before);
            lemma_openings(before.windows);
            lemma_opening_reports(opened(earlier), waiting(before.windows));
        }
    }
}

proof fn lemma_sizes_made(run: Seq<Happening>)
    ensures
        made(run).filter(of_sizes()) == size_reports(sizes(run)),
    decreases run.len(),
{
    if run.len() == 0 {
        lemma_keep_none(made(run), of_sizes());
        assert(size_reports(sizes(run)) =~= Seq::empty());
    } else {
        let earlier = run.drop_last();
        let before = after_run(earlier);
        lemma_sizes_made(earlier);
        lemma_made(run, of_sizes());
        if run.last() is Reports {
            lemma_due(before);
            if before.resized() {
                lemma_size_reports(sizes(earlier), before.output);
            } else {
                lemma_nothing_more(made(earlier).filter(of_sizes()));
            }
        }
    }
}

/// What one thing that happens adds to the windows that have closed, and to what is due.
proof fn lemma_closed(run: Seq<Happening>)
    requires
        run.len() > 0,
    ensures
        ({
            let earlier = run.drop_last();
            let due = after_run(run).closed;
            let before = after_run(earlier).closed;
            ||| run.last() is Reports && closed(run) == closed(earlier) && due == Seq::<
                Seq<char>,
            >::empty()
            ||| !(run.last() is Reports) && closed(run) == closed(earlier) && due == before
            ||| !(run.last() is Reports) && exists|handle: u64, identifier: Seq<char>|
                closed(run) == #[trigger] closed(earlier).push((handle, identifier)) && due
                    == before.push(identifier)
        }),
{
    let earlier = run.drop_last();
    let before = after_run(earlier);
    if let Happening::Told { handle, event } = run.last() {
        let i = place(before.windows, handle);
        lemma_place_bounds(before.windows, handle);
        if event is Closed && i < before.windows.len() && before.windows[i].identifier.len() > 0 {
            let identifier = before.windows[i].identifier;
            assert(closed(run) == closed(earlier).push((handle, identifier)));
        }
    }
}

proof fn lemma_closings_made(run: Seq<Happening>)
    ensures
        made(run).filter(of_closings()) + closings(after_run(run).closed) == closings(
            identifiers(closed(run)),
        ),
    decreases run.len(),
{
    if run.len() == 0 {
        lemma_keep_none(made(run), of_closings());
        assert(identifiers(closed(run)) =~= Seq::empty());
        lemma_nothing_more(Seq::empty());
    } else {
        let earlier = run.drop_last();
        let was_made = made(earlier).filter(of_closings());
        let was_due = after_run(earlier).closed;
        lemma_closings_made(earlier);
        lemma_made(run, of_closings());
        lemma_closed(run);
        if run.last() is Reports {
            lemma_due(after_run(earlier));
            lemma_nothing_more(made(run).filter(of_closings()));
        } else if closed(run) != closed(earlier) {
            let (handle, identifier) = choose|handle: u64, identifier: Seq<char>|
                closed(run) == #[trigger] closed(earlier).push((handle, identifier)) && after_run(
                    run,
                ).closed == was_due.push(identifier);
            lemma_one_more_closing(was_made, was_due, closed(earlier), handle, identifier);
        }
    }
}

// ---------------------------------------------------------------------------
// Once for each window

/// Whether no two windows have the same handle.
pub open spec fn apart(windows: Seq<WindowText>) -> bool {
    forall|i: int, j: int|
        0 <= i < j < windows.len() ==> (#[trigger] windows[i]).handle != (
        #[trigger] windows[j]).handle
}

/// Whether no two windows that have closed have the same handle.
pub open spec fn closed_apart(closed: Seq<(u64, Seq<char>)>) -> bool {
    forall|i: int, j: int|
        0 <= i < j < closed.len() ==> (#[trigger] closed[i]).0 != (#[trigger] closed[j]).0
}

proof fn lemma_waiting(windows: Seq<WindowText>)
    requires
        apart(windows),
    ensures
        apart(waiting(windows)),
        forall|i: int|
            0 <= i < waiting(windows).len() ==> unreported(#[trigger] waiting(windows)[i])
                && windows.contains(waiting(windows)[i]),
    decreases windows.len(),
{
    if windows.len() > 0 {
        let earlier = windows.drop_last();
        let last = windows.last();
        assert forall|i: int, j: int| 0 <= i < j < earlier.len() implies (#[trigger] earlier[i]).handle
            != (#[trigger] earlier[j]).handle by {
            assert(earlier[i] == windows[i] && earlier[j] == windows[j]);
        }
        lemma_waiting(earlier);
        let before = waiting(earlier);
        let all = waiting(windows);
        assert forall|i: int| 0 <= i < all.len() implies unreported(#[trigger] all[i])
            && windows.contains(all[i]) by {
            if i < before.len() {
                assert(all[i] == before[i]);
                let k = choose|k: int| 0 <= k < earlier.len() && earlier[k] == before[i];
                assert(windows[k] == all[i]);
            } else {
                assert(windows[windows.len() - 1] == all[i]);
            }
        }
        assert forall|i: int, j: int| 0 <= i < j < all.len() implies (#[trigger] all[i]).handle != (
        #[trigger] all[j]).handle by {
            assert(all[i] == before[i]);
            if j < before.len() {
                assert(all[j] == before[j]);
            } else {
                assert(earlier.contains(before[i]));
                let k = choose|k: int| 0 <= k < earlier.len() && earlier[k] == before[i];
                assert(windows[k] == all[i]);
                assert(windows[windows.len() - 1] == all[j]);
            }
        }
    }
}

proof fn lemma_without(windows: Seq<WindowText>, handle: u64)
    requires
        apart(windows),
    ensures
        apart(without(windows, handle)),
    decreases windows.len(),
{
    if windows.len() > 0 {
        let earlier = windows.drop_last();
        assert forall|i: int, j: int| 0 <= i < j < earlier.len() implies (#[trigger] earlier[i]).handle
            != (#[trigger] earlier[j]).handle by {
            assert(earlier[i] == windows[i] && earlier[j] == windows[j]);
        }
        lemma_without(earlier, handle);
        let before = without(earlier, handle);
        let all = without(windows, handle);
        assert forall|i: int, j: int| 0 <= i < j < all.len() implies (#[trigger] all[i]).handle != (
        #[trigger] all[j]).handle by {
            assert(all[i] == before[i]);
            if j < before.len() {
                assert(all[j] == before[j]);
            } else {
                assert(before.contains(before[i]));
                law_closed_windows_are_gone(earlier, handle, before[i]);
                let k = choose|k: int| 0 <= k < earlier.len() && earlier[k] == before[i];
                assert(windows[k] == all[i]);
                assert(windows[windows.len() - 1] == all[j]);
            }
        }
    }
}

/// What holds of the windows at every point of a run.
spec fn tracked_well(run: Seq<Happening>) -> bool {
    let windows = after_run(run).windows;
    &&& apart(windows)
    &&& forall|i: int|
        0 <= i < windows.len() ==> handles(run).contains((#[trigger] windows[i]).handle)
    &&& apart(opened(run))
    &&& forall|i: int|
        0 <= i < opened(run).len() ==> {
            &&& (#[trigger] opened(run)[i]).done
            &&& opened(run)[i].identifier.len() > 0
            &&& handles(run).contains(opened(run)[i].handle)
        }
    &&& forall|i: int, j: int|
        0 <= i < windows.len() && 0 <= j < opened(run).len() && (#[trigger] windows[i]).handle == (
        #[trigger] opened(run)[j]).handle ==> windows[i].emitted
    &&& closed_apart(closed(run))
    &&& forall|i: int|
        0 <= i < closed(run).len() ==> (#[trigger] closed(run)[i]).1.len() > 0 && handles(
            run,
        ).contains(closed(run)[i].0)
    &&& forall|i: int, j: int|
        0 <= i < windows.len() && 0 <= j < closed(run).len() ==> (#[trigger] windows[i]).handle != (
        #[trigger] closed(run)[j]).0
}

proof fn lemma_appeared(run: Seq<Happening>)
    requires
        run.len() > 0,
        run.last() is Appeared,
        own_handles(run),
        tracked_well(run.drop_last()),
    ensures
        tracked_well(run),
{
    let earlier = run.drop_last();
    let handle = run.last()->Appeared_handle;
    let old = handles(earlier);
    let new = handles(run);
    let before = after_run(earlier).windows;
    let windows = after_run(run).windows;
    assert(new == old.push(handle));
    assert forall|h: u64| old.contains(h) implies new.contains(h) && h != handle by {
        let k = choose|k: int| 0 <= k < old.len() && old[k] == h;
        assert(new[k] == h);
        assert(new[old.len() as int] == handle);
    }
    assert(new[old.len() as int] == handle);
    assert forall|i: int| 0 <= i < windows.len() implies new.contains(
        (#[trigger] windows[i]).handle,
    ) by {
        if i < before.len() {
            assert(windows[i] == before[i]);
        }
    }
    assert forall|i: int, j: int| 0 <= i < j < windows.len() implies (#[trigger] windows[i]).handle
        != (#[trigger] windows[j]).handle by {
        assert(windows[i] == before[i]);
        if j < before.len() {
            assert(windows[j] == before[j]);
        }
    }
    assert forall|i: int, j: int|
        0 <= i < windows.len() && 0 <= j < opened(run).len() && (#[trigger] windows[i]).handle == (
        #[trigger] opened(run)[j]).handle implies windows[i].emitted by {
        if i < before.len() {
            assert(windows[i] == before[i]);
        }
    }
    assert forall|i: int, j: int| 0 <= i < windows.len() && 0 <= j < closed(run).len() implies (
    #[trigger] windows[i]).handle != (#[trigger] closed(run)[j]).0 by {
        if i < before.len() {
            assert(windows[i] == before[i]);
        }
    }
}

proof fn lemma_closing(run: Seq<Happening>)
    requires
        run.len() > 0,
        run.last() is Told,
        run.last()->event is Closed,
        tracked_well(run.drop_last()),
    ensures
        tracked_well(run),
{
    let earlier = run.drop_last();
    let handle = run.last()->Told_handle;
    let before = after_run(earlier).windows;
    let windows = after_run(run).windows;
    let i = place(before, handle);
    lemma_place_bounds(before, handle);
    if i < before.len() {
        lemma_without(before, handle);
        assert forall|k: int| 0 <= k < windows.len() implies (exists|m: int|
            0 <= m < before.len() && before[m] == #[trigger] windows[k]) && windows[k].handle
            != handle by {
            assert(windows.contains(windows[k]));
            law_closed_windows_are_gone(before, handle, windows[k]);
        }
        assert(handles(run) == handles(earlier));
        assert(before[i].handle == handle);
        assert forall|k: int| 0 <= k < closed(run).len() implies (#[trigger] closed(run)[k]).1.len()
            > 0 && handles(run).contains(closed(run)[k].0) by {
            if k < closed(earlier).len() {
                assert(closed(run)[k] == closed(earlier)[k]);
            }
        }
        assert forall|a: int, b: int| 0 <= a < b < closed(run).len() implies (
        #[trigger] closed(run)[a]).0 != (#[trigger] closed(run)[b]).0 by {
            assert(closed(run)[a] == closed(earlier)[a]);
            if b < closed(earlier).len() {
                assert(closed(run)[b] == closed(earlier)[b]);
            } else {
                assert(before[i].handle != closed(earlier)[a].0);
            }
        }
        assert forall|a: int, b: int| 0 <= a < windows.len() && 0 <= b < closed(run).len() implies (
        #[trigger] windows[a]).handle != (#[trigger] closed(run)[b]).0 by {
            if b < closed(earlier).len() {
                assert(closed(run)[b] == closed(earlier)[b]);
            }
        }
    }
}

proof fn lemma_reporting(run: Seq<Happening>)
    requires
        run.len() > 0,
        run.last() is Reports,
        tracked_well(run.drop_last()),
    ensures
        tracked_well(run),
{
    let earlier = run.drop_last();
    let before = after_run(earlier).windows;
    let windows = after_run(run).windows;
    let had = opened(earlier);
    let new = waiting(before);
    let all = opened(run);
    lemma_waiting(before);
    assert(windows == all_reported(before));
    assert(all == had + new);
    assert forall|i: int| 0 <= i < windows.len() implies (#[trigger] windows[i]).handle
        == before[i].handle && windows[i].emitted == (before[i].emitted || unreported(
        before[i],
    )) by {}
    assert forall|j: int| 0 <= j < new.len() implies (exists|m: int|
        0 <= m < before.len() && before[m] == #[trigger] new[j]) by {
        assert(before.contains(new[j]));
    }
    assert forall|i: int| 0 <= i < all.len() implies {
        &&& (#[trigger] all[i]).done
        &&& all[i].identifier.len() > 0
        &&& handles(run).contains(all[i].handle)
    } by {
        if i < had.len() {
            assert(all[i] == had[i]);
        } else {
            assert(all[i] == new[i - had.len()]);
            assert(unreported(new[i - had.len()]));
        }
    }
    assert forall|i: int, j: int| 0 <= i < j < all.len() implies (#[trigger] all[i]).handle != (
    #[trigger] all[j]).handle by {
        if j < had.len() {
            assert(all[i] == had[i] && all[j] == had[j]);
        } else if i >= had.len() {
            assert(all[i] == new[i - had.len()] && all[j] == new[j - had.len()]);
        } else {
            assert(all[i] == had[i] && all[j] == new[j - had.len()]);
            assert(unreported(new[j - had.len()]));
            let m = choose|m: int| 0 <= m < before.len() && before[m] == new[j - had.len()];
            assert(before[m].handle == had[i].handle ==> before[m].emitted);
        }
    }
    assert forall|i: int, j: int|
        0 <= i < windows.len() && 0 <= j < all.len() && (#[trigger] windows[i]).handle == (
        #[trigger] all[j]).handle implies windows[i].emitted by {
        if j < had.len() {
            assert(all[j] == had[j]);
            assert(before[i].handle == had[j].handle);
        } else {
            assert(all[j] == new[j - had.len()]);
            let m = choose|m: int| 0 <= m < before.len() && before[m] == new[j - had.len()];
            assert(before[m].handle == before[i].handle);
            assert(m == i);
        }
    }
}

proof fn lemma_tracked(run: Seq<Happening>)
    requires
        own_handles(run),
    ensures
        tracked_well(run),
    decreases run.len(),
{
    if run.len() > 0 {
        let earlier = run.drop_last();
        assert(own_handles(earlier)) by {
            assert forall|i: int, j: int|
                0 <= i < handles(earlier).len() && 0 <= j < handles(earlier).len() && i
                    != j implies handles(earlier)[i] != handles(earlier)[j] by {
                assert(handles(run)[i] == handles(earlier)[i]);
                assert(handles(run)[j] == handles(earlier)[j]);
            }
        }
        lemma_tracked(earlier);
        match run.last() {
            Happening::Appeared { .. } => {
                lemma_appeared(run);
            },
            Happening::Told { handle, event } => {
                if event is Closed {
                    lemma_closing(run);
                } else {
                    let before = after_run(earlier).windows;
                    lemma_place_bounds(before, handle);
                    assert forall|i: int| 0 <= i < before.len() implies (
                    #[trigger] after_run(run).windows[i]).handle == before[i].handle
                        && after_run(run).windows[i].emitted == before[i].emitted by {}
                }
            },
            Happening::Mode { .. } => {},
            Happening::Reports => {
                lemma_reporting(run);
            },
        }
    }
}

// ---------------------------------------------------------------------------
// Laws

/// In a whole run every window is reported as opened at most once, and only once it is described
/// and has an identifier. Every window needs a handle of its own for that.
pub proof fn law_windows_open_once(run: Seq<Happening>)
    requires
        own_handles(run),
    ensures
        made(run).filter(of_openings()) == opening_reports(opened(run)),
        apart(opened(run)),
        forall|i: int|
            0 <= i < opened(run).len() ==> (#[trigger] opened(run)[i]).done
                && opened(run)[i].identifier.len() > 0,
{
    lemma_openings_made(run);
    lemma_tracked(run);
}

/// In a whole run every window that closes is reported as closed at most once, in the order in which
/// they close, and never without an identifier: what was reported, and what is still due, is one
/// report for each of them. Every window needs a handle of its own for that.
pub proof fn law_windows_close_once(run: Seq<Happening>)
    requires
        own_handles(run),
    ensures
        made(run).filter(of_closings()) + closings(after_run(run).closed) == closings(
            identifiers(closed(run)),
        ),
        closed_apart(closed(run)),
        forall|i: int| 0 <= i < closed(run).len() ==> (#[trigger] closed(run)[i]).1.len() > 0,
{
    lemma_closings_made(run);
    lemma_tracked(run);
}

/// In a whole run every size that is reported is one, and another than the one reported before it.
pub proof fn law_sizes_change(run: Seq<Happening>)
    ensures
        made(run).filter(of_sizes()) == size_reports(sizes(run)),
        forall|i: int|
            0 <= i < sizes(run).len() ==> (#[trigger] sizes(run)[i]).0 > 0 && sizes(run)[i].1 > 0,
        forall|i: int, j: int|
            0 <= i < sizes(run).len() && j == i + 1 && j < sizes(run).len() ==> #[trigger] sizes(
                run,
            )[i] != #[trigger] sizes(run)[j],
        after_run(run).reported == if sizes(run).len() == 0 {
            (0u32, 0u32)
        } else {
            sizes(run).last()
        },
    decreases run.len(),
{
    lemma_sizes_made(run);
    if run.len() > 0 {
        law_sizes_change(run.drop_last());
        if let Happening::Told { handle, event } = run.last() {
            lemma_place_bounds(after_run(run.drop_last()).windows, handle);
        }
    }
}

} // verus!
