//! The windows of the compositor: a watch that reports when one opens or closes or the output
//! changes its size, and the search for the one that a capture is after. A handle stands for a
//! window as long as it is open.
use crate::text::{same, texts};
use vstd::prelude::*;
use vstd::string::*;

verus! {

// ---------------------------------------------------------------------------
// The watch

/// A window, as far as the compositor has described it.
pub struct Window {
    pub handle: u64,
    pub identifier: String,
    pub app_id: String,
    pub title: String,
    /// Its description is complete.
    pub done: bool,
    /// It was reported.
    pub emitted: bool,
}

/// What a window holds.
pub struct WindowText {
    pub handle: u64,
    pub identifier: Seq<char>,
    pub app_id: Seq<char>,
    pub title: Seq<char>,
    pub done: bool,
    pub emitted: bool,
}

impl View for Window {
    type V = WindowText;

    open spec fn view(&self) -> WindowText {
        WindowText {
            handle: self.handle,
            identifier: self.identifier@,
            app_id: self.app_id@,
            title: self.title@,
            done: self.done,
            emitted: self.emitted,
        }
    }
}

/// What windows hold.
pub open spec fn windows_text(windows: Seq<Window>) -> Seq<WindowText> {
    windows.map_values(|w: Window| w@)
}

/// What the compositor says about a window.
pub enum WindowEvent {
    Identifier(String),
    AppId(String),
    Title(String),
    Done,
    Closed,
}

/// Where the first window with a handle stands, the number of windows where there is none.
pub open spec fn place(windows: Seq<WindowText>, handle: u64) -> int
    decreases windows.len(),
{
    if windows.len() == 0 || windows[0].handle == handle {
        0
    } else {
        1 + place(windows.drop_first(), handle)
    }
}

/// A window after what the compositor said about it.
pub open spec fn described(window: WindowText, event: WindowEvent) -> WindowText {
    match event {
        WindowEvent::Identifier(text) => WindowText { identifier: text@, ..window },
        WindowEvent::AppId(text) => WindowText { app_id: text@, ..window },
        WindowEvent::Title(text) => WindowText { title: text@, ..window },
        WindowEvent::Done => WindowText { done: true, ..window },
        WindowEvent::Closed => window,
    }
}

/// The windows without those that a handle stands for.
pub open spec fn without(windows: Seq<WindowText>, handle: u64) -> Seq<WindowText>
    decreases windows.len(),
{
    if windows.len() == 0 {
        windows
    } else {
        let earlier = without(windows.drop_last(), handle);
        if windows.last().handle == handle {
            earlier
        } else {
            earlier.push(windows.last())
        }
    }
}

proof fn lemma_place(windows: Seq<WindowText>, handle: u64, i: int)
    requires
        0 <= i <= windows.len(),
        forall|j: int| 0 <= j < i ==> (#[trigger] windows[j]).handle != handle,
        i == windows.len() || windows[i].handle == handle,
    ensures
        place(windows, handle) == i,
    decreases windows.len(),
{
    if i > 0 {
        assert(windows[0].handle != handle);
        let rest = windows.drop_first();
        assert forall|j: int| 0 <= j < i - 1 implies (#[trigger] rest[j]).handle != handle by {
            assert(rest[j] == windows[j + 1]);
        }
        lemma_place(rest, handle, i - 1);
    }
}

/// What the watch reports.
pub enum CoordEvent {
    NewToplevel { identifier: String, app_id: String, title: String },
    ToplevelClosed { identifier: String },
    OutputSize { width: u32, height: u32 },
}

/// A report.
pub enum Report {
    Opened { identifier: Seq<char>, app_id: Seq<char>, title: Seq<char> },
    Closed { identifier: Seq<char> },
    Size { width: u32, height: u32 },
}

impl View for CoordEvent {
    type V = Report;

    open spec fn view(&self) -> Report {
        match *self {
            CoordEvent::NewToplevel { identifier, app_id, title } => Report::Opened {
                identifier: identifier@,
                app_id: app_id@,
                title: title@,
            },
            CoordEvent::ToplevelClosed { identifier } => Report::Closed { identifier: identifier@ },
            CoordEvent::OutputSize { width, height } => Report::Size { width, height },
        }
    }
}

/// What reports say.
pub open spec fn reports(events: Seq<CoordEvent>) -> Seq<Report> {
    events.map_values(|e: CoordEvent| e@)
}

/// Whether a window is to be reported: it is described, it has an identifier, and it was not
/// reported before.
pub open spec fn unreported(window: WindowText) -> bool {
    window.done && !window.emitted && window.identifier.len() > 0
}

/// The reports of windows that have opened, in the order of the windows.
pub open spec fn openings(windows: Seq<WindowText>) -> Seq<Report>
    decreases windows.len(),
{
    if windows.len() == 0 {
        Seq::empty()
    } else {
        let earlier = openings(windows.drop_last());
        let window = windows.last();
        if unreported(window) {
            earlier.push(
                Report::Opened {
                    identifier: window.identifier,
                    app_id: window.app_id,
                    title: window.title,
                },
            )
        } else {
            earlier
        }
    }
}

/// The windows once all that have opened were reported.
pub open spec fn all_reported(windows: Seq<WindowText>) -> Seq<WindowText> {
    windows.map_values(
        |w: WindowText|
            if unreported(w) {
                WindowText { emitted: true, ..w }
            } else {
                w
            },
    )
}

/// The reports of windows that have closed.
pub open spec fn closings(identifiers: Seq<Seq<char>>) -> Seq<Report> {
    identifiers.map_values(|id: Seq<char>| Report::Closed { identifier: id })
}

/// Watches the windows and the output.
pub struct Watch {
    windows: Vec<Window>,
    closed: Vec<String>,
    output: (u32, u32),
    reported: (u32, u32),
}

/// What a watch knows.
pub struct Watched {
    /// The windows that are open.
    pub windows: Seq<WindowText>,
    /// The identifiers of windows that have closed, as long as this was not reported.
    pub closed: Seq<Seq<char>>,
    /// The size of the output.
    pub output: (u32, u32),
    /// The size that was reported last.
    pub reported: (u32, u32),
}

impl View for Watch {
    type V = Watched;

    closed spec fn view(&self) -> Watched {
        Watched {
            windows: windows_text(self.windows@),
            closed: texts(self.closed@),
            output: self.output,
            reported: self.reported,
        }
    }
}

impl Watched {
    /// The watch after what the compositor said about a window. The identifier of one that closes
    /// is kept for the report. Nothing happens for a handle that stands for no window.
    pub open spec fn told(self, handle: u64, event: WindowEvent) -> Watched {
        let i = place(self.windows, handle);
        if i == self.windows.len() {
            self
        } else if event is Closed {
            let identifier = self.windows[i].identifier;
            Watched {
                windows: without(self.windows, handle),
                closed: if identifier.len() > 0 {
                    self.closed.push(identifier)
                } else {
                    self.closed
                },
                ..self
            }
        } else {
            Watched { windows: self.windows.update(i, described(self.windows[i], event)), ..self }
        }
    }

    /// With a window that has opened, of which nothing is known yet.
    pub open spec fn with_window(self, handle: u64) -> Watched {
        Watched {
            windows: self.windows.push(
                WindowText {
                    handle,
                    identifier: Seq::empty(),
                    app_id: Seq::empty(),
                    title: Seq::empty(),
                    done: false,
                    emitted: false,
                },
            ),
            ..self
        }
    }

    /// With an output of this size.
    pub open spec fn with_output(self, width: u32, height: u32) -> Watched {
        Watched { output: (width, height), ..self }
    }

    /// Whether the output has a size that was not reported yet.
    pub open spec fn resized(self) -> bool {
        self.output != self.reported && self.output.0 > 0 && self.output.1 > 0
    }

    /// The reports that are due.
    pub open spec fn due(self) -> Seq<Report> {
        (if self.resized() {
            seq![Report::Size { width: self.output.0, height: self.output.1 }]
        } else {
            Seq::empty()
        }) + openings(self.windows) + closings(self.closed)
    }

    /// The watch once they were made.
    pub open spec fn after_reports(self) -> Watched {
        Watched {
            windows: all_reported(self.windows),
            closed: Seq::empty(),
            output: self.output,
            reported: if self.resized() {
                self.output
            } else {
                self.reported
            },
        }
    }
}

impl Watch {
    /// A watch that knows nothing.
    pub fn new() -> (r: Watch)
        ensures
            r@ == (Watched {
                windows: Seq::empty(),
                closed: Seq::empty(),
                output: (0, 0),
                reported: (0, 0),
            }),
    {
        let r = Watch { windows: Vec::new(), closed: Vec::new(), output: (0, 0), reported: (0, 0) };
        assert(r@.windows =~= Seq::empty());
        assert(r@.closed =~= Seq::empty());
        r
    }

    /// The size of the output, zero where it is not known.
    pub fn output(&self) -> (r: (u32, u32))
        ensures
            r == self@.output,
    {
        self.output
    }

    /// The output has this size.
    pub fn output_mode(&mut self, width: u32, height: u32)
        ensures
            final(self)@ == old(self)@.with_output(width, height),
    {
        self.output = (width, height);
    }

    /// A window has opened, of which nothing is known yet.
    pub fn appeared(&mut self, handle: u64)
        ensures
            final(self)@ == old(self)@.with_window(handle),
    {
        let window = Window {
            handle,
            identifier: String::new(),
            app_id: String::new(),
            title: String::new(),
            done: false,
            emitted: false,
        };
        assert(window@.identifier =~= Seq::empty());
        assert(window@.app_id =~= Seq::empty());
        assert(window@.title =~= Seq::empty());
        self.windows.push(window);
        assert(self@.windows =~= old(self)@.windows.push(window@));
    }

    fn find(&self, handle: u64) -> (r: usize)
        ensures
            r == place(self@.windows, handle),
            r <= self@.windows.len(),
            self@.windows.len() == self.windows.len(),
    {
        let mut i: usize = 0;
        while i < self.windows.len() && self.windows[i].handle != handle
            invariant
                i <= self.windows.len(),
                forall|j: int| 0 <= j < i ==> (#[trigger] self@.windows[j]).handle != handle,
                self@.windows == windows_text(self.windows@),
            decreases self.windows.len() - i,
        {
            assert(self@.windows[i as int].handle == self.windows@[i as int].handle);
            i += 1;
        }
        proof {
            lemma_place(self@.windows, handle, i as int);
        }
        i
    }

    fn close(&mut self, handle: u64)
        ensures
            final(self)@ == (Watched { windows: without(old(self)@.windows, handle), ..old(self)@ }),
    {
        let ghost all = self@.windows;
        let ghost mut seen: int = 0;
        let mut i: usize = 0;
        assert(windows_text(self.windows@.take(0)) =~= without(all.take(0), handle));
        assert(windows_text(self.windows@.skip(0)) =~= all.skip(0));
        while i < self.windows.len()
            invariant
                i <= self.windows.len(),
                0 <= seen <= all.len(),
                windows_text(self.windows@.take(i as int)) == without(all.take(seen), handle),
                windows_text(self.windows@.skip(i as int)) == all.skip(seen),
                self@ == (Watched { windows: self@.windows, ..old(self)@ }),
            decreases self.windows.len() - i,
        {
            let ghost before = self.windows@;
            assert(windows_text(before.skip(i as int))[0] == before[i as int]@);
            assert(all.skip(seen).len() == before.len() - i);
            assert(all.skip(seen)[0] == all[seen]);
            assert(all.take(seen + 1).drop_last() =~= all.take(seen));
            assert(all.skip(seen).drop_first() =~= all.skip(seen + 1));
            if self.windows[i].handle == handle {
                self.windows.remove(i);
                assert(self.windows@.take(i as int) =~= before.take(i as int));
                assert(windows_text(self.windows@.skip(i as int)) =~= windows_text(
                    before.skip(i as int),
                ).drop_first());
            } else {
                assert(windows_text(before.take(i + 1)) =~= windows_text(
                    before.take(i as int),
                ).push(before[i as int]@));
                assert(windows_text(before.skip(i + 1)) =~= windows_text(
                    before.skip(i as int),
                ).drop_first());
                i += 1;
            }
            proof {
                seen = seen + 1;
            }
        }
        assert(windows_text(self.windows@.skip(i as int)).len() == 0);
        assert(all.skip(seen).len() == 0);
        assert(all.take(seen) =~= all);
        assert(self.windows@.take(i as int) =~= self.windows@);
    }

    /// Takes note of what the compositor says about a window.
    pub fn event(&mut self, handle: u64, event: WindowEvent)
        ensures
            final(self)@ == old(self)@.told(handle, event),
    {
        let i = self.find(handle);
        if i == self.windows.len() {
            return;
        }
        let ghost before = self@.windows;
        match event {
            WindowEvent::Identifier(text) => {
                self.windows[i].identifier = text;
            },
            WindowEvent::AppId(text) => {
                self.windows[i].app_id = text;
            },
            WindowEvent::Title(text) => {
                self.windows[i].title = text;
            },
            WindowEvent::Done => {
                self.windows[i].done = true;
            },
            WindowEvent::Closed => {
                let identifier = self.windows[i].identifier.as_str().to_owned();
                let known = identifier.as_str().unicode_len() > 0;
                self.close(handle);
                if known {
                    self.closed.push(identifier);
                    assert(self@.closed =~= old(self)@.closed.push(identifier@));
                }
                return;
            },
        }
        assert(self@.windows =~= before.update(i as int, described(before[i as int], event)));
    }

    /// The reports that are due: first the size of the output where it has changed, then the
    /// windows that have opened, then those that have closed.
    pub fn report(&mut self) -> (r: Vec<CoordEvent>)
        ensures
            reports(r@) == old(self)@.due(),
            final(self)@ == old(self)@.after_reports(),
    {
        let ghost known = self@;
        let mut r: Vec<CoordEvent> = Vec::new();
        assert(reports(r@) =~= Seq::empty());
        let output = self.output;
        if (output.0 != self.reported.0 || output.1 != self.reported.1) && output.0 > 0 && output.1
            > 0 {
            self.reported = output;
            r.push(CoordEvent::OutputSize { width: output.0, height: output.1 });
        }
        let ghost first = reports(r@);
        assert(first =~= if known.resized() {
            seq![Report::Size { width: known.output.0, height: known.output.1 }]
        } else {
            Seq::empty()
        });
        let ghost after = Watched { reported: self@.reported, ..known };
        assert(self@ == after);
        assert(reports(r@) =~= first + openings(known.windows.take(0)));
        let n = self.windows.len();
        let mut i: usize = 0;
        while i < n
            invariant
                i <= n,
                n == self.windows.len(),
                n == known.windows.len(),
                self@ == (Watched { windows: self@.windows, ..after }),
                after.output == known.output,
                after.closed == known.closed,
                self@.windows == windows_text(self.windows@),
                forall|j: int|
                    0 <= j < i ==> #[trigger] self@.windows[j] == all_reported(known.windows)[j],
                forall|j: int| i <= j < n ==> #[trigger] self@.windows[j] == known.windows[j],
                reports(r@) == first + openings(known.windows.take(i as int)),
            decreases n - i,
        {
            let ghost before = self@.windows;
            let ghost made = r@;
            assert(before[i as int] == known.windows[i as int]);
            assert(before[i as int] == self.windows@[i as int]@);
            assert(known.windows.take(i + 1).drop_last() =~= known.windows.take(i as int));
            let due = self.windows[i].done && !self.windows[i].emitted
                && self.windows[i].identifier.as_str().unicode_len() > 0;
            if due {
                let event = CoordEvent::NewToplevel {
                    identifier: self.windows[i].identifier.as_str().to_owned(),
                    app_id: self.windows[i].app_id.as_str().to_owned(),
                    title: self.windows[i].title.as_str().to_owned(),
                };
                r.push(event);
                assert(reports(r@) =~= reports(made).push(event@));
                self.windows[i].emitted = true;
                assert(self@.windows =~= before.update(
                    i as int,
                    WindowText { emitted: true, ..before[i as int] },
                ));
            }
            assert(reports(r@) =~= first + openings(known.windows.take(i + 1)));
            i += 1;
        }
        assert(known.windows.take(n as int) =~= known.windows);
        assert(self@.windows =~= all_reported(known.windows));
        let ghost second = first + openings(known.windows);
        let mut closed: Vec<String> = Vec::new();
        core::mem::swap(&mut closed, &mut self.closed);
        assert(self@.closed =~= Seq::empty());
        assert(texts(closed@) == known.closed);
        let mut k: usize = 0;
        assert(reports(r@) =~= second + closings(known.closed.take(0)));
        while k < closed.len()
            invariant
                k <= closed.len(),
                texts(closed@) == known.closed,
                reports(r@) == second + closings(known.closed.take(k as int)),
            decreases closed.len() - k,
        {
            let ghost made = r@;
            assert(known.closed[k as int] == closed@[k as int]@);
            let event = CoordEvent::ToplevelClosed { identifier: closed[k].as_str().to_owned() };
            r.push(event);
            assert(reports(r@) =~= reports(made).push(event@));
            assert(closings(known.closed.take(k + 1)) =~= closings(known.closed.take(k as int)).push(
                event@,
            ));
            assert(reports(r@) =~= second + closings(known.closed.take(k + 1)));
            k += 1;
        }
        assert(known.closed.take(k as int) =~= known.closed);
        assert(reports(r@) =~= known.due());
        r
    }
}

/// What is reported is not reported again: until the compositor says something new, nothing more is
/// due.
pub proof fn law_reports_are_made_once(watch: Watched)
    ensures
        watch.after_reports().due() == Seq::<Report>::empty(),
{
    lemma_nothing_opened(all_reported(watch.windows));
    assert(closings(Seq::empty()) =~= Seq::empty());
    assert(watch.after_reports().due() =~= Seq::empty());
}

proof fn lemma_nothing_opened(windows: Seq<WindowText>)
    requires
        forall|i: int| 0 <= i < windows.len() ==> !unreported(#[trigger] windows[i]),
    ensures
        openings(windows) == Seq::<Report>::empty(),
    decreases windows.len(),
{
    if windows.len() > 0 {
        let earlier = windows.drop_last();
        assert forall|i: int| 0 <= i < earlier.len() implies !unreported(#[trigger] earlier[i]) by {
            assert(earlier[i] == windows[i]);
        }
        lemma_nothing_opened(earlier);
        assert(!unreported(windows[windows.len() - 1]));
    }
}

/// A window that was reported stays reported, and one that was not does not count as reported,
/// whatever the compositor says about it or another: every window that is left is one from before
/// with the same handle.
pub proof fn law_reported_windows_stay_reported(
    watch: Watched,
    handle: u64,
    event: WindowEvent,
    window: WindowText,
)
    requires
        watch.told(handle, event).windows.contains(window),
    ensures
        exists|before: WindowText| #[trigger]
            watch.windows.contains(before) && before.handle == window.handle && before.emitted
                == window.emitted,
{
    let i = place(watch.windows, handle);
    lemma_place_bounds(watch.windows, handle);
    if i == watch.windows.len() {
        assert(watch.windows.contains(window));
    } else if event is Closed {
        law_closed_windows_are_gone(watch.windows, handle, window);
        assert(watch.windows.contains(window));
    } else {
        let after = watch.told(handle, event).windows;
        let k = choose|k: int| 0 <= k < after.len() && after[k] == window;
        assert(watch.windows.contains(watch.windows[k]));
    }
}

/// Where a handle stands is within the windows, or right behind them, and it stands there.
pub proof fn lemma_place_bounds(windows: Seq<WindowText>, handle: u64)
    ensures
        0 <= place(windows, handle) <= windows.len(),
        place(windows, handle) < windows.len() ==> windows[place(windows, handle)].handle == handle,
    decreases windows.len(),
{
    if windows.len() > 0 {
        lemma_place_bounds(windows.drop_first(), handle);
    }
}

/// No window of a handle is left once it has closed, and no other is lost.
pub proof fn law_closed_windows_are_gone(windows: Seq<WindowText>, handle: u64, window: WindowText)
    ensures
        without(windows, handle).contains(window) <==> windows.contains(window) && window.handle
            != handle,
    decreases windows.len(),
{
    if windows.len() > 0 {
        let earlier = windows.drop_last();
        let last = windows.last();
        law_closed_windows_are_gone(earlier, handle, window);
        let kept = without(earlier, handle);
        let all = without(windows, handle);
        if earlier.contains(window) {
            let i = choose|i: int| 0 <= i < earlier.len() && earlier[i] == window;
            assert(windows[i] == window);
        }
        if windows.contains(window) {
            let i = choose|i: int| 0 <= i < windows.len() && windows[i] == window;
            if i < earlier.len() {
                assert(earlier[i] == window);
            }
        }
        if last == window {
            assert(windows[windows.len() - 1] == window);
        }
        if last.handle != handle {
            if kept.contains(window) {
                let i = choose|i: int| 0 <= i < kept.len() && kept[i] == window;
                assert(all[i] == window);
            }
            if all.contains(window) {
                let i = choose|i: int| 0 <= i < all.len() && all[i] == window;
                if i < kept.len() {
                    assert(kept[i] == window);
                }
            }
            assert(all[kept.len() as int] == last);
        }
    }
}

// ---------------------------------------------------------------------------
// The window that a capture is after

/// A window that a capture has heard of.
pub struct Candidate {
    pub handle: u64,
    pub identifier: String,
    pub done: bool,
}

/// What a candidate holds.
pub struct CandidateText {
    pub handle: u64,
    pub identifier: Seq<char>,
    pub done: bool,
}

impl View for Candidate {
    type V = CandidateText;

    open spec fn view(&self) -> CandidateText {
        CandidateText { handle: self.handle, identifier: self.identifier@, done: self.done }
    }
}

/// What candidates hold.
pub open spec fn candidates_text(candidates: Seq<Candidate>) -> Seq<CandidateText> {
    candidates.map_values(|c: Candidate| c@)
}

/// Where the first candidate with a handle stands, the number of candidates where there is none.
pub open spec fn candidate_place(candidates: Seq<CandidateText>, handle: u64) -> int
    decreases candidates.len(),
{
    if candidates.len() == 0 || candidates[0].handle == handle {
        0
    } else {
        1 + candidate_place(candidates.drop_first(), handle)
    }
}

/// The handle of the first candidate that is fully described and has an identifier.
pub open spec fn with_identifier(candidates: Seq<CandidateText>, identifier: Seq<char>) -> Option<
    u64,
>
    decreases candidates.len(),
{
    if candidates.len() == 0 {
        None
    } else if candidates[0].identifier == identifier && candidates[0].done {
        Some(candidates[0].handle)
    } else {
        with_identifier(candidates.drop_first(), identifier)
    }
}

/// What a capture does while it looks for its window.
#[derive(Debug, Clone, Copy, PartialEq, Eq, Structural)]
pub enum Seek {
    /// The capture is over.
    Stop,
    /// The window is the one with this handle.
    Found { handle: u64 },
    /// It has not come in time.
    Missing,
    /// Look again a little later.
    Wait,
}

/// Finds a window by its stable identifier. It might arrive after the first batch if it was just
/// opened.
pub struct Target {
    identifier: String,
    candidates: Vec<Candidate>,
}

/// What a search knows.
pub struct Sought {
    pub identifier: Seq<char>,
    pub candidates: Seq<CandidateText>,
}

impl View for Target {
    type V = Sought;

    closed spec fn view(&self) -> Sought {
        Sought {
            identifier: self.identifier@,
            candidates: candidates_text(self.candidates@),
        }
    }
}

impl Sought {
    /// With a window that has opened, of which nothing is known yet.
    pub open spec fn with_window(self, handle: u64) -> Sought {
        Sought {
            candidates: self.candidates.push(
                CandidateText { handle, identifier: Seq::empty(), done: false },
            ),
            ..self
        }
    }

    /// The search after what the compositor said about a window. Nothing happens for a handle that
    /// stands for none.
    pub open spec fn told(self, handle: u64, event: WindowEvent) -> Sought {
        let i = candidate_place(self.candidates, handle);
        if i == self.candidates.len() {
            self
        } else {
            let candidate = self.candidates[i];
            let changed = match event {
                WindowEvent::Identifier(text) => CandidateText { identifier: text@, ..candidate },
                WindowEvent::Done => CandidateText { done: true, ..candidate },
                _ => candidate,
            };
            Sought { candidates: self.candidates.update(i, changed), ..self }
        }
    }

    /// Whether an event says that the target has closed. Every other window comes and goes through
    /// the same list.
    pub open spec fn ends(self, handle: u64, event: WindowEvent) -> bool {
        let i = candidate_place(self.candidates, handle);
        event is Closed && i < self.candidates.len() && self.candidates[i].identifier
            == self.identifier
    }
}

proof fn lemma_candidate_place(candidates: Seq<CandidateText>, handle: u64, i: int)
    requires
        0 <= i <= candidates.len(),
        forall|j: int| 0 <= j < i ==> (#[trigger] candidates[j]).handle != handle,
        i == candidates.len() || candidates[i].handle == handle,
    ensures
        candidate_place(candidates, handle) == i,
    decreases candidates.len(),
{
    if i > 0 {
        assert(candidates[0].handle != handle);
        let rest = candidates.drop_first();
        assert forall|j: int| 0 <= j < i - 1 implies (#[trigger] rest[j]).handle != handle by {
            assert(rest[j] == candidates[j + 1]);
        }
        lemma_candidate_place(rest, handle, i - 1);
    }
}

impl Target {
    /// A search that has heard of no window.
    pub fn new(identifier: String) -> (r: Target)
        ensures
            r@ == (Sought { identifier: identifier@, candidates: Seq::empty() }),
    {
        let r = Target { identifier, candidates: Vec::new() };
        assert(r@.candidates =~= Seq::empty());
        r
    }

    /// A window has opened, of which nothing is known yet.
    pub fn appeared(&mut self, handle: u64)
        ensures
            final(self)@ == old(self)@.with_window(handle),
    {
        let candidate = Candidate { handle, identifier: String::new(), done: false };
        assert(candidate@.identifier =~= Seq::empty());
        self.candidates.push(candidate);
        assert(self@.candidates =~= old(self)@.candidates.push(candidate@));
    }

    /// Takes note of what the compositor says about a window, and tells whether the target has
    /// closed.
    pub fn event(&mut self, handle: u64, event: WindowEvent) -> (closed: bool)
        ensures
            final(self)@ == old(self)@.told(handle, event),
            closed == old(self)@.ends(handle, event),
    {
        let ghost before = self@.candidates;
        let mut i: usize = 0;
        while i < self.candidates.len() && self.candidates[i].handle != handle
            invariant
                i <= self.candidates.len(),
                self@.candidates == before,
                self@ == old(self)@,
                before == candidates_text(self.candidates@),
                forall|j: int| 0 <= j < i ==> (#[trigger] before[j]).handle != handle,
            decreases self.candidates.len() - i,
        {
            assert(before[i as int].handle == self.candidates@[i as int].handle);
            i += 1;
        }
        proof {
            lemma_candidate_place(before, handle, i as int);
        }
        if i == self.candidates.len() {
            return false;
        }
        let mut closed = false;
        match event {
            WindowEvent::Identifier(text) => {
                self.candidates[i].identifier = text;
            },
            WindowEvent::Done => {
                self.candidates[i].done = true;
            },
            WindowEvent::Closed => {
                closed =
                same(self.candidates[i].identifier.as_str(), self.identifier.as_str());
            },
            _ => {},
        }
        assert(self@.candidates =~= old(self)@.told(handle, event).candidates);
        closed
    }

    /// The handle of the target, if it is there and fully described.
    pub fn found(&self) -> (r: Option<u64>)
        ensures
            r == with_identifier(self@.candidates, self@.identifier),
    {
        let ghost all = self@.candidates;
        let mut i: usize = 0;
        assert(all.skip(0) =~= all);
        while i < self.candidates.len()
            invariant
                i <= self.candidates.len(),
                all == self@.candidates,
                all == candidates_text(self.candidates@),
                self@.identifier == self.identifier@,
                with_identifier(all, self@.identifier) == with_identifier(
                    all.skip(i as int),
                    self@.identifier,
                ),
            decreases self.candidates.len() - i,
        {
            assert(all.skip(i as int)[0] == self.candidates@[i as int]@);
            assert(all.skip(i as int).drop_first() =~= all.skip(i + 1));
            if same(self.candidates[i].identifier.as_str(), self.identifier.as_str())
                && self.candidates[i].done {
                return Some(self.candidates[i].handle);
            }
            i += 1;
        }
        assert(all.skip(i as int) =~= Seq::empty());
        None
    }

    /// What the capture does next. `over` says whether it was called off or the compositor is gone,
    /// `late` whether the time for the search is up.
    pub fn seek(&self, over: bool, late: bool) -> (r: Seek)
        ensures
            r == if over {
                Seek::Stop
            } else {
                match with_identifier(self@.candidates, self@.identifier) {
                    Some(handle) => Seek::Found { handle },
                    None => if late {
                        Seek::Missing
                    } else {
                        Seek::Wait
                    },
                }
            },
    {
        if over {
            return Seek::Stop;
        }
        match self.found() {
            Some(handle) => Seek::Found { handle },
            None => if late {
                Seek::Missing
            } else {
                Seek::Wait
            },
        }
    }
}

// ---------------------------------------------------------------------------
// Laws

/// If the search gives a handle, the first candidate that is fully described and has the identifier
/// searched for has that handle. If it gives none, no candidate is described and has it.
pub proof fn law_first_described_candidate_is_found(
    candidates: Seq<CandidateText>,
    identifier: Seq<char>,
)
    ensures
        match with_identifier(candidates, identifier) {
            Some(handle) => exists|i: int|
                {
                    &&& 0 <= i < candidates.len()
                    &&& (#[trigger] candidates[i]).handle == handle
                    &&& candidates[i].done
                    &&& candidates[i].identifier == identifier
                    &&& forall|j: int|
                        0 <= j < i ==> !((#[trigger] candidates[j]).done && candidates[j].identifier
                            == identifier)
                },
            None => forall|i: int|
                0 <= i < candidates.len() ==> !((#[trigger] candidates[i]).done
                    && candidates[i].identifier == identifier),
        },
    decreases candidates.len(),
{
    if candidates.len() > 0 && !(candidates[0].identifier == identifier && candidates[0].done) {
        let rest = candidates.drop_first();
        law_first_described_candidate_is_found(rest, identifier);
        match with_identifier(rest, identifier) {
            Some(handle) => {
                let i = choose|i: int|
                    {
                        &&& 0 <= i < rest.len()
                        &&& (#[trigger] rest[i]).handle == handle
                        &&& rest[i].done
                        &&& rest[i].identifier == identifier
                        &&& forall|j: int|
                            0 <= j < i ==> !((#[trigger] rest[j]).done && rest[j].identifier
                                == identifier)
                    };
                assert(candidates[i + 1] == rest[i]);
                assert forall|j: int| 0 <= j < i + 1 implies !((#[trigger] candidates[j]).done
                    && candidates[j].identifier == identifier) by {
                    if j > 0 {
                        assert(rest[j - 1] == candidates[j]);
                    }
                }
            },
            None => {
                assert forall|j: int| 0 <= j < candidates.len() implies !((#[trigger]
                candidates[j]).done && candidates[j].identifier == identifier) by {
                    if j > 0 {
                        assert(rest[j - 1] == candidates[j]);
                    }
                }
            },
        }
    }
}

/// A handle stands for the first candidate that has it, and for none only if none has it.
pub proof fn law_candidate_place(candidates: Seq<CandidateText>, handle: u64)
    ensures
        ({
            let i = candidate_place(candidates, handle);
            &&& 0 <= i <= candidates.len()
            &&& i < candidates.len() ==> candidates[i].handle == handle
            &&& forall|j: int| 0 <= j < i ==> (#[trigger] candidates[j]).handle != handle
        }),
    decreases candidates.len(),
{
    if candidates.len() > 0 && candidates[0].handle != handle {
        let rest = candidates.drop_first();
        law_candidate_place(rest, handle);
        let i = candidate_place(candidates, handle);
        assert forall|j: int| 0 <= j < i implies (#[trigger] candidates[j]).handle != handle by {
            if j > 0 {
                assert(rest[j - 1] == candidates[j]);
            }
        }
        if i < candidates.len() {
            assert(rest[i - 1] == candidates[i]);
        }
    }
}

/// What is said about a window changes the candidate that its handle stands for, and only what was
/// said of it: its identifier, or that it is fully described. The search ends exactly when the
/// candidate that closes has the identifier searched for.
pub proof fn law_search_hears_of_one_candidate(
    sought: Sought,
    handle: u64,
    event: WindowEvent,
    i: int,
)
    requires
        0 <= i < sought.candidates.len(),
        sought.candidates[i].handle == handle,
        forall|j: int| 0 <= j < i ==> (#[trigger] sought.candidates[j]).handle != handle,
    ensures
        ({
            let before = sought.candidates[i];
            let after = sought.told(handle, event).candidates[i];
            &&& sought.told(handle, event).identifier == sought.identifier
            &&& sought.told(handle, event).candidates.len() == sought.candidates.len()
            &&& forall|j: int|
                0 <= j < sought.candidates.len() && j != i ==> #[trigger] sought.told(
                    handle,
                    event,
                ).candidates[j] == sought.candidates[j]
            &&& after.handle == handle
            &&& after.done == (before.done || event is Done)
            &&& event matches WindowEvent::Identifier(text) ==> after.identifier == text@
            &&& !(event is Identifier) ==> after.identifier == before.identifier
            &&& sought.ends(handle, event) <==> event is Closed && before.identifier
                == sought.identifier
        }),
{
    lemma_candidate_place(sought.candidates, handle, i);
}

/// What is said about a window that the search has not heard of changes nothing.
pub proof fn law_search_ignores_unknown_windows(sought: Sought, handle: u64, event: WindowEvent)
    requires
        forall|j: int|
            0 <= j < sought.candidates.len() ==> (#[trigger] sought.candidates[j]).handle != handle,
    ensures
        sought.told(handle, event) == sought,
        !sought.ends(handle, event),
{
    lemma_candidate_place(sought.candidates, handle, sought.candidates.len() as int);
}

/// A handle stands for the first window that has it, and for none only if none has it.
pub proof fn law_place(windows: Seq<WindowText>, handle: u64)
    ensures
        ({
            let i = place(windows, handle);
            &&& 0 <= i <= windows.len()
            &&& i < windows.len() ==> windows[i].handle == handle
            &&& forall|j: int| 0 <= j < i ==> (#[trigger] windows[j]).handle != handle
        }),
    decreases windows.len(),
{
    if windows.len() > 0 && windows[0].handle != handle {
        let rest = windows.drop_first();
        law_place(rest, handle);
        let i = place(windows, handle);
        assert forall|j: int| 0 <= j < i implies (#[trigger] windows[j]).handle != handle by {
            if j > 0 {
                assert(rest[j - 1] == windows[j]);
            }
        }
        if i < windows.len() {
            assert(rest[i - 1] == windows[i]);
        }
    }
}

/// What is said about an open window changes that window, and only what was said of it.
pub proof fn law_watch_hears_of_one_window(watch: Watched, handle: u64, event: WindowEvent, i: int)
    requires
        0 <= i < watch.windows.len(),
        watch.windows[i].handle == handle,
        forall|j: int| 0 <= j < i ==> (#[trigger] watch.windows[j]).handle != handle,
        !(event is Closed),
    ensures
        ({
            let r = watch.told(handle, event);
            let before = watch.windows[i];
            let after = r.windows[i];
            &&& r.closed == watch.closed && r.output == watch.output && r.reported
                == watch.reported
            &&& r.windows.len() == watch.windows.len()
            &&& forall|j: int|
                0 <= j < watch.windows.len() && j != i ==> #[trigger] r.windows[j]
                    == watch.windows[j]
            &&& after.handle == handle && after.emitted == before.emitted
            &&& after.done == (before.done || event is Done)
            &&& event matches WindowEvent::Identifier(text) ==> after.identifier == text@
            &&& !(event is Identifier) ==> after.identifier == before.identifier
            &&& event matches WindowEvent::AppId(text) ==> after.app_id == text@
            &&& !(event is AppId) ==> after.app_id == before.app_id
            &&& event matches WindowEvent::Title(text) ==> after.title == text@
            &&& !(event is Title) ==> after.title == before.title
        }),
{
    lemma_place(watch.windows, handle, i);
}

/// What is said about a window that is not open changes nothing.
pub proof fn law_watch_ignores_unknown_windows(watch: Watched, handle: u64, event: WindowEvent)
    requires
        forall|j: int|
            0 <= j < watch.windows.len() ==> (#[trigger] watch.windows[j]).handle != handle,
    ensures
        watch.told(handle, event) == watch,
{
    lemma_place(watch.windows, handle, watch.windows.len() as int);
}

proof fn lemma_without_is_filter(windows: Seq<WindowText>, handle: u64)
    ensures
        without(windows, handle) == windows.filter(|w: WindowText| w.handle != handle),
    decreases windows.len(),
{
    reveal(Seq::filter);
    if windows.len() > 0 {
        lemma_without_is_filter(windows.drop_last(), handle);
    }
}

/// A window that closes leaves, the others stay in their order, and its identifier, if it has one,
/// waits for the report behind those that closed before.
pub proof fn law_closing_a_window(watch: Watched, handle: u64, event: WindowEvent, i: int)
    requires
        0 <= i < watch.windows.len(),
        watch.windows[i].handle == handle,
        forall|j: int| 0 <= j < i ==> (#[trigger] watch.windows[j]).handle != handle,
        event is Closed,
    ensures
        ({
            let r = watch.told(handle, event);
            &&& r.windows == watch.windows.filter(|w: WindowText| w.handle != handle)
            &&& r.closed == watch.closed + if watch.windows[i].identifier.len() == 0 {
                Seq::empty()
            } else {
                seq![watch.windows[i].identifier]
            }
            &&& r.output == watch.output && r.reported == watch.reported
        }),
{
    lemma_place(watch.windows, handle, i);
    lemma_without_is_filter(watch.windows, handle);
    let r = watch.told(handle, event);
    assert(r.closed =~= watch.closed + if watch.windows[i].identifier.len() == 0 {
        Seq::empty()
    } else {
        seq![watch.windows[i].identifier]
    });
}

/// The openings of windows are those of each, in order, and one window gives one exactly if its
/// description is complete, it has an identifier and it was not reported.
pub proof fn law_openings(a: Seq<WindowText>, b: Seq<WindowText>, window: WindowText)
    ensures
        openings(a + b) == openings(a) + openings(b),
        openings(Seq::empty()) == Seq::<Report>::empty(),
        openings(seq![window]) == if window.done && window.identifier.len() != 0
            && !window.emitted {
            seq![
                Report::Opened {
                    identifier: window.identifier,
                    app_id: window.app_id,
                    title: window.title,
                },
            ]
        } else {
            Seq::empty()
        },
    decreases b.len(),
{
    reveal_with_fuel(openings, 2);
    assert(seq![window].drop_last() =~= Seq::empty());
    if b.len() == 0 {
        assert(a + b =~= a);
        assert(openings(a) + openings(b) =~= openings(a));
    } else {
        law_openings(a, b.drop_last(), window);
        assert((a + b).drop_last() =~= a + b.drop_last());
        assert(openings(a + b) =~= openings(a) + openings(b));
    }
}

/// Reports come in the order of the size, the openings and the closings. A size is due exactly if
/// the output has one that differs, in width or in height, from the one reported last; every
/// identifier that closed is due.
pub proof fn law_due(watch: Watched)
    ensures
        ({
            let sized = watch.output.0 != 0 && watch.output.1 != 0 && (watch.output.0
                != watch.reported.0 || watch.output.1 != watch.reported.1);
            let n: int = if sized {
                1
            } else {
                0
            };
            let m = openings(watch.windows).len();
            let due = watch.due();
            &&& due.len() == n + m + watch.closed.len()
            &&& sized ==> due[0] == (Report::Size {
                width: watch.output.0,
                height: watch.output.1,
            })
            &&& due.subrange(n, n + m) == openings(watch.windows)
            &&& forall|i: int|
                0 <= i < watch.closed.len() ==> due[n + m + i] == (Report::Closed {
                    identifier: #[trigger] watch.closed[i],
                })
        }),
{
    let n: int = if watch.resized() {
        1
    } else {
        0
    };
    let m = openings(watch.windows).len();
    assert(watch.due().subrange(n, n + m) =~= openings(watch.windows));
}

/// After the reports every window that was due counts as reported and is otherwise as before, no
/// closing is left, and the size that the output has, if it has one, is the one reported.
pub proof fn law_after_reports(watch: Watched, i: int)
    requires
        0 <= i < watch.windows.len(),
    ensures
        ({
            let before = watch.windows[i];
            let after = watch.after_reports().windows[i];
            &&& watch.after_reports().windows.len() == watch.windows.len()
            &&& after.handle == before.handle && after.identifier == before.identifier
                && after.app_id == before.app_id && after.title == before.title && after.done
                == before.done
            &&& after.emitted == (before.emitted || (before.done && before.identifier.len() != 0))
            &&& watch.after_reports().closed.len() == 0
            &&& watch.after_reports().output == watch.output
            &&& watch.after_reports().reported == if watch.output.0 != 0 && watch.output.1 != 0 {
                watch.output
            } else {
                watch.reported
            }
        }),
{
}

/// A window that has just opened comes last, changes no other, and is neither reported nor found
/// until more is said about it.
pub proof fn law_new_window_waits(watch: Watched, sought: Sought, handle: u64)
    ensures
        watch.with_window(handle).windows.drop_last() == watch.windows,
        watch.with_window(handle).windows.last().handle == handle,
        watch.with_window(handle).due() == watch.due(),
        sought.with_window(handle).candidates.drop_last() == sought.candidates,
        sought.with_window(handle).candidates.last().handle == handle,
        sought.with_window(handle).identifier == sought.identifier,
        with_identifier(sought.with_window(handle).candidates, sought.identifier)
            == with_identifier(sought.candidates, sought.identifier),
{
    let w = watch.with_window(handle);
    let s = sought.with_window(handle);
    assert(w.windows.drop_last() =~= watch.windows);
    assert(s.candidates.drop_last() =~= sought.candidates);
    lemma_undescribed_is_not_found(
        sought.candidates,
        CandidateText { handle, identifier: Seq::empty(), done: false },
        sought.identifier,
    );
}

proof fn lemma_undescribed_is_not_found(
    candidates: Seq<CandidateText>,
    candidate: CandidateText,
    identifier: Seq<char>,
)
    requires
        !candidate.done,
    ensures
        with_identifier(candidates.push(candidate), identifier) == with_identifier(
            candidates,
            identifier,
        ),
    decreases candidates.len(),
{
    let all = candidates.push(candidate);
    reveal_with_fuel(with_identifier, 2);
    if candidates.len() > 0 {
        lemma_undescribed_is_not_found(candidates.drop_first(), candidate, identifier);
        assert(all.drop_first() =~= candidates.drop_first().push(candidate));
        assert(all[0] == candidates[0]);
    } else {
        assert(all.drop_first() =~= Seq::empty());
    }
}

/// A size of the output changes nothing about the windows, and is due if it is one and differs from
/// the one reported.
pub proof fn law_output_size_is_noted(watch: Watched, width: u32, height: u32)
    ensures
        ({
            let r = watch.with_output(width, height);
            &&& r.output == (width, height)
            &&& r.windows == watch.windows && r.closed == watch.closed && r.reported
                == watch.reported
            &&& r.resized() <==> width > 0 && height > 0 && !(width == watch.reported.0 && height
                == watch.reported.1)
        }),
{
}

/// A search that is called off stops, though the window is there. Else it ends with the window once
/// that is there, waits for it while there is time, and misses it when there is none left.
pub proof fn law_seek(target: &Target, over: bool, late: bool, r: Seek)
    requires
        call_ensures(Target::seek, (target, over, late), r),
    ensures
        ({
            let found = with_identifier(target@.candidates, target@.identifier);
            &&& r == Seek::Stop <==> over
            &&& r == Seek::Missing <==> !over && found is None && late
            &&& r == Seek::Wait <==> !over && found is None && !late
            &&& r is Found <==> !over && found is Some
            &&& r is Found ==> found == Some(r->handle)
        }),
{
}

/// A report says what the event says.
pub proof fn law_reports_say_what_happened(event: CoordEvent)
    ensures
        event@ is Opened <==> event is NewToplevel,
        event@ is Closed <==> event is ToplevelClosed,
        event@ is Size <==> event is OutputSize,
        event matches CoordEvent::NewToplevel { identifier, app_id, title } ==> {
            &&& event@->Opened_identifier == identifier@
            &&& event@->app_id == app_id@
            &&& event@->title == title@
        },
        event matches CoordEvent::ToplevelClosed { identifier } ==> event@->Closed_identifier
            == identifier@,
        event matches CoordEvent::OutputSize { width, height } ==> event@->width == width
            && event@->height == height,
{
}

/// The reports are those of the events, in their order.
pub proof fn law_reports_in_order(events: Seq<CoordEvent>, i: int)
    requires
        0 <= i < events.len(),
    ensures
        reports(events).len() == events.len(),
        reports(events)[i] == events[i]@,
{
}

/// A new watch has nothing to report, and a new search has found nothing.
pub proof fn law_new_watch_and_search(watch: Watch, identifier: String, target: Target)
    requires
        call_ensures(Watch::new, (), watch),
        call_ensures(Target::new, (identifier,), target),
    ensures
        watch@.due() == Seq::<Report>::empty(),
        watch@.windows.len() == 0 && watch@.closed.len() == 0,
        watch@.output == (0u32, 0u32) && watch@.reported == (0u32, 0u32),
        target@.identifier == identifier@,
        target@.candidates.len() == 0,
        with_identifier(target@.candidates, target@.identifier) is None,
{
    assert(closings(watch@.closed) =~= Seq::empty());
    assert(openings(watch@.windows) =~= Seq::empty());
    assert(watch@.due() =~= Seq::empty());
}

} // verus!
