//! The window streams of the composed picture: which windows are in it, and where they go when one
//! opens or closes or the canvas changes its size.
use crate::layout::{
    in_cell, laid_out, law_grid_is_unique, max_windows, placements, tiles, Grid, Placement,
};
use crate::text::{same, texts};
use crate::windows::CoordEvent;
use vstd::prelude::*;
use vstd::string::*;

verus! {

/// The windows that are composed, in the order of their cells, and the size of the canvas.
pub struct Streams {
    identifiers: Vec<String>,
    out_w: u32,
    out_h: u32,
}

/// What streams hold.
pub struct Composed {
    pub identifiers: Seq<Seq<char>>,
    pub out_w: u32,
    pub out_h: u32,
}

impl View for Streams {
    type V = Composed;

    closed spec fn view(&self) -> Composed {
        Composed { identifiers: texts(self.identifiers@), out_w: self.out_w, out_h: self.out_h }
    }
}

/// Where an identifier stands first, the number of identifiers where it does not.
pub open spec fn spot(identifiers: Seq<Seq<char>>, identifier: Seq<char>) -> int
    decreases identifiers.len(),
{
    if identifiers.len() == 0 || identifiers[0] == identifier {
        0
    } else {
        1 + spot(identifiers.drop_first(), identifier)
    }
}

/// Whether a window is composed.
pub open spec fn composed(identifiers: Seq<Seq<char>>, identifier: Seq<char>) -> bool {
    spot(identifiers, identifier) < identifiers.len()
}

/// Whether no window is composed twice.
pub open spec fn distinct(identifiers: Seq<Seq<char>>) -> bool {
    forall|i: int, j: int|
        0 <= i < j < identifiers.len() ==> #[trigger] identifiers[i] != #[trigger] identifiers[j]
}

/// What changes in the pipeline.
pub enum Change {
    /// Nothing.
    Nothing,
    /// The canvas has another size, and every window its place on it.
    Resize { width: u32, height: u32 },
    /// A window joins, scaled to a cell of this size.
    Open { identifier: String, app_id: String, title: String, cell_w: u32, cell_h: u32 },
    /// A window leaves: the stream at this place, if there is one.
    Close { identifier: String, place: Option<usize> },
}

/// What a change says, but for the size of a cell.
pub enum ChangeText {
    Nothing,
    Resize { width: u32, height: u32 },
    Open { identifier: Seq<char>, app_id: Seq<char>, title: Seq<char> },
    Close { identifier: Seq<char>, place: Option<int> },
}

impl View for Change {
    type V = ChangeText;

    open spec fn view(&self) -> ChangeText {
        match *self {
            Change::Nothing => ChangeText::Nothing,
            Change::Resize { width, height } => ChangeText::Resize { width, height },
            Change::Open { identifier, app_id, title, .. } => ChangeText::Open {
                identifier: identifier@,
                app_id: app_id@,
                title: title@,
            },
            Change::Close { identifier, place } => ChangeText::Close {
                identifier: identifier@,
                place: match place {
                    Some(place) => Some(place as int),
                    None => None,
                },
            },
        }
    }
}

impl Composed {
    /// Whether a cell of the grid for all windows has this size.
    pub open spec fn has_cells(self, cell_w: u32, cell_h: u32) -> bool {
        exists|grid: Grid| #[trigger]
            tiles(grid, self.identifiers.len() as int, self.out_w, self.out_h) && grid.cell_w
                == cell_w && grid.cell_h == cell_h
    }

    /// What a report changes in the pipeline.
    pub open spec fn change(self, event: CoordEvent, dynamic_size: bool) -> ChangeText {
        match event {
            CoordEvent::OutputSize { width, height } => if dynamic_size && self.resized(
                width,
                height,
            ) {
                ChangeText::Resize { width, height }
            } else {
                ChangeText::Nothing
            },
            CoordEvent::NewToplevel { identifier, app_id, title } => if composed(
                self.identifiers,
                identifier@,
            ) {
                ChangeText::Nothing
            } else {
                ChangeText::Open { identifier: identifier@, app_id: app_id@, title: title@ }
            },
            CoordEvent::ToplevelClosed { identifier } => ChangeText::Close {
                identifier: identifier@,
                place: if composed(self.identifiers, identifier@) {
                    Some(spot(self.identifiers, identifier@))
                } else {
                    None
                },
            },
        }
    }

    /// Whether a size is another one than the canvas has.
    pub open spec fn resized(self, width: u32, height: u32) -> bool {
        self.out_w != width || self.out_h != height
    }

    /// With a canvas of this size.
    pub open spec fn sized(self, width: u32, height: u32) -> Composed {
        Composed { out_w: width, out_h: height, ..self }
    }

    /// With a window that has opened. One that is there already stays as it is.
    pub open spec fn opened(self, identifier: Seq<char>) -> Composed {
        if composed(self.identifiers, identifier) {
            self
        } else {
            Composed { identifiers: self.identifiers.push(identifier), ..self }
        }
    }

    /// Without a window that has closed.
    pub open spec fn closed(self, identifier: Seq<char>) -> Composed {
        if composed(self.identifiers, identifier) {
            Composed {
                identifiers: self.identifiers.remove(spot(self.identifiers, identifier)),
                ..self
            }
        } else {
            self
        }
    }

    /// After a report. The canvas follows the output only where no size was asked for.
    pub open spec fn managed(self, event: CoordEvent, dynamic_size: bool) -> Composed {
        match event {
            CoordEvent::OutputSize { width, height } => if dynamic_size {
                self.sized(width, height)
            } else {
                self
            },
            CoordEvent::NewToplevel { identifier, .. } => self.opened(identifier@),
            CoordEvent::ToplevelClosed { identifier } => self.closed(identifier@),
        }
    }
}

proof fn lemma_spot(identifiers: Seq<Seq<char>>, identifier: Seq<char>, i: int)
    requires
        0 <= i <= identifiers.len(),
        forall|j: int| 0 <= j < i ==> #[trigger] identifiers[j] != identifier,
        i == identifiers.len() || identifiers[i] == identifier,
    ensures
        spot(identifiers, identifier) == i,
    decreases identifiers.len(),
{
    if i > 0 {
        assert(identifiers[0] != identifier);
        let rest = identifiers.drop_first();
        assert forall|j: int| 0 <= j < i - 1 implies #[trigger] rest[j] != identifier by {
            assert(rest[j] == identifiers[j + 1]);
        }
        lemma_spot(rest, identifier, i - 1);
    }
}

proof fn lemma_spot_is_first(identifiers: Seq<Seq<char>>, identifier: Seq<char>)
    ensures
        0 <= spot(identifiers, identifier) <= identifiers.len(),
        composed(identifiers, identifier) ==> identifiers[spot(identifiers, identifier)]
            == identifier,
        forall|j: int|
            0 <= j < spot(identifiers, identifier) ==> #[trigger] identifiers[j] != identifier,
    decreases identifiers.len(),
{
    if identifiers.len() > 0 && identifiers[0] != identifier {
        let rest = identifiers.drop_first();
        lemma_spot_is_first(rest, identifier);
        assert forall|j: int| 0 <= j < spot(identifiers, identifier) implies #[trigger]
        identifiers[j] != identifier by {
            if j > 0 {
                assert(rest[j - 1] == identifiers[j]);
            }
        }
    }
}

impl Streams {
    /// An empty canvas.
    pub fn new(out_w: u32, out_h: u32) -> (r: Streams)
        ensures
            r@ == (Composed { identifiers: Seq::empty(), out_w, out_h }),
    {
        let r = Streams { identifiers: Vec::new(), out_w, out_h };
        assert(r@.identifiers =~= Seq::empty());
        r
    }

    /// How many windows are composed.
    pub fn count(&self) -> (r: usize)
        ensures
            r == self@.identifiers.len(),
    {
        self.identifiers.len()
    }

    fn find(&self, identifier: &str) -> (r: usize)
        ensures
            r == spot(self@.identifiers, identifier@),
            r <= self@.identifiers.len(),
            self@.identifiers.len() == self.identifiers.len(),
    {
        let mut i: usize = 0;
        while i < self.identifiers.len() && !same(self.identifiers[i].as_str(), identifier)
            invariant
                i <= self.identifiers.len(),
                self@.identifiers == texts(self.identifiers@),
                forall|j: int| 0 <= j < i ==> #[trigger] self@.identifiers[j] != identifier@,
            decreases self.identifiers.len() - i,
        {
            assert(self@.identifiers[i as int] == self.identifiers@[i as int]@);
            i += 1;
        }
        proof {
            lemma_spot(self@.identifiers, identifier@, i as int);
        }
        i
    }

    /// A window joins, unless it is there already. Gives the grid that it joins.
    pub fn add_stream(&mut self, identifier: String) -> (r: Option<Grid>)
        ensures
            final(self)@ == old(self)@.opened(identifier@),
            r is None <==> composed(old(self)@.identifiers, identifier@),
            r is Some && final(self)@.identifiers.len() <= max_windows() ==> tiles(
                r->0,
                final(self)@.identifiers.len() as int,
                final(self)@.out_w,
                final(self)@.out_h,
            ),
    {
        let i = self.find(identifier.as_str());
        if i < self.identifiers.len() {
            return None;
        }
        self.identifiers.push(identifier);
        assert(self@.identifiers =~= old(self)@.identifiers.push(identifier@));
        Some(Grid::new(self.identifiers.len(), self.out_w, self.out_h))
    }

    /// A window leaves. Gives the place that it had.
    pub fn remove_stream(&mut self, identifier: &str) -> (r: Option<usize>)
        ensures
            final(self)@ == old(self)@.closed(identifier@),
            match r {
                Some(place) => composed(old(self)@.identifiers, identifier@) && place == spot(
                    old(self)@.identifiers,
                    identifier@,
                ),
                None => !composed(old(self)@.identifiers, identifier@),
            },
    {
        let i = self.find(identifier);
        if i == self.identifiers.len() {
            return None;
        }
        self.identifiers.remove(i);
        assert(self@.identifiers =~= old(self)@.identifiers.remove(i as int));
        Some(i)
    }

    /// The canvas has this size. Tells whether that is another one.
    pub fn update_output_size(&mut self, width: u32, height: u32) -> (changed: bool)
        ensures
            final(self)@ == old(self)@.sized(width, height),
            changed == old(self)@.resized(width, height),
    {
        if self.out_w == width && self.out_h == height {
            return false;
        }
        self.out_w = width;
        self.out_h = height;
        true
    }

    /// Where every window goes.
    pub fn recalculate_layout(&self) -> (r: Vec<Placement>)
        requires
            self@.identifiers.len() <= max_windows(),
        ensures
            r.len() == self@.identifiers.len(),
            laid_out(r@, self@.out_w, self@.out_h),
    {
        placements(self.identifiers.len(), self.out_w, self.out_h)
    }

    /// Acts on a report of the watch, and says what changes in the pipeline. `dynamic_size` says
    /// whether the canvas follows the output.
    pub fn manage(&mut self, event: CoordEvent, dynamic_size: bool) -> (r: Change)
        ensures
            final(self)@ == old(self)@.managed(event, dynamic_size),
            r@ == old(self)@.change(event, dynamic_size),
            r is Open && final(self)@.identifiers.len() <= max_windows() ==> final(self)@.has_cells(
                r->cell_w,
                r->cell_h,
            ),
            match event {
                CoordEvent::OutputSize { width, height } => if dynamic_size && old(
                    self,
                )@.resized(width, height) {
                    r == (Change::Resize { width, height })
                } else {
                    r is Nothing
                },
                CoordEvent::NewToplevel { identifier, app_id, title } => if composed(
                    old(self)@.identifiers,
                    identifier@,
                ) {
                    r is Nothing
                } else {
                    &&& r is Open
                    &&& r->Open_identifier@ == identifier@
                    &&& r->app_id@ == app_id@
                    &&& r->title@ == title@
                    &&& final(self)@.identifiers.len() <= max_windows() ==> exists|grid: Grid|
                        #[trigger]
                        tiles(
                            grid,
                            final(self)@.identifiers.len() as int,
                            final(self)@.out_w,
                            final(self)@.out_h,
                        ) && r->cell_w == grid.cell_w && r->cell_h == grid.cell_h
                },
                CoordEvent::ToplevelClosed { identifier } => {
                    &&& r is Close
                    &&& r->Close_identifier@ == identifier@
                    &&& match r->place {
                        Some(place) => composed(old(self)@.identifiers, identifier@) && place
                            == spot(old(self)@.identifiers, identifier@),
                        None => !composed(old(self)@.identifiers, identifier@),
                    }
                },
            },
    {
        match event {
            CoordEvent::OutputSize { width, height } => {
                if dynamic_size && self.update_output_size(width, height) {
                    Change::Resize { width, height }
                } else {
                    Change::Nothing
                }
            },
            CoordEvent::NewToplevel { identifier, app_id, title } => {
                match self.add_stream(identifier.as_str().to_owned()) {
                    Some(grid) => Change::Open {
                        identifier,
                        app_id,
                        title,
                        cell_w: grid.cell_w,
                        cell_h: grid.cell_h,
                    },
                    None => Change::Nothing,
                }
            },
            CoordEvent::ToplevelClosed { identifier } => {
                let place = self.remove_stream(identifier.as_str());
                Change::Close { identifier, place }
            },
        }
    }
}

// ---------------------------------------------------------------------------
// Laws

/// No window is composed twice, whatever is reported.
pub proof fn law_windows_are_composed_once(streams: Composed, event: CoordEvent, dynamic_size: bool)
    requires
        distinct(streams.identifiers),
    ensures
        distinct(streams.managed(event, dynamic_size).identifiers),
{
    let before = streams.identifiers;
    let after = streams.managed(event, dynamic_size).identifiers;
    match event {
        CoordEvent::NewToplevel { identifier, .. } => {
            lemma_spot_is_first(before, identifier@);
        },
        CoordEvent::ToplevelClosed { identifier } => {
            lemma_spot_is_first(before, identifier@);
            let gone = spot(before, identifier@);
            if gone < before.len() {
                assert forall|i: int, j: int| 0 <= i < j < after.len() implies #[trigger] after[i]
                    != #[trigger] after[j] by {
                    assert(after[i] == before[if i < gone {
                        i
                    } else {
                        i + 1
                    }]);
                    assert(after[j] == before[if j < gone {
                        j
                    } else {
                        j + 1
                    }]);
                }
            }
        },
        _ => {},
    }
}

/// A window that closes leaves everything as it was before it opened.
pub proof fn law_closing_undoes_opening(streams: Composed, identifier: Seq<char>)
    requires
        !composed(streams.identifiers, identifier),
    ensures
        streams.opened(identifier).closed(identifier) == streams,
{
    let before = streams.identifiers;
    let after = before.push(identifier);
    lemma_spot_is_first(before, identifier);
    assert forall|j: int| 0 <= j < before.len() implies #[trigger] after[j] != identifier by {
        assert(after[j] == before[j]);
    }
    lemma_spot(after, identifier, before.len() as int);
    assert(after.remove(before.len() as int) =~= before);
}

/// A window that has closed is composed no more.
pub proof fn law_closed_windows_leave(streams: Composed, identifier: Seq<char>)
    requires
        distinct(streams.identifiers),
    ensures
        !composed(streams.closed(identifier).identifiers, identifier),
{
    let before = streams.identifiers;
    let after = streams.closed(identifier).identifiers;
    lemma_spot_is_first(before, identifier);
    lemma_spot_is_first(after, identifier);
    if composed(before, identifier) && composed(after, identifier) {
        let gone = spot(before, identifier);
        let i = spot(after, identifier);
        let k = if i < gone {
            i
        } else {
            i + 1
        };
        assert(after[i] == before[k]);
        assert(before[gone] == before[k]);
    }
}

/// A window stands at its first place among the composed ones, and is composed exactly if it stands
/// among them.
pub proof fn law_spot(identifiers: Seq<Seq<char>>, identifier: Seq<char>)
    ensures
        composed(identifiers, identifier) <==> identifiers.contains(identifier),
        ({
            let i = spot(identifiers, identifier);
            &&& 0 <= i <= identifiers.len()
            &&& i < identifiers.len() ==> identifiers[i] == identifier
            &&& forall|j: int| 0 <= j < i ==> #[trigger] identifiers[j] != identifier
        }),
{
    lemma_spot_is_first(identifiers, identifier);
    if identifiers.contains(identifier) {
        let k = choose|k: int| 0 <= k < identifiers.len() && identifiers[k] == identifier;
        if spot(identifiers, identifier) == identifiers.len() {
            assert(identifiers[k] != identifier);
        }
    }
}

/// A window that opens comes last, unless it is composed already, and then nothing changes. The
/// canvas stays.
pub proof fn law_opened_window_comes_last(streams: Composed, identifier: Seq<char>)
    ensures
        ({
            let r = streams.opened(identifier);
            &&& r.out_w == streams.out_w && r.out_h == streams.out_h
            &&& streams.identifiers.contains(identifier) ==> r.identifiers == streams.identifiers
            &&& !streams.identifiers.contains(identifier) ==> r.identifiers == streams.identifiers
                + seq![identifier]
        }),
{
    law_spot(streams.identifiers, identifier);
    assert(streams.identifiers.push(identifier) =~= streams.identifiers + seq![identifier]);
}

/// A window that closes leaves, the others stay in their order, and the canvas stays.
pub proof fn law_closed_window_leaves_the_others(
    streams: Composed,
    left: Seq<Seq<char>>,
    identifier: Seq<char>,
    right: Seq<Seq<char>>,
)
    requires
        !left.contains(identifier),
    ensures
        ({
            let r = streams.closed(identifier);
            &&& r.out_w == streams.out_w && r.out_h == streams.out_h
            &&& streams.identifiers == left + seq![identifier] + right ==> r.identifiers == left
                + right
            &&& !streams.identifiers.contains(identifier) ==> r.identifiers == streams.identifiers
        }),
{
    law_spot(streams.identifiers, identifier);
    if streams.identifiers == left + seq![identifier] + right {
        let all = streams.identifiers;
        assert forall|j: int| 0 <= j < left.len() implies #[trigger] all[j] != identifier by {
            assert(all[j] == left[j]);
            assert(left.contains(left[j]));
        }
        assert(all[left.len() as int] == identifier);
        lemma_spot(all, identifier, left.len() as int);
        assert(all.remove(left.len() as int) =~= left + right);
    }
}

/// The canvas follows the output only where it is to, and a size moves no window in or out; a
/// window that opens or closes leaves the canvas as it is.
pub proof fn law_canvas_follows_the_output(streams: Composed, event: CoordEvent, dynamic_size: bool)
    ensures
        ({
            let r = streams.managed(event, dynamic_size);
            match event {
                CoordEvent::OutputSize { width, height } => {
                    &&& r.identifiers == streams.identifiers
                    &&& dynamic_size ==> r.out_w == width && r.out_h == height
                    &&& !dynamic_size ==> r.out_w == streams.out_w && r.out_h == streams.out_h
                },
                CoordEvent::NewToplevel { identifier, .. } => {
                    &&& r.identifiers.contains(identifier@)
                    &&& r.out_w == streams.out_w && r.out_h == streams.out_h
                },
                CoordEvent::ToplevelClosed { identifier } => {
                    &&& r.identifiers.len() == streams.identifiers.len()
                        - if streams.identifiers.contains(identifier@) {
                        1int
                    } else {
                        0int
                    }
                    &&& r.out_w == streams.out_w && r.out_h == streams.out_h
                },
            }
        }),
{
    match event {
        CoordEvent::NewToplevel { identifier, .. } => {
            law_spot(streams.identifiers, identifier@);
            let after = streams.identifiers.push(identifier@);
            assert(after[streams.identifiers.len() as int] == identifier@);
        },
        CoordEvent::ToplevelClosed { identifier } => {
            law_spot(streams.identifiers, identifier@);
        },
        _ => {},
    }
}

/// A canvas that got a size has it and keeps its windows, and the same size is then no change; any
/// other is.
pub proof fn law_canvas_size(streams: Composed, width: u32, height: u32)
    ensures
        ({
            let r = streams.sized(width, height);
            &&& r.out_w == width && r.out_h == height && r.identifiers == streams.identifiers
            &&& !r.resized(width, height)
            &&& streams.resized(width, height) <==> !(streams.out_w == width && streams.out_h
                == height)
        }),
{
}

/// A new canvas has its size and no window.
pub proof fn law_new_canvas_is_empty(out_w: u32, out_h: u32, identifier: Seq<char>, r: Streams)
    requires
        call_ensures(Streams::new, (out_w, out_h), r),
    ensures
        !r@.resized(out_w, out_h),
        r@.identifiers.len() == 0,
        !composed(r@.identifiers, identifier),
{
}

/// As many windows are counted as are composed.
pub proof fn law_count(streams: &Streams, r: usize, identifier: Seq<char>)
    requires
        call_ensures(Streams::count, (streams,), r),
    ensures
        r == streams@.identifiers.len(),
        streams@.identifiers.contains(identifier) ==> r > 0,
{
}

/// What a report changes: the canvas, exactly if it follows the output and the size is another one;
/// a window that joins, exactly if it is not composed yet; and a window that leaves, with the first
/// place at which it stands, if it stands anywhere.
pub proof fn law_change(streams: Composed, event: CoordEvent, dynamic_size: bool)
    ensures
        ({
            let r = streams.change(event, dynamic_size);
            match event {
                CoordEvent::OutputSize { width, height } => {
                    &&& r is Resize <==> dynamic_size && !(streams.out_w == width && streams.out_h
                        == height)
                    &&& r is Resize || r is Nothing
                    &&& r is Resize ==> r->width == width && r->height == height
                },
                CoordEvent::NewToplevel { identifier, app_id, title } => {
                    &&& r is Open <==> !streams.identifiers.contains(identifier@)
                    &&& r is Open || r is Nothing
                    &&& r is Open ==> r->Open_identifier == identifier@ && r->app_id == app_id@
                        && r->title == title@
                },
                CoordEvent::ToplevelClosed { identifier } => {
                    &&& r is Close && r->Close_identifier == identifier@
                    &&& r->place is Some <==> streams.identifiers.contains(identifier@)
                    &&& r->place matches Some(i) ==> {
                        &&& 0 <= i < streams.identifiers.len()
                        &&& streams.identifiers[i] == identifier@
                        &&& forall|j: int|
                            0 <= j < i ==> #[trigger] streams.identifiers[j] != identifier@
                    }
                },
            }
        }),
{
    match event {
        CoordEvent::NewToplevel { identifier, .. } => {
            law_spot(streams.identifiers, identifier@);
        },
        CoordEvent::ToplevelClosed { identifier } => {
            law_spot(streams.identifiers, identifier@);
        },
        _ => {},
    }
}

/// A window that joins is scaled to the size at which every window is then laid out.
pub proof fn law_cells_have_the_size_of_the_windows(
    streams: Composed,
    cell_w: u32,
    cell_h: u32,
    windows: Seq<Placement>,
    i: int,
)
    requires
        streams.has_cells(cell_w, cell_h),
        windows.len() == streams.identifiers.len(),
        laid_out(windows, streams.out_w, streams.out_h),
        0 <= i < windows.len(),
    ensures
        windows[i].width == cell_w,
        windows[i].height == cell_h,
{
    let n = windows.len() as int;
    let a = choose|grid: Grid| #[trigger]
        tiles(grid, n, streams.out_w, streams.out_h) && grid.cell_w == cell_w && grid.cell_h
            == cell_h;
    let b = choose|grid: Grid| #[trigger]
        tiles(grid, n, streams.out_w, streams.out_h) && forall|k: int|
            0 <= k < windows.len() ==> #[trigger] in_cell(windows[k], grid, k);
    law_grid_is_unique(a, b, n, streams.out_w, streams.out_h);
    assert(in_cell(windows[i], b, i));
}

} // verus!
