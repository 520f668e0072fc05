//! The picker: what is typed and clicked, and what that does.

use vstd::prelude::*;
use vstd::utf8::*;
use crate::config;
use crate::config::MAX_RECENTS;
use crate::frame;
use crate::frame::{result_start, Body, FrameView};
use crate::path;
use crate::path::ProjectPath;
use crate::rank;
use crate::rank::{rank, Ranked};
use crate::screen::Area;
use crate::text;

verus! {

/// Two clicks are a double click if less time than this, in nanoseconds, lies
/// between them.
pub const DOUBLE_CLICK: u64 = 500_000_000;

/// What reaches the picker from the keyboard and the mouse.
pub enum Input {
    Escape,
    Enter,
    Up,
    Down,
    Backspace,
    /// A character, and whether the control key was held.
    Char(char, bool),
    /// A press of the left button, in a column and a row, at a time in
    /// nanoseconds.
    Click(u16, u16, u64),
    Other,
}

/// What the picker does next: goes on, or ends with what was picked.
pub enum Step {
    Stay,
    Done(Option<ProjectPath>),
}

/// What a `Step` holds: `None` to go on.
pub open spec fn step_view(step: Step) -> Option<Option<Seq<u8>>> {
    match step {
        Step::Stay => None,
        Step::Done(None) => Some(None),
        Step::Done(Some(path)) => Some(Some(path@)),
    }
}

/// A click on a result.
pub struct ClickState {
    /// The result that was clicked.
    pub result: int,
    /// The folder that was shown there.
    pub path: Seq<u8>,
    /// The row of the screen that was clicked.
    pub row: int,
    /// When it was clicked.
    pub time: int,
    /// Whether nothing has been typed or clicked since.
    pub latest: bool,
}

/// The state of a picker.
pub struct PickerState {
    /// What was typed.
    pub query: Seq<char>,
    /// Which result is selected.
    pub selected: int,
    /// The folders that a scan found, once it is done.
    pub paths: Option<Seq<Seq<u8>>>,
    /// Whether a scan is under way.
    pub scanning: bool,
    /// The last click on a result.
    pub last_click: Option<ClickState>,
    /// The projects that were opened last.
    pub recent: Seq<Seq<u8>>,
    /// The results that are shown.
    pub results: Seq<(Seq<u8>, int)>,
}

/// A click on a result: which result it was, the folder that was shown there, the
/// row of the screen, the time, and whether nothing has been typed or clicked
/// since.
pub struct LastClick {
    pub result: usize,
    pub path: ProjectPath,
    pub row: u16,
    pub time: u64,
    pub latest: bool,
}

impl View for LastClick {
    type V = ClickState;

    open spec fn view(&self) -> ClickState {
        ClickState {
            result: self.result as int,
            path: self.path@,
            row: self.row as int,
            time: self.time as int,
            latest: self.latest,
        }
    }
}

/// A picker.
pub struct Picker {
    pub query: String,
    pub selected: usize,
    pub paths: Option<Vec<ProjectPath>>,
    pub scanning: bool,
    pub last_click: Option<LastClick>,
    pub recent: Vec<ProjectPath>,
    pub results: Vec<Ranked>,
}

impl View for Picker {
    type V = PickerState;

    open spec fn view(&self) -> PickerState {
        PickerState {
            query: self.query@,
            selected: self.selected as int,
            paths: config::setting_views(self.paths),
            scanning: self.scanning,
            last_click: match self.last_click {
                Some(click) => Some(click@),
                None => None,
            },
            recent: path::path_views(self.recent@),
            results: rank::ranked_views(self.results@),
        }
    }
}

impl PickerState {
    /// The state in which a picker opens, where `initial` was typed.
    pub open spec fn opened(recent: Seq<Seq<u8>>, initial: Seq<char>) -> PickerState {
        PickerState {
            query: initial,
            selected: 0,
            paths: None,
            scanning: false,
            last_click: None,
            recent,
            results: Seq::empty(),
        }
    }

    /// The state with a scan under way if one was wanted.
    pub open spec fn scan_begun(self) -> PickerState {
        PickerState { scanning: self.scanning || self.wants_scan(), ..self }
    }

    /// The state when a scan has found `found`.
    pub open spec fn scan_ended(self, found: Seq<Seq<u8>>) -> PickerState {
        PickerState { paths: Some(found), scanning: false, ..self }
    }

    /// The state with `results`, and the selection brought back to one of them.
    pub open spec fn refreshed(self, results: Seq<(Seq<u8>, int)>) -> PickerState {
        PickerState {
            results,
            selected: if self.selected < results.len() {
                self.selected
            } else if results.len() > 0 {
                results.len() - 1
            } else {
                0
            },
            ..self
        }
    }

    /// Whether the selected result is one of the results, or the first place if
    /// there are none.
    pub open spec fn selection_in_range(self) -> bool {
        &&& 0 <= self.selected
        &&& self.selected < self.results.len() || self.selected == 0
    }

    /// Whether a scan is wanted: there is something to search for, and no scan has
    /// been started.
    pub open spec fn wants_scan(self) -> bool {
        self.query.len() > 0 && self.paths is None && !self.scanning
    }

    /// The result that a click hits, if it hits one.
    pub open spec fn hit(self, list: Area, column: int, row: int) -> Option<int> {
        let start = frame::window_start(
            self.results.len() as int,
            self.selected,
            list.height as int,
        );
        if list.covers(column, row) && start + (row - list.y) < self.results.len() {
            Some(start + (row - list.y))
        } else {
            None
        }
    }

    /// Whether the last click on a result is less than a double click's time before
    /// `time`.
    pub open spec fn clicked_just_before(self, time: int) -> bool {
        self.last_click matches Some(click) && time - click.time < DOUBLE_CLICK
    }

    /// Whether a click is the second of a double click because it comes right after
    /// one in the same row of the list. That row may show another folder by now:
    /// selecting a result can move the list.
    pub open spec fn clicks_same_row_again(
        self,
        list: Area,
        column: int,
        row: int,
        time: int,
    ) -> bool {
        &&& self.clicked_just_before(time)
        &&& self.last_click->0.latest
        &&& self.last_click->0.row == row
        &&& list.covers(column, row)
    }

    /// Whether a click on `result` is the second of a double click because it hits
    /// the same result again.
    pub open spec fn clicks_same_result_again(self, result: int, time: int) -> bool {
        self.clicked_just_before(time) && self.last_click->0.result == result
    }

    /// The same state, with something typed or clicked after the last click on a
    /// result.
    pub open spec fn moved_on(self) -> PickerState {
        PickerState {
            last_click: match self.last_click {
                Some(click) => Some(ClickState { latest: false, ..click }),
                None => None,
            },
            ..self
        }
    }

    /// The state after `input`, and what was picked if that ends it.
    pub open spec fn after(self, input: Input, list: Area) -> (
        PickerState,
        Option<Option<Seq<u8>>>,
    ) {
        match input {
            Input::Escape => (self, Some(None)),
            Input::Enter => (
                self,
                Some(
                    if self.selected < self.results.len() {
                        Some(self.results[self.selected].0)
                    } else {
                        None
                    },
                ),
            ),
            Input::Up => (
                PickerState {
                    selected: if self.selected > 0 {
                        self.selected - 1
                    } else {
                        0
                    },
                    ..self.moved_on()
                },
                None,
            ),
            Input::Down => (
                PickerState {
                    selected: if self.selected + 1 < self.results.len() {
                        self.selected + 1
                    } else if self.results.len() > 0 {
                        self.results.len() - 1
                    } else {
                        0
                    },
                    ..self.moved_on()
                },
                None,
            ),
            Input::Backspace => (
                PickerState {
                    query: if self.query.len() > 0 {
                        self.query.drop_last()
                    } else {
                        self.query
                    },
                    ..self.moved_on()
                },
                None,
            ),
            Input::Char(c, control) => if c == 'c' && control {
                (self, Some(None))
            } else {
                (PickerState { query: self.query.push(c), ..self.moved_on() }, None)
            },
            Input::Click(column, row, time) => if self.clicks_same_row_again(
                list,
                column as int,
                row as int,
                time as int,
            ) {
                (self, Some(Some(self.last_click->0.path)))
            } else {
                match self.hit(list, column as int, row as int) {
                    None => (self.moved_on(), None),
                    Some(result) => if self.clicks_same_result_again(result, time as int) {
                        (self, Some(Some(self.results[result].0)))
                    } else {
                        (
                            PickerState {
                                selected: result,
                                last_click: Some(
                                    ClickState {
                                        result,
                                        path: self.results[result].0,
                                        row: row as int,
                                        time: time as int,
                                        latest: true,
                                    },
                                ),
                                ..self
                            },
                            None,
                        )
                    },
                }
            },
            Input::Other => (self, None),
        }
    }

    /// Whether `results` are the results for what was typed: the projects that were
    /// opened last if nothing was, else the folders that match, the best first.
    pub open spec fn are_results(self, results: Seq<(Seq<u8>, int)>) -> bool {
        if self.query.len() == 0 {
            results == config::at_most(self.recent, MAX_RECENTS as int).map_values(
                |p: Seq<u8>| (p, 0int),
            )
        } else {
            rank::is_ranked(results, self.searched(), rank::query_score(self.query))
        }
    }

    /// The folders that are searched: those that a scan found, none before it is
    /// done.
    pub open spec fn searched(self) -> Seq<Seq<u8>> {
        match self.paths {
            Some(paths) => paths,
            None => Seq::empty(),
        }
    }

    /// Whether the folder at `path` is on offer: one of the projects that were opened
    /// last if nothing was typed, else a folder that was found and matches.
    pub open spec fn offers(self, path: Seq<u8>) -> bool {
        if self.query.len() == 0 {
            config::at_most(self.recent, MAX_RECENTS as int).contains(path)
        } else {
            self.searched().contains(path) && rank::query_score(self.query)(path) is Some
        }
    }

    /// Whether the folder of the last click, as long as nothing was typed or clicked
    /// since, is on offer.
    pub open spec fn clicked_on_offer(self) -> bool {
        self.last_click matches Some(click) ==> click.latest ==> self.offers(click.path)
    }

    /// Whether all that is searched, and what was typed, is ASCII.
    pub open spec fn all_ascii(self) -> bool {
        &&& is_ascii_chars(self.query)
        &&& forall|i: int|
            0 <= i < self.searched().len() ==> text::ascii_bytes(#[trigger] self.searched()[i])
    }
}

/// The projects of `recent` as results, no more than are kept.
pub fn recent_results(recent: &[ProjectPath]) -> (r: Vec<Ranked>)
    ensures
        rank::ranked_views(r@) == config::at_most(
            path::path_views(recent@),
            MAX_RECENTS as int,
        ).map_values(|p: Seq<u8>| (p, 0int)),
{
    let n: usize = if recent.len() < MAX_RECENTS {
        recent.len()
    } else {
        MAX_RECENTS
    };
    let mut r: Vec<Ranked> = Vec::new();
    let mut i: usize = 0;
    while i < n
        invariant
            i <= n <= recent.len(),
            r.len() == i,
            forall|k: int|
                0 <= k < i ==> (#[trigger] r@[k]).0@ == recent@[k]@ && r@[k].1 == 0,
        decreases n - i,
    {
        r.push((recent[i].clone(), 0));
        i += 1;
    }
    assert(rank::ranked_views(r@) =~= config::at_most(
        path::path_views(recent@),
        MAX_RECENTS as int,
    ).map_values(|p: Seq<u8>| (p, 0int)));
    r
}

impl Picker {
    /// A picker in which `initial` was typed.
    pub fn new(recent: Vec<ProjectPath>, initial: &str) -> (r: Self)
        ensures
            r@ == PickerState::opened(path::path_views(recent@), initial@),
            r@.selection_in_range(),
            r@.clicked_on_offer(),
    {
        let r = Picker {
            query: initial.to_owned(),
            selected: 0,
            paths: None,
            scanning: false,
            last_click: None,
            recent,
            results: Vec::new(),
        };
        assert(r@.results =~= Seq::empty());
        r
    }

    /// Whether a scan is to be started now.
    pub fn begin_scan(&mut self) -> (r: bool)
        ensures
            r == old(self)@.wants_scan(),
            final(self)@ == old(self)@.scan_begun(),
            old(self)@.clicked_on_offer() ==> final(self)@.clicked_on_offer(),
    {
        let wanted = !self.query.as_str().is_empty() && self.paths.is_none() && !self.scanning;
        if wanted {
            self.scanning = true;
        }
        wanted
    }

    /// Takes in what the scan found.
    pub fn scan_done(&mut self, found: Vec<ProjectPath>)
        ensures
            final(self)@ == old(self)@.scan_ended(path::path_views(found@)),
            old(self)@.clicked_on_offer() && old(self)@.paths is None
                ==> final(self)@.clicked_on_offer(),
    {
        self.paths = Some(found);
        self.scanning = false;
    }

    /// Brings the results up to date, and the selection back to one of them.
    pub fn refresh(&mut self)
        ensures
            old(self)@.are_results(final(self)@.results),
            old(self)@.query.len() > 0 ==> rank::plain_where_ascii(
                old(self)@.searched(),
                old(self)@.query,
            ),
            old(self)@.query.len() > 0 && old(self)@.all_ascii() ==> rank::is_ranked(
                final(self)@.results,
                old(self)@.searched(),
                rank::ascii_query_score(old(self)@.query),
            ),
            final(self)@ == old(self)@.refreshed(final(self)@.results),
            final(self)@.selection_in_range(),
            final(self)@.are_results(final(self)@.results),
            old(self)@.clicked_on_offer() ==> final(self)@.clicked_on_offer(),
    {
        let results = if self.query.as_str().is_empty() {
            recent_results(self.recent.as_slice())
        } else {
            match &self.paths {
                Some(paths) => {
                    proof {
                        assert forall|i: int|
                            old(self)@.all_ascii() && 0 <= i
                                < paths@.len() implies text::ascii_bytes(
                            #[trigger] paths@[i]@,
                        ) by {
                            assert(old(self)@.searched()[i] == paths@[i]@);
                        }
                    }
                    rank(paths.as_slice(), self.query.as_str())
                },
                None => {
                    let none: Vec<ProjectPath> = Vec::new();
                    assert(path::path_views(none@) =~= Seq::<Seq<u8>>::empty());
                    rank(none.as_slice(), self.query.as_str())
                },
            }
        };
        let total: usize = results.len();
        assert(rank::ranked_views(results@).len() == total);
        if self.selected >= total {
            self.selected = if total > 0 {
                total - 1
            } else {
                0
            };
        }
        self.results = results;
    }

    /// Notes that something was typed or clicked after the last click on a result.
    fn move_on(&mut self)
        ensures
            final(self)@ == old(self)@.moved_on(),
    {
        if let Some(click) = self.last_click.take() {
            self.last_click = Some(LastClick { latest: false, ..click });
        }
    }

    /// Selects a result or opens one, for a press of the left button, where the
    /// results are shown in `list`.
    fn click(&mut self, column: u16, row: u16, time: u64, list: Area) -> (r: Step)
        requires
            old(self)@.selection_in_range(),
        ensures
            final(self)@ == old(self)@.after(Input::Click(column, row, time), list).0,
            step_view(r) == old(self)@.after(Input::Click(column, row, time), list).1,
            final(self)@.selection_in_range(),
    {
        let total: usize = self.results.len();
        assert(self@.results.len() == total);
        if !list.contains(column, row) {
            self.move_on();
            return Step::Stay;
        }
        let mut previous: Option<usize> = None;
        if let Some(click) = &self.last_click {
            if time.saturating_sub(click.time) < DOUBLE_CLICK {
                if click.latest && click.row == row {
                    return Step::Done(Some(click.path.clone()));
                }
                previous = Some(click.result);
            }
        }
        let start: usize = result_start(total, self.selected, list.height as usize);
        let down: usize = (row - list.y) as usize;
        if down >= total - start {
            self.move_on();
            return Step::Stay;
        }
        let clicked: usize = start + down;
        assert(self@.results[clicked as int].0 == self.results@[clicked as int].0@);
        let path = self.results[clicked].0.clone();
        if let Some(result) = previous {
            if result == clicked {
                return Step::Done(Some(path));
            }
        }
        self.selected = clicked;
        self.last_click = Some(LastClick { result: clicked, path, row, time, latest: true });
        Step::Stay
    }

    /// Does what `input` asks for, where the results are shown in `list`.
    pub fn handle(&mut self, input: Input, list: Area) -> (r: Step)
        requires
            old(self)@.selection_in_range(),
        ensures
            final(self)@ == old(self)@.after(input, list).0,
            step_view(r) == old(self)@.after(input, list).1,
            final(self)@.selection_in_range(),
            old(self)@.are_results(old(self)@.results) && old(self)@.clicked_on_offer() ==> {
                &&& final(self)@.clicked_on_offer()
                &&& step_view(r) matches Some(Some(path)) ==> old(self)@.offers(path)
            },
    {
        proof {
            if self@.are_results(self@.results) && self@.clicked_on_offer() {
                what_is_picked_was_on_offer(self@, input, list);
            }
        }
        let total: usize = self.results.len();
        assert(self@.results.len() == total);
        match input {
            Input::Escape => Step::Done(None),
            Input::Enter => if self.selected < total {
                assert(self@.results[self.selected as int].0 == self.results@[self.selected as int].0@);
                Step::Done(Some(self.results[self.selected].0.clone()))
            } else {
                Step::Done(None)
            },
            Input::Up => {
                self.move_on();
                self.selected = self.selected.saturating_sub(1);
                Step::Stay
            },
            Input::Down => {
                self.move_on();
                let last: usize = total.saturating_sub(1);
                if self.selected < last {
                    self.selected = self.selected + 1;
                } else {
                    self.selected = last;
                }
                Step::Stay
            },
            Input::Backspace => {
                self.move_on();
                let _ = self.query.pop();
                Step::Stay
            },
            Input::Char(c, control) => if c == 'c' && control {
                Step::Done(None)
            } else {
                self.move_on();
                self.query.push(c);
                Step::Stay
            },
            Input::Click(column, row, time) => self.click(column, row, time, list),
            Input::Other => Step::Stay,
        }
    }
}

/// Deleting the character that was typed last brings back the state before it was
/// typed, but that a click before it is no longer the latest input.
pub proof fn backspace_undoes_typing(s: PickerState, c: char, control: bool, list: Area)
    requires
        !(c == 'c' && control),
    ensures
        s.after(Input::Char(c, control), list).0.after(Input::Backspace, list).0 == s.moved_on(),
{
    assert(s.query.push(c).drop_last() =~= s.query);
}

/// Going up undoes going down, unless the last result was selected; and going down
/// undoes going up, unless the first was; but that a click before it is no longer
/// the latest input.
pub proof fn up_and_down_undo_each_other(s: PickerState, list: Area)
    requires
        s.selection_in_range(),
    ensures
        s.selected + 1 < s.results.len() ==> s.after(Input::Down, list).0.after(
            Input::Up,
            list,
        ).0 == s.moved_on(),
        0 < s.selected ==> s.after(Input::Up, list).0.after(Input::Down, list).0 == s.moved_on(),
{
}

/// A click on a result selects it, and a second click in the same row within half a
/// second opens the folder that the row showed at the first one, whatever became of
/// the list and the results in between, as long as nothing else was typed or
/// clicked.
pub proof fn double_click_opens(
    s: PickerState,
    t: PickerState,
    list: Area,
    column: u16,
    second_column: u16,
    row: u16,
    first: u64,
    second: u64,
    result: int,
)
    requires
        s.hit(list, column as int, row as int) == Some(result),
        s.after(Input::Click(column, row, first), list).1 is None,
        t.last_click == s.after(Input::Click(column, row, first), list).0.last_click,
        list.covers(second_column as int, row as int),
        second - first < DOUBLE_CLICK,
    ensures
        s.after(Input::Click(column, row, first), list).0.selected == result,
        t.after(Input::Click(second_column, row, second), list).1 == Some(
            Some(s.results[result].0),
        ),
{
}

/// Two clicks on the same result within half a second open it, also where it has
/// moved to another row or something was typed in between.
pub proof fn clicking_a_result_twice_opens_it(
    s: PickerState,
    list: Area,
    column: u16,
    row: u16,
    second: u64,
    result: int,
)
    requires
        s.hit(list, column as int, row as int) == Some(result),
        s.clicks_same_result_again(result, second as int),
        !s.clicks_same_row_again(list, column as int, row as int, second as int),
    ensures
        s.after(Input::Click(column, row, second), list).1 == Some(Some(s.results[result].0)),
{
}

/// A click hits the folder that is shown in the row that was clicked.
pub proof fn click_hits_what_is_shown(
    s: PickerState,
    view: FrameView,
    width: int,
    column: int,
    row: int,
    result: int,
)
    requires
        s.selection_in_range(),
        frame::frame_shows(
            view,
            view.sections,
            width,
            s.query,
            s.results,
            s.selected,
            s.scanning,
        ),
        s.hit(view.sections.list, column, row) == Some(result),
    ensures
        view.body matches Body::Rows(rows) && {
            let k = row - view.sections.list.y;
            &&& 0 <= k < rows@.len()
            &&& frame::row_shows(rows@[k], s.results[result].0, result == s.selected)
        },
{
    let rows = view.body->Rows_0;
    let k = row - view.sections.list.y;
    assert(frame::row_shows(rows@[k], s.results[result].0, result == s.selected));
}

/// What is on offer is what the results hold.
pub proof fn results_are_on_offer(s: PickerState, results: Seq<(Seq<u8>, int)>, path: Seq<u8>)
    requires
        s.are_results(results),
    ensures
        s.offers(path) <==> exists|n: int|
            0 <= n < results.len() && (#[trigger] results[n]).0 == path,
{
    if s.query.len() == 0 {
        let kept = config::at_most(s.recent, MAX_RECENTS as int);
        if kept.contains(path) {
            let n = choose|n: int| 0 <= n < kept.len() && kept[n] == path;
            assert(results[n].0 == path);
        }
        if exists|n: int| 0 <= n < results.len() && (#[trigger] results[n]).0 == path {
            let n = choose|n: int| 0 <= n < results.len() && (#[trigger] results[n]).0 == path;
            assert(kept[n] == path);
        }
    } else {
        rank::ranking_holds_all_matches(
            results,
            s.searched(),
            rank::query_score(s.query),
            path,
        );
    }
}

/// What is picked was on offer, and so is what was clicked last: among the projects
/// that were opened last if nothing was typed, else among the folders that were found
/// and match.
pub proof fn what_is_picked_was_on_offer(s: PickerState, input: Input, list: Area)
    requires
        s.selection_in_range(),
        s.are_results(s.results),
        s.clicked_on_offer(),
    ensures
        s.after(input, list).0.clicked_on_offer(),
        s.after(input, list).1 matches Some(Some(path)) ==> s.offers(path),
{
    assert forall|n: int| 0 <= n < s.results.len() implies s.offers(
        (#[trigger] s.results[n]).0,
    ) by {
        results_are_on_offer(s, s.results, s.results[n].0);
    }
}

/// What was clicked last stays on offer while a scan begins, ends, and the results
/// are brought up to date.
pub proof fn scan_keeps_what_was_clicked_on_offer(s: PickerState, t: PickerState)
    requires
        s.clicked_on_offer(),
        t.query == s.query,
        t.recent == s.recent,
        t.last_click == s.last_click,
        t.paths == s.paths || s.paths is None,
    ensures
        t.clicked_on_offer(),
{
}

/// Once a scan has been started, no other is: neither while it is under way nor
/// when it is done, whatever is typed.
pub proof fn one_scan_is_enough(s: PickerState, input: Input, list: Area)
    requires
        s.scanning || s.paths is Some,
    ensures
        !s.wants_scan(),
        s.after(input, list).0.scanning || s.after(input, list).0.paths is Some,
{
}

/// Enter opens the selected result, whichever place from the first to the last is
/// selected; only where there are no results it ends with nothing.
pub proof fn enter_opens_the_selected_result(s: PickerState, list: Area)
    requires
        s.selection_in_range(),
    ensures
        s.results.len() > 0 ==> 0 <= s.selected < s.results.len() && s.after(Input::Enter, list).1
            == Some(Some(s.results[s.selected].0)),
        s.results.len() == 0 ==> s.after(Input::Enter, list).1 == Some(None::<Seq<u8>>),
        s.after(Input::Enter, list).0 == s,
{
}

/// Escape ends with nothing, and so does `c` with the control key, whatever is selected.
pub proof fn escape_opens_nothing(s: PickerState, list: Area)
    ensures
        s.after(Input::Escape, list).1 == Some(None::<Seq<u8>>),
        s.after(Input::Char('c', true), list).1 == Some(None::<Seq<u8>>),
{
}

/// Up and down go one result up or down and stop at the first and the last; they open
/// nothing and leave what was typed.
pub proof fn arrows_go_one_result_on(s: PickerState, list: Area)
    requires
        s.selection_in_range(),
    ensures
        s.after(Input::Up, list).1 is None,
        s.after(Input::Down, list).1 is None,
        s.after(Input::Up, list).0.query == s.query,
        s.after(Input::Down, list).0.query == s.query,
        s.selected > 0 ==> s.after(Input::Up, list).0.selected == s.selected - 1,
        s.selected == 0 ==> s.after(Input::Up, list).0.selected == 0,
        s.selected < s.results.len() - 1 ==> s.after(Input::Down, list).0.selected == s.selected + 1,
        s.selected >= s.results.len() - 1 ==> s.after(Input::Down, list).0.selected == s.selected,
{
}

/// A character that is typed is added at the end of the query, also a `c` without the
/// control key and any other character with it; it opens nothing and leaves the
/// selection.
pub proof fn typing_adds_the_character(s: PickerState, c: char, control: bool, list: Area)
    requires
        c != 'c' || !control,
    ensures
        s.after(Input::Char(c, control), list).1 is None,
        s.after(Input::Char(c, control), list).0.query == s.query + seq![c],
        s.after(Input::Char(c, control), list).0.selected == s.selected,
{
    assert(s.query.push(c) =~= s.query + seq![c]);
}

/// Backspace takes the last character off the query and nothing else; it opens nothing
/// and leaves the selection.
pub proof fn backspace_takes_one_character(s: PickerState, list: Area)
    ensures
        s.after(Input::Backspace, list).1 is None,
        s.after(Input::Backspace, list).0.selected == s.selected,
        s.query.len() == 0 ==> s.after(Input::Backspace, list).0.query.len() == 0,
        s.query.len() > 0 ==> s.after(Input::Backspace, list).0.query.push(
            s.query[s.query.len() - 1],
        ) == s.query,
{
    if s.query.len() > 0 {
        assert(s.query.drop_last().push(s.query[s.query.len() - 1]) =~= s.query);
    }
}

/// What is neither a key nor a click that the picker knows changes nothing.
pub proof fn other_input_changes_nothing(s: PickerState, list: Area)
    ensures
        s.after(Input::Other, list).0 == s,
        s.after(Input::Other, list).1 is None,
{
}

/// No input changes what was found, what was opened last, the results, or whether a
/// scan is under way; and none but typing changes the query.
pub proof fn input_leaves_what_was_found(s: PickerState, input: Input, list: Area)
    ensures
        s.after(input, list).0.paths == s.paths,
        s.after(input, list).0.recent == s.recent,
        s.after(input, list).0.results == s.results,
        s.after(input, list).0.scanning == s.scanning,
        input is Char || input is Backspace || s.after(input, list).0.query == s.query,
        s.after(input, list).1 is Some ==> input is Escape || input is Enter || input is Char
            || input is Click,
{
}

/// Row by row, a click in the list hits the results from the first that is shown on;
/// below the last result, and outside the list, it hits nothing.
pub proof fn rows_are_hit_in_order(s: PickerState, list: Area, column: int, k: int)
    requires
        0 <= k < list.height,
        list.x <= column < list.x + list.width,
        list.x + list.width <= 65_535,
        list.y + list.height <= 65_535,
    ensures
        ({
            let start = frame::window_start(
                s.results.len() as int,
                s.selected,
                list.height as int,
            );
            &&& start + k < s.results.len() ==> s.hit(list, column, list.y + k) == Some(start + k)
            &&& start + k >= s.results.len() ==> s.hit(list, column, list.y + k) is None
        }),
        s.hit(list, column, list.y + list.height) is None,
        s.hit(list, column, list.y - 1) is None,
        s.hit(list, list.x + list.width, list.y + k) is None,
        s.hit(list, list.x - 1, list.y + k) is None,
{
}

/// A click on a result selects it, unless it is the second of a double click; a click
/// that hits none selects none and opens none, unless it is that.
pub proof fn first_click_selects(
    s: PickerState,
    list: Area,
    column: u16,
    row: u16,
    time: u64,
    result: int,
)
    requires
        s.last_click matches Some(click) ==> time - click.time >= 500_000_000,
    ensures
        s.after(Input::Click(column, row, time), list).1 is None,
        s.hit(list, column as int, row as int) == Some(result) ==> {
            let t = s.after(Input::Click(column, row, time), list).0;
            &&& t.selected == result
            &&& t.last_click matches Some(click) && click.result == result && click.path
                == s.results[result].0 && click.row == row && click.time == time && click.latest
        },
        s.hit(list, column as int, row as int) is None ==> s.after(
            Input::Click(column, row, time),
            list,
        ).0.selected == s.selected,
{
}

/// A second click less than half a second, 500 million nanoseconds, after the first
/// opens what the first hit if it is the next input and in the same row of the list,
/// and else opens the result that it hits if that is the same one; any other click on a
/// result only selects it.
pub proof fn second_click_in_time_opens(
    s: PickerState,
    list: Area,
    column: u16,
    row: u16,
    time: u64,
    click: ClickState,
    result: int,
)
    requires
        s.last_click == Some(click),
        time - click.time < 500_000_000,
        list.covers(column as int, row as int),
    ensures
        click.latest && click.row == row ==> s.after(Input::Click(column, row, time), list).1
            == Some(Some(click.path)),
        !(click.latest && click.row == row) && s.hit(list, column as int, row as int) == Some(
            result,
        ) && click.result == result ==> s.after(Input::Click(column, row, time), list).1 == Some(
            Some(s.results[result].0),
        ),
        !(click.latest && click.row == row) && s.hit(list, column as int, row as int) == Some(
            result,
        ) && click.result != result ==> s.after(Input::Click(column, row, time), list).1 is None
            && s.after(Input::Click(column, row, time), list).0.selected == result,
        !(click.latest && click.row == row) && s.hit(list, column as int, row as int) is None
            ==> s.after(Input::Click(column, row, time), list).1 is None && s.after(
            Input::Click(column, row, time),
            list,
        ).0.selected == s.selected,
{
}

/// A click outside the list opens and selects nothing.
pub proof fn click_outside_the_list_does_nothing(
    s: PickerState,
    list: Area,
    column: u16,
    row: u16,
    time: u64,
)
    requires
        column < list.x || row < list.y || column >= list.x + list.width || row >= list.y
            + list.height,
    ensures
        s.after(Input::Click(column, row, time), list).1 is None,
        s.after(Input::Click(column, row, time), list).0.selected == s.selected,
        s.after(Input::Click(column, row, time), list).0.query == s.query,
{
}

/// Whatever is typed, and a click that hits nothing, parts the clicks before and after
/// it: the last click stays noted, but is no longer the latest input. What is no input
/// to the picker does not.
pub proof fn typing_parts_clicks(s: PickerState, input: Input, list: Area, click: ClickState)
    requires
        s.last_click == Some(click),
        input is Up || input is Down || input is Backspace || (input matches Input::Char(
            c,
            control,
        ) && (c != 'c' || !control)),
    ensures
        s.after(input, list).0.last_click matches Some(after) && !after.latest && after.result
            == click.result && after.path == click.path && after.row == click.row && after.time
            == click.time,
{
}

/// A scan is wanted as soon as something is typed and none has been started; never
/// while nothing is typed, while one is under way, or when one is done.
pub proof fn scan_is_wanted_once_something_is_typed(s: PickerState)
    ensures
        s.query.len() > 0 && s.paths is None && !s.scanning ==> s.wants_scan(),
        s.query.len() == 0 ==> !s.wants_scan(),
        s.paths is Some ==> !s.wants_scan(),
        s.scanning ==> !s.wants_scan(),
{
}

/// While nothing is typed the results are the projects that were opened last, the first
/// five of them, as they stand, each with the score zero.
pub proof fn nothing_typed_shows_the_first_five(s: PickerState, results: Seq<(Seq<u8>, int)>)
    requires
        s.are_results(results),
        s.query.len() == 0,
    ensures
        s.recent.len() <= 5 ==> results.len() == s.recent.len(),
        s.recent.len() > 5 ==> results.len() == 5,
        forall|i: int| 0 <= i < results.len() ==> #[trigger] results[i] == (s.recent[i], 0int),
{
}

/// Once something is typed the results are the ranking of what the scan found; before
/// the scan is done there are none.
pub proof fn typing_shows_the_ranking(
    s: PickerState,
    results: Seq<(Seq<u8>, int)>,
    paths: Seq<Seq<u8>>,
)
    requires
        s.are_results(results),
        s.query.len() > 0,
    ensures
        s.paths == Some(paths) ==> rank::is_ranked(results, paths, rank::query_score(s.query)),
        s.paths is None ==> results.len() == 0,
{
    if s.paths is None {
        rank::ranking_is_by_score(results, s.searched(), rank::query_score(s.query));
    }
}

/// The selection is in range if it is the place of a result, or the first place where
/// there are none.
pub proof fn selection_is_a_result(s: PickerState)
    ensures
        s.results.len() > 0 ==> (s.selection_in_range() <==> 0 <= s.selected < s.results.len()),
        s.results.len() == 0 ==> (s.selection_in_range() <==> s.selected == 0),
{
}

/// A step either goes on, or ends with nothing, or ends with the bytes of a path.
pub proof fn steps_are_told_apart(path: ProjectPath)
    ensures
        step_view(Step::Stay) is None,
        step_view(Step::Done(None)) == Some(None::<Seq<u8>>),
        step_view(Step::Done(Some(path))) == Some(Some(path.bytes@)),
{
}

/// The state of a picker is what its fields hold.
pub proof fn state_is_what_the_fields_hold(p: Picker)
    ensures
        p@.query == p.query@,
        p@.selected == p.selected,
        p@.scanning == p.scanning,
        p@.paths is Some <==> p.paths is Some,
        p.paths is Some ==> p@.paths->0 == path::path_views(p.paths->0@),
        p@.recent == path::path_views(p.recent@),
        p@.results == rank::ranked_views(p.results@),
        p@.last_click is Some <==> p.last_click is Some,
        p.last_click is Some ==> {
            let (click, seen) = (p.last_click->0, p@.last_click->0);
            &&& seen.result == click.result
            &&& seen.path == click.path.bytes@
            &&& seen.row == click.row
            &&& seen.time == click.time
            &&& seen.latest == click.latest
        },
{
}

/// What was clicked last is on offer as long as that was the latest input.
pub proof fn latest_click_is_on_offer(s: PickerState)
    ensures
        s.clicked_on_offer() <==> (s.last_click is Some && s.last_click->0.latest ==> s.offers(
            s.last_click->0.path,
        )),
{
}

/// A picker opens with what was typed already, the first place selected, nothing found,
/// nothing clicked, and no scan under way.
pub proof fn picker_opens_with_what_was_typed(recent: Seq<Seq<u8>>, initial: Seq<char>)
    ensures
        ({
            let s = PickerState::opened(recent, initial);
            &&& s.query == initial
            &&& s.recent == recent
            &&& s.selected == 0
            &&& s.paths is None
            &&& !s.scanning
            &&& s.last_click is None
            &&& s.wants_scan() <==> initial.len() > 0
        }),
{
}

/// Once a scan was wanted it is under way until it ends; then what it found, all of it
/// and in that order, is what is searched. Nothing else changes on the way.
pub proof fn scan_begins_and_ends(s: PickerState, found: Seq<Seq<u8>>)
    ensures
        s.wants_scan() ==> s.scan_begun().scanning,
        !s.wants_scan() ==> s.scan_begun().scanning == s.scanning,
        s.scan_begun().paths == s.paths,
        !s.scan_ended(found).scanning,
        s.scan_ended(found).paths == Some(found),
        s.scan_ended(found).searched() == found,
        s.paths is None ==> s.searched().len() == 0,
        forall|t: PickerState| #![trigger t.query]
            t == s.scan_begun() || t == s.scan_ended(found) ==> t.query == s.query && t.selected
                == s.selected && t.recent == s.recent && t.results == s.results && t.last_click
                == s.last_click,
{
}

/// New results leave the selection where it is as long as there is a result, and else
/// move it to the last one; what was typed, found and clicked stays.
pub proof fn new_results_keep_the_selection(s: PickerState, results: Seq<(Seq<u8>, int)>)
    requires
        0 <= s.selected,
    ensures
        ({
            let t = s.refreshed(results);
            &&& t.results == results
            &&& s.selected < results.len() ==> t.selected == s.selected
            &&& 0 < results.len() <= s.selected ==> t.selected == results.len() - 1
            &&& results.len() == 0 ==> t.selected == 0
            &&& t.query == s.query
            &&& t.paths == s.paths
            &&& t.scanning == s.scanning
            &&& t.recent == s.recent
            &&& t.last_click == s.last_click
        }),
{
}

} // verus!
