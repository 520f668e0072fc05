//! What the picker shows.

use vstd::prelude::*;
use vstd::string::*;
use vstd::utf8::*;
use crate::path;
use crate::path::ProjectPath;
use crate::rank;
use crate::rank::Ranked;
use crate::screen;
use crate::screen::{columns, split_rows, within_borders, Area, Sections};
use crate::text;
use crate::text::decimal_text;

verus! {

/// The first result that is shown: none is skipped while all fit; else the list is
/// as far down as it must be for the selected one to be the last that is shown,
/// but no further than the end.
pub open spec fn window_start(total: int, selected: int, visible: int) -> int {
    if visible == 0 || total <= visible {
        0
    } else {
        screen::smaller(screen::positive(selected - (visible - 1)), total - visible)
    }
}

/// The first result that is shown.
pub fn result_start(total: usize, selected: usize, visible: usize) -> (r: usize)
    ensures
        r == window_start(total as int, selected as int, visible as int),
{
    if visible == 0 || total <= visible {
        0
    } else {
        let down: usize = selected.saturating_sub(visible - 1);
        if down < total - visible {
            down
        } else {
            total - visible
        }
    }
}

/// The selected result is always among those shown, and no row stays empty while
/// there are results to fill it.
pub proof fn selected_result_is_shown(total: int, selected: int, visible: int)
    requires
        0 < visible,
        0 <= selected < total,
    ensures
        window_start(total, selected, visible) <= selected < window_start(total, selected, visible)
            + visible,
        visible <= total ==> window_start(total, selected, visible) + visible <= total,
        total <= visible ==> window_start(total, selected, visible) == 0,
{
}

/// How high the picker is, given the height of the terminal, if it is known.
pub open spec fn picker_height(rows: Option<u16>) -> int {
    match rows {
        None => 8,
        Some(n) => if n < 7 {
            7
        } else if n > 12 {
            12
        } else {
            n as int
        },
    }
}

/// How high the picker is, given the height of the terminal, if it is known.
pub fn viewport_height(rows: Option<u16>) -> (r: u16)
    ensures
        r == picker_height(rows),
{
    match rows {
        None => 8,
        Some(n) => if n < 7 {
            7
        } else if n > 12 {
            12
        } else {
            n
        },
    }
}

/// One result as it is shown.
pub struct Row {
    pub selected: bool,
    pub marker: String,
    pub name: String,
    /// What stands between the name and the path.
    pub gap: String,
    pub path: String,
}

/// What the list holds: results, or a word on why there are none.
pub enum Body {
    Message(String),
    Rows(Vec<Row>),
}

/// All that the picker shows, and where.
pub struct FrameView {
    pub sections: Sections,
    /// What stands in the border above.
    pub title: String,
    /// What stands in the border below.
    pub caption: String,
    /// What stands before the query.
    pub label: String,
    /// What stands behind the query.
    pub closing: String,
    /// What the keys and the mouse do.
    pub hint: String,
    pub cursor_x: u16,
    pub cursor_y: u16,
    pub body: Body,
    pub footer: String,
}

/// What stands before the query.
pub open spec fn label_text(query: Seq<char>) -> Seq<char> {
    if query.len() == 0 {
        "Recent projects ["@
    } else {
        "Search projects ["@
    }
}

/// The word on why the list is empty.
pub open spec fn message_text(query: Seq<char>, scanning: bool) -> Seq<char> {
    if scanning {
        "Scanning folders..."@
    } else if query.len() == 0 {
        "Type to search folders"@
    } else {
        "No matching folders"@
    }
}

/// The line below the list: which results are shown, and of how many.
pub open spec fn footer_text(start: int, end: int, total: int) -> Seq<char> {
    if total == 0 {
        "No selection"@
    } else {
        text::decimal((start + 1) as nat) + "-"@ + text::decimal(end as nat) + " of "@
            + text::decimal(total as nat)
    }
}

/// Whether `shown` is how `bytes` read as text.
pub open spec fn reads_as(shown: Seq<char>, bytes: Seq<u8>) -> bool {
    &&& shown == text::lossy_text(bytes)
    &&& valid_utf8(bytes) ==> shown == decode_utf8(bytes)
}

/// Whether `row` shows the folder at `path`.
pub open spec fn row_shows(row: Row, path: Seq<u8>, selected: bool) -> bool {
    &&& row.selected == selected
    &&& row.marker@ == if selected {
        "> "@
    } else {
        "  "@
    }
    &&& match path::file_name(path) {
        Some(name) => reads_as(row.name@, name),
        None => row.name@ == Seq::<char>::empty(),
    }
    &&& row.gap@ == "  "@
    &&& reads_as(row.path@, path)
}

/// Whether `body` shows the results from `start` to `end`, or says why it shows
/// none.
pub open spec fn body_shows(
    body: Body,
    query: Seq<char>,
    results: Seq<(Seq<u8>, int)>,
    selected: int,
    scanning: bool,
    start: int,
    end: int,
) -> bool {
    if start == end {
        body matches Body::Message(message) && message@ == message_text(query, scanning)
    } else {
        body matches Body::Rows(rows) && {
            &&& rows@.len() == end - start
            &&& forall|k: int|
                0 <= k < end - start ==> row_shows(
                    #[trigger] rows@[k],
                    results[start + k].0,
                    start + k == selected,
                )
        }
    }
}

/// Whether `view` shows `results` for `query` in `sections`, where the line up to
/// the cursor takes `width` columns.
pub open spec fn frame_shows(
    view: FrameView,
    sections: Sections,
    width: int,
    query: Seq<char>,
    results: Seq<(Seq<u8>, int)>,
    selected: int,
    scanning: bool,
) -> bool {
    let total = results.len() as int;
    let visible = sections.list.height as int;
    let start = window_start(total, selected, visible);
    let end = screen::smaller(start + visible, total);
    &&& view.sections == sections
    &&& view.title@ == " WTFIS "@
    &&& view.caption@ == " local project finder "@
    &&& view.label@ == label_text(query)
    &&& view.closing@ == "]"@
    &&& view.hint@
        == "Up/Down navigate  Enter open  Esc cancel  Click select  Double-click open"@
    &&& view.cursor_x == screen::smaller(
        screen::saturated(sections.input.x + screen::saturated(width)),
        screen::positive(sections.input.right_edge() - 1),
    )
    &&& view.cursor_y == sections.input.y
    &&& body_shows(view.body, query, results, selected, scanning, start, end)
    &&& view.footer@ == footer_text(start, end, total)
}

/// What stands before the query.
pub fn input_label(query: &str) -> (r: String)
    ensures
        r@ == label_text(query@),
{
    if query.is_empty() {
        "Recent projects [".to_owned()
    } else {
        "Search projects [".to_owned()
    }
}

/// The folder at `path` as it is shown.
fn row_of(path: &ProjectPath, selected: bool) -> (r: Row)
    ensures
        row_shows(r, path@, selected),
{
    let name = match path.file_name() {
        Some(name) => text::to_text(name.as_slice()),
        None => String::new(),
    };
    let marker = if selected {
        "> ".to_owned()
    } else {
        "  ".to_owned()
    };
    Row { selected, marker, name, gap: "  ".to_owned(), path: path.display() }
}

/// The line below the list.
fn footer_line(start: usize, end: usize, total: usize) -> (r: String)
    requires
        total > 0 ==> start < usize::MAX,
    ensures
        r@ == footer_text(start as int, end as int, total as int),
{
    if total == 0 {
        return "No selection".to_owned();
    }
    let mut r = decimal_text(start + 1);
    r.append("-");
    r.append(decimal_text(end).as_str());
    r.append(" of ");
    r.append(decimal_text(total).as_str());
    r
}

/// What the picker shows in `sections`, where the line up to the cursor takes
/// `width` columns.
pub fn compose_frame(
    sections: Sections,
    width: usize,
    query: &str,
    results: &[Ranked],
    selected: usize,
    scanning: bool,
) -> (r: FrameView)
    ensures
        frame_shows(
            r,
            sections,
            width as int,
            query@,
            rank::ranked_views(results@),
            selected as int,
            scanning,
        ),
{
    let ghost views = rank::ranked_views(results@);
    let total: usize = results.len();
    let visible: usize = sections.list.height as usize;
    let start: usize = result_start(total, selected, visible);
    let end: usize = if total - start < visible {
        total
    } else {
        start + visible
    };
    let offset: u16 = if width < u16::MAX as usize {
        width as u16
    } else {
        u16::MAX
    };
    let at: u16 = sections.input.x.saturating_add(offset);
    let edge: u16 = sections.input.right().saturating_sub(1);
    let cursor_x: u16 = if at < edge {
        at
    } else {
        edge
    };
    let body = if start == end {
        Body::Message(
            if scanning {
                "Scanning folders...".to_owned()
            } else if query.is_empty() {
                "Type to search folders".to_owned()
            } else {
                "No matching folders".to_owned()
            },
        )
    } else {
        let mut rows: Vec<Row> = Vec::new();
        let mut i: usize = start;
        while i < end
            invariant
                start <= i <= end <= results.len(),
                views == rank::ranked_views(results@),
                rows.len() == i - start,
                forall|k: int|
                    0 <= k < i - start ==> row_shows(
                        #[trigger] rows@[k],
                        views[start + k].0,
                        start + k == selected,
                    ),
            decreases end - i,
        {
            assert(views[i as int].0 == results@[i as int].0@);
            rows.push(row_of(&results[i].0, i == selected));
            i += 1;
        }
        Body::Rows(rows)
    };
    FrameView {
        sections,
        title: " WTFIS ".to_owned(),
        caption: " local project finder ".to_owned(),
        label: input_label(query),
        closing: "]".to_owned(),
        hint: "Up/Down navigate  Enter open  Esc cancel  Click select  Double-click open".to_owned(),
        cursor_x,
        cursor_y: sections.input.y,
        body,
        footer: footer_line(start, end, total),
    }
}

/// Whether `view` is what the picker shows in `area`.
pub open spec fn renders(
    view: FrameView,
    area: Area,
    query: Seq<char>,
    results: Seq<(Seq<u8>, int)>,
    selected: int,
    scanning: bool,
) -> bool {
    exists|inner: Area|
        {
            &&& #[trigger] screen::inside_border(area, inner)
            &&& screen::split_down(inner, 1, 1, 1, 1, view.sections)
            &&& frame_shows(
                view,
                view.sections,
                screen::line_width(label_text(query), query),
                query,
                results,
                selected,
                scanning,
            )
        }
}

/// What the picker shows in `area`.
pub fn render_frame(
    area: Area,
    query: &str,
    results: &[Ranked],
    selected: usize,
    scanning: bool,
) -> (r: FrameView)
    ensures
        renders(r, area, query@, rank::ranked_views(results@), selected as int, scanning),
{
    let inner = within_borders(area);
    let sections = split_rows(inner, 1, 1, 1, 1);
    let label = input_label(query);
    let width: usize = columns(label.as_str(), query);
    compose_frame(sections, width, query, results, selected, scanning)
}

/// Where the picker is high enough for its border, its three lines and one result,
/// all rows but those show results. Where it is lower, one row does, as long as there
/// is one within the border.
pub proof fn list_takes_the_rest(
    view: FrameView,
    area: Area,
    query: Seq<char>,
    results: Seq<(Seq<u8>, int)>,
    selected: int,
    scanning: bool,
)
    requires
        renders(view, area, query, results, selected, scanning),
        area.y + area.height <= u16::MAX,
    ensures
        area.height >= 6 ==> view.sections.list.height == area.height - 5
            && view.sections.list.y == area.y + 3,
        3 <= area.height < 6 ==> view.sections.list.height == 1,
        area.height < 3 ==> view.sections.list.height == 0,
{
}

/// The results that are shown fit into the list, the selected one is among them,
/// and it is the only one that is marked.
pub proof fn shown_results_fit(
    view: FrameView,
    area: Area,
    query: Seq<char>,
    results: Seq<(Seq<u8>, int)>,
    selected: int,
    scanning: bool,
)
    requires
        renders(view, area, query, results, selected, scanning),
        0 <= selected < results.len(),
        view.sections.list.height > 0,
    ensures
        view.body matches Body::Rows(rows) && {
            let start = window_start(
                results.len() as int,
                selected,
                view.sections.list.height as int,
            );
            &&& rows@.len() <= view.sections.list.height
            &&& 0 <= selected - start < rows@.len()
            &&& forall|k: int|
                0 <= k < rows@.len() ==> (#[trigger] rows@[k]).selected == (k == selected - start)
        },
{
    selected_result_is_shown(results.len() as int, selected, view.sections.list.height as int);
    let start = window_start(results.len() as int, selected, view.sections.list.height as int);
    let rows = view.body->Rows_0;
    assert forall|k: int| 0 <= k < rows@.len() implies (#[trigger] rows@[k]).selected == (k
        == selected - start) by {
        assert(row_shows(rows@[k], results[start + k].0, start + k == selected));
    }
}

/// The list stays at its start as long as the selected result is in the first rows; from
/// there on the selected result is in the last row.
pub proof fn list_scrolls_no_further_than_it_must(total: int, selected: int, visible: int)
    requires
        0 < visible,
        0 <= selected < total,
    ensures
        selected < visible ==> window_start(total, selected, visible) == 0,
        selected >= visible ==> window_start(total, selected, visible) == selected - visible + 1,
{
}

/// Where no row is visible, or there are no results, the list starts at its start.
pub proof fn list_without_rows_starts_at_its_start(total: int, selected: int, visible: int)
    requires
        visible == 0 || total == 0,
        0 <= visible,
        0 <= total,
    ensures
        window_start(total, selected, visible) == 0,
{
}

/// The picker is as high as the terminal, but at least seven rows and at most twelve;
/// eight where the height of the terminal is not known.
pub proof fn picker_takes_seven_to_twelve_rows(rows: u16)
    ensures
        picker_height(None) == 8,
        rows <= 7 ==> picker_height(Some(rows)) == 7,
        7 <= rows <= 12 ==> picker_height(Some(rows)) == rows,
        rows >= 12 ==> picker_height(Some(rows)) == 12,
{
}

/// What the fixed texts are, letter for letter.
pub proof fn labels_and_messages_are_spelled_out(query: Seq<char>)
    ensures
        query.len() == 0 ==> label_text(query) == seq![
            'R', 'e', 'c', 'e', 'n', 't', ' ', 'p', 'r', 'o', 'j', 'e', 'c', 't', 's', ' ', '[',
        ],
        query.len() > 0 ==> label_text(query) == seq![
            'S', 'e', 'a', 'r', 'c', 'h', ' ', 'p', 'r', 'o', 'j', 'e', 'c', 't', 's', ' ', '[',
        ],
        message_text(query, true) == seq![
            'S', 'c', 'a', 'n', 'n', 'i', 'n', 'g', ' ', 'f', 'o', 'l', 'd', 'e', 'r', 's', '.',
            '.', '.',
        ],
        query.len() == 0 ==> message_text(query, false) == seq![
            'T', 'y', 'p', 'e', ' ', 't', 'o', ' ', 's', 'e', 'a', 'r', 'c', 'h', ' ', 'f', 'o',
            'l', 'd', 'e', 'r', 's',
        ],
        query.len() > 0 ==> message_text(query, false) == seq![
            'N', 'o', ' ', 'm', 'a', 't', 'c', 'h', 'i', 'n', 'g', ' ', 'f', 'o', 'l', 'd', 'e',
            'r', 's',
        ],
{
    reveal_strlit("Recent projects [");
    reveal_strlit("Search projects [");
    reveal_strlit("Scanning folders...");
    reveal_strlit("Type to search folders");
    reveal_strlit("No matching folders");
}

/// The line below the list tells the numbers of the first and the last result that are
/// shown, counted from one, and of all results; read back, its digits give these
/// numbers. Without results it says that there is no selection.
pub proof fn footer_counts_from_one(start: int, end: int, total: int)
    requires
        0 <= start,
        0 <= end,
        0 <= total,
    ensures
        total > 0 ==> footer_text(start, end, total) == text::decimal((start + 1) as nat) + seq!['-']
            + text::decimal(end as nat) + seq![' ', 'o', 'f', ' '] + text::decimal(total as nat),
        total == 0 ==> footer_text(start, end, total) == seq![
            'N', 'o', ' ', 's', 'e', 'l', 'e', 'c', 't', 'i', 'o', 'n',
        ],
{
    reveal_strlit("-");
    reveal_strlit(" of ");
    reveal_strlit("No selection");
    assert("-"@ =~= seq!['-']);
    assert(" of "@ =~= seq![' ', 'o', 'f', ' ']);
}

/// A row shows the marker `> ` if it is the selected one and two blanks if not, then the
/// name, two blanks, and the path, both as text.
pub proof fn row_shows_name_and_path(row: Row, path: Seq<u8>, selected: bool)
    requires
        row_shows(row, path, selected),
    ensures
        row.selected == selected,
        selected ==> row.marker@ == seq!['>', ' '],
        !selected ==> row.marker@ == seq![' ', ' '],
        row.gap@ == seq![' ', ' '],
        row.path@ == text::lossy_text(path),
        valid_utf8(path) ==> row.path@ == decode_utf8(path),
        path::file_name(path) is Some ==> row.name@ == text::lossy_text(path::file_name(path)->0),
        path::file_name(path) is Some && valid_utf8(path::file_name(path)->0) ==> row.name@
            == decode_utf8(path::file_name(path)->0),
        path::file_name(path) is None ==> row.name@.len() == 0,
{
    reveal_strlit("> ");
    reveal_strlit("  ");
}

/// The frame shows one row for each result from the first that is shown on, as many as
/// the list has rows or as there are results, in order, with the selected one marked;
/// and a message only where it shows no result.
pub proof fn frame_shows_the_results_in_order(
    view: FrameView,
    width: int,
    query: Seq<char>,
    results: Seq<(Seq<u8>, int)>,
    selected: int,
    scanning: bool,
)
    requires
        frame_shows(view, view.sections, width, query, results, selected, scanning),
        0 <= selected,
    ensures
        ({
            let rows = view.sections.list.height as int;
            let total = results.len() as int;
            let start = window_start(total, selected, rows);
            let shown: int = if rows < total {
                rows
            } else {
                total
            };
            &&& shown == 0 ==> (view.body matches Body::Message(message) && message@
                == message_text(query, scanning))
            &&& shown > 0 ==> (view.body matches Body::Rows(list) && list@.len() == shown
                && forall|k: int|
                0 <= k < shown ==> row_shows(
                    #[trigger] list@[k],
                    results[start + k].0,
                    start + k == selected,
                ))
            &&& view.footer@ == footer_text(start, start + shown, total)
        }),
{
    let rows = view.sections.list.height as int;
    let total = results.len() as int;
    let start = window_start(total, selected, rows);
    if rows > 0 && total > rows {
        assert(start + rows <= total);
    }
}

/// The cursor stands in the line of the query, behind as many columns as the label and
/// the query take, but never right of the line's last column.
pub proof fn cursor_stands_behind_the_query(
    view: FrameView,
    width: int,
    query: Seq<char>,
    results: Seq<(Seq<u8>, int)>,
    selected: int,
    scanning: bool,
)
    requires
        frame_shows(view, view.sections, width, query, results, selected, scanning),
        0 <= width,
        view.sections.input.width > 0,
        view.sections.input.x + view.sections.input.width <= 65_535,
    ensures
        view.cursor_y == view.sections.input.y,
        width < view.sections.input.width ==> view.cursor_x == view.sections.input.x + width,
        width >= view.sections.input.width ==> view.cursor_x == view.sections.input.x
            + view.sections.input.width - 1,
        view.label@ == label_text(query),
{
}

/// What the frame says that does not depend on anything, letter for letter.
pub proof fn fixed_texts_are_spelled_out(
    view: FrameView,
    width: int,
    query: Seq<char>,
    results: Seq<(Seq<u8>, int)>,
    selected: int,
    scanning: bool,
)
    requires
        frame_shows(view, view.sections, width, query, results, selected, scanning),
    ensures
        view.title@ == seq![' ', 'W', 'T', 'F', 'I', 'S', ' '],
        view.caption@ == seq![
            ' ', 'l', 'o', 'c', 'a', 'l', ' ', 'p', 'r', 'o', 'j', 'e', 'c', 't', ' ', 'f', 'i',
            'n', 'd', 'e', 'r', ' ',
        ],
        view.closing@ == seq![']'],
        view.hint@ == "Up/Down navigate  Enter open  "@ + "Esc cancel  Click select  "@
            + "Double-click open"@,
{
    reveal_strlit(" WTFIS ");
    reveal_strlit(" local project finder ");
    reveal_strlit("]");
    reveal_strlit("Up/Down navigate  Enter open  Esc cancel  Click select  Double-click open");
    reveal_strlit("Up/Down navigate  Enter open  ");
    reveal_strlit("Esc cancel  Click select  ");
    reveal_strlit("Double-click open");
}

/// Within its border, the picker has the line of the query, the hint, the results and
/// the footer one below the other, each as wide as the border leaves.
pub proof fn sections_lie_within_the_border(
    view: FrameView,
    area: Area,
    query: Seq<char>,
    results: Seq<(Seq<u8>, int)>,
    selected: int,
    scanning: bool,
)
    requires
        renders(view, area, query, results, selected, scanning),
        area.width >= 2,
        area.height >= 6,
        area.x + area.width <= 65_535,
        area.y + area.height <= 65_535,
    ensures
        view.sections.input.y == area.y + 1,
        view.sections.input.height == 1,
        view.sections.hint.y == area.y + 2,
        view.sections.hint.height == 1,
        view.sections.list.y == area.y + 3,
        view.sections.list.height == area.height - 5,
        view.sections.footer.y == area.y + area.height - 2,
        view.sections.footer.height == 1,
        view.sections.input.x == area.x + 1 && view.sections.hint.x == area.x + 1
            && view.sections.list.x == area.x + 1 && view.sections.footer.x == area.x + 1,
        view.sections.input.width == area.width - 2 && view.sections.hint.width == area.width - 2
            && view.sections.list.width == area.width - 2 && view.sections.footer.width
            == area.width - 2,
        frame_shows(
            view,
            view.sections,
            screen::line_width(label_text(query), query),
            query,
            results,
            selected,
            scanning,
        ),
{
}

/// A selection beyond the end shows the end of the list.
pub proof fn selection_beyond_the_end_shows_the_end(total: int, selected: int, visible: int)
    requires
        0 < visible <= total <= selected,
    ensures
        window_start(total, selected, visible) == total - visible,
{
}

} // verus!
