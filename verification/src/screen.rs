//! Areas of the screen, and what the terminal library computes about them.

use ratatui::layout::{Constraint, Direction, Layout, Rect};
use ratatui::text::{Line, Span};
use ratatui::widgets::{Block, Borders};
use vstd::prelude::*;

verus! {

/// A rectangle of cells.
#[derive(Clone, Copy, Debug, PartialEq, Eq, Structural)]
pub struct Area {
    pub x: u16,
    pub y: u16,
    pub width: u16,
    pub height: u16,
}

/// `n`, or the largest coordinate if it is larger.
pub open spec fn saturated(n: int) -> int {
    if n > u16::MAX {
        u16::MAX as int
    } else {
        n
    }
}

/// `n`, or zero if it is smaller.
pub open spec fn positive(n: int) -> int {
    if n < 0 {
        0
    } else {
        n
    }
}

/// The smaller of the two.
pub open spec fn smaller(a: int, b: int) -> int {
    if a < b {
        a
    } else {
        b
    }
}

impl Area {
    /// The first column to the right of the area.
    pub open spec fn right_edge(self) -> int {
        saturated(self.x + self.width)
    }

    /// The first row below the area.
    pub open spec fn bottom_edge(self) -> int {
        saturated(self.y + self.height)
    }

    /// Whether the area holds the cell at `column` and `row`.
    pub open spec fn covers(self, column: int, row: int) -> bool {
        &&& self.x <= column < self.right_edge()
        &&& self.y <= row < self.bottom_edge()
    }

    /// The first column to the right of the area.
    pub fn right(&self) -> (r: u16)
        ensures
            r == self.right_edge(),
    {
        self.x.saturating_add(self.width)
    }

    /// Whether the area holds the cell at `column` and `row`.
    pub fn contains(&self, column: u16, row: u16) -> (r: bool)
        ensures
            r == self.covers(column as int, row as int),
    {
        column >= self.x && column < self.right() && row >= self.y && row < self.y.saturating_add(
            self.height,
        )
    }
}

/// Whether `inner` is what a border of one cell on each side leaves of `area`.
pub open spec fn inside_border(area: Area, inner: Area) -> bool {
    &&& inner.x == smaller(saturated(area.x + 1), area.right_edge())
    &&& inner.y == smaller(saturated(area.y + 1), area.bottom_edge())
    &&& inner.width == positive(area.width - 2)
    &&& inner.height == positive(area.height - 2)
}

/// Calls ratatui's `Block::inner`, for a block with borders on all sides and no
/// padding: it leaves one cell on each side, as far as there is room.
#[verifier::external_body]
pub(crate) fn within_borders(area: Area) -> (r: Area)
    ensures
        inside_border(area, r),
{
    let rect = Rect { x: area.x, y: area.y, width: area.width, height: area.height };
    let inner = Block::default().borders(Borders::ALL).inner(rect);
    Area { x: inner.x, y: inner.y, width: inner.width, height: inner.height }
}

/// Four areas, one below the other.
#[derive(Clone, Copy, Debug, PartialEq, Eq, Structural)]
pub struct Sections {
    pub input: Area,
    pub hint: Area,
    pub list: Area,
    pub footer: Area,
}

/// Whether `part` lies in `whole` and is as wide.
pub open spec fn full_width_part(whole: Area, part: Area) -> bool {
    &&& part.x == whole.x
    &&& part.width == whole.width
    &&& whole.y <= part.y
    &&& part.y + part.height <= whole.bottom_edge()
}

/// Whether the four areas follow each other down from the row `top`, with these
/// heights.
pub open spec fn stacked(
    r: Sections,
    top: int,
    input: int,
    hint: int,
    list: int,
    footer: int,
) -> bool {
    &&& r.input.y == top
    &&& r.input.height == input
    &&& r.hint.y == top + input
    &&& r.hint.height == hint
    &&& r.list.y == top + input + hint
    &&& r.list.height == list
    &&& r.footer.y == top + input + hint + list
    &&& r.footer.height == footer
}

/// One row from `least` rows on, and none below.
pub open spec fn row_from(rows: int, least: int) -> int {
    if rows >= least {
        1
    } else {
        0
    }
}

/// Whether the four areas are full-width parts of `area` and, where there is room,
/// follow each other down `area` with the heights `input`, `hint` and `footer`, and
/// all the rest, `list` at least, for the list. Where each asks for one row and there
/// are fewer than four, the list gets the first, the footer the second and the input
/// the third.
pub open spec fn split_down(
    area: Area,
    input: int,
    hint: int,
    list: int,
    footer: int,
    r: Sections,
) -> bool {
    let rows = area.bottom_edge() - area.y;
    &&& full_width_part(area, r.input)
    &&& full_width_part(area, r.hint)
    &&& full_width_part(area, r.list)
    &&& full_width_part(area, r.footer)
    &&& input + hint + list + footer <= rows ==> stacked(
        r,
        area.y as int,
        input,
        hint,
        rows - input - hint - footer,
        footer,
    )
    &&& input == 1 && hint == 1 && list == 1 && footer == 1 && rows < 4 ==> stacked(
        r,
        area.y as int,
        row_from(rows, 3),
        0,
        row_from(rows, 1),
        row_from(rows, 2),
    )
}

/// The four areas of `r`.
pub open spec fn sections_of(r: Seq<Area>) -> Sections {
    Sections { input: r[0], hint: r[1], list: r[2], footer: r[3] }
}

/// Calls ratatui's `Layout::split`, down the area, with lengths for all parts but
/// the third, which has a least height: the parts lie in the area and are as wide,
/// and where the area is high enough for all of them the lengths are kept and the
/// third part takes the rest.
///
/// Where it is too low, the least height outweighs the lengths, and of the ways to
/// shorten the lengths the solver takes one that makes neighbouring parts as alike
/// as can be. With one row asked for each part there is one such way: with two rows
/// the third and the last part have them, and with three the first two share the
/// row that is left, which rounding gives to the first. With other heights there can
/// be several ways that are equally good; which of them is taken is not stated.
#[verifier::external_body]
fn split_areas(area: Area, input: u16, hint: u16, list: u16, footer: u16) -> (r: Vec<Area>)
    ensures
        r@.len() == 4,
        split_down(
            area,
            input as int,
            hint as int,
            list as int,
            footer as int,
            sections_of(r@),
        ),
{
    let rect = Rect { x: area.x, y: area.y, width: area.width, height: area.height };
    let rows = [
        Constraint::Length(input),
        Constraint::Length(hint),
        Constraint::Min(list),
        Constraint::Length(footer),
    ];
    let parts = Layout::default().direction(Direction::Vertical).constraints(rows).split(rect);
    parts.iter().map(|p| Area { x: p.x, y: p.y, width: p.width, height: p.height }).collect()
}

/// `area`, split into four areas, one below the other.
pub fn split_rows(area: Area, input: u16, hint: u16, list: u16, footer: u16) -> (r: Sections)
    ensures
        split_down(area, input as int, hint as int, list as int, footer as int, r),
{
    let parts = split_areas(area, input, hint, list, footer);
    Sections { input: parts[0], hint: parts[1], list: parts[2], footer: parts[3] }
}

/// How many columns a line of two stretches of text takes, as ratatui's
/// `Line::width` counts them.
pub uninterp spec fn line_width(left: Seq<char>, right: Seq<char>) -> int;

/// Calls ratatui's `Line::width` on a line of two unstyled spans. Its result is a
/// function of the two texts alone.
#[verifier::external_body]
pub(crate) fn columns(left: &str, right: &str) -> (r: usize)
    ensures
        r == line_width(left@, right@),
{
    Line::from(vec![Span::raw(left), Span::raw(right)]).width()
}

/// An area holds the cells from its left column to the one before its right edge, and
/// from its top row to the one before its bottom edge, as far as there are cells.
pub proof fn area_holds_its_cells(area: Area, column: int, row: int)
    requires
        column < 65_535,
        row < 65_535,
    ensures
        area.covers(column, row) <==> area.x <= column < area.x + area.width && area.y <= row
            < area.y + area.height,
        area.x + area.width <= 65_535 ==> area.right_edge() == area.x + area.width,
        area.y + area.height <= 65_535 ==> area.bottom_edge() == area.y + area.height,
        area.right_edge() <= 65_535,
        area.bottom_edge() <= 65_535,
{
}

} // verus!
