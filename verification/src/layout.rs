//! Popup areas: a rectangle centered in another, sized by percentages or by cells, laid
//! out by `ratatui`'s constraint layout.

use vstd::prelude::*;
use ratatui::layout::{Constraint, Direction, Layout, Rect};

verus! {

/// A rectangle of terminal cells.
#[derive(Debug, Clone, Copy, PartialEq, Eq, Structural)]
pub struct Area {
    pub x: u16,
    pub y: u16,
    pub width: u16,
    pub height: u16,
}

/// The direction of a split: rows stacked top to bottom, or columns left to right.
#[derive(Debug, Clone, Copy, PartialEq, Eq, Structural)]
pub enum Axis {
    Vertical,
    Horizontal,
}

/// How long one part of a split is: a percentage of the whole, or a number of cells.
#[derive(Debug, Clone, Copy, PartialEq, Eq, Structural)]
pub enum Extent {
    Percentage(u16),
    Length(u16),
}

/// The three parts that `ratatui`'s `Layout::split` makes of `area` along `axis` for
/// three constraints.
pub uninterp spec fn layout_split3(axis: Axis, first: Extent, middle: Extent, last: Extent, area: Area) -> (Area, Area, Area);

/// Splits `area` in three with `Layout::default().direction(..).constraints(..).split(..)`.
///
/// Trusted: the parts are named by `layout_split3`, a function of the direction, the
/// constraints and the area (the layout caches results per thread, which does not change
/// them). The solver adds these constraints below the required strength, so the split does
/// not fail, and it makes one part per constraint.
#[verifier::external_body]
fn split3(axis: Axis, first: Extent, middle: Extent, last: Extent, area: Area) -> (r: (Area, Area, Area))
    ensures
        r == layout_split3(axis, first, middle, last, area),
{
    let c = |e: Extent| match e {
        Extent::Percentage(p) => Constraint::Percentage(p),
        Extent::Length(l) => Constraint::Length(l),
    };
    let d = match axis {
        Axis::Vertical => Direction::Vertical,
        Axis::Horizontal => Direction::Horizontal,
    };
    let rect = Rect::new(area.x, area.y, area.width, area.height);
    let p = Layout::default().direction(d).constraints([c(first), c(middle), c(last)]).split(rect);
    let a = |r: Rect| Area { x: r.x, y: r.y, width: r.width, height: r.height };
    (a(p[0]), a(p[1]), a(p[2]))
}

/// The middle of the three parts of a split.
pub open spec fn middle_part(axis: Axis, first: Extent, middle: Extent, last: Extent, area: Area) -> Area {
    layout_split3(axis, first, middle, last, area).1
}

/// The area `percent_x`% wide and `percent_y`% high centered in `r`: the middle row of a
/// vertical split, then the middle column of a horizontal one, the margins each taking
/// half of the rest.
pub open spec fn spec_centered_rect(percent_x: u16, percent_y: u16, r: Area) -> Area {
    let my = ((100 - percent_y) / 2) as u16;
    let mx = ((100 - percent_x) / 2) as u16;
    let row = middle_part(Axis::Vertical, Extent::Percentage(my), Extent::Percentage(percent_y), Extent::Percentage(my), r);
    middle_part(Axis::Horizontal, Extent::Percentage(mx), Extent::Percentage(percent_x), Extent::Percentage(mx), row)
}

/// A popup `percent_x`% by `percent_y`% of `r`, centered in it.
pub fn centered_rect(percent_x: u16, percent_y: u16, r: Area) -> (a: Area)
    requires
        percent_x <= 100,
        percent_y <= 100,
    ensures
        a == spec_centered_rect(percent_x, percent_y, r),
{
    let my = (100 - percent_y) / 2;
    let mx = (100 - percent_x) / 2;
    let rows = split3(Axis::Vertical, Extent::Percentage(my), Extent::Percentage(percent_y), Extent::Percentage(my), r);
    let cols = split3(Axis::Horizontal, Extent::Percentage(mx), Extent::Percentage(percent_x), Extent::Percentage(mx), rows.1);
    cols.1
}

/// `a - b`, or 0 when `b` is larger.
pub open spec fn sat_sub(a: u16, b: u16) -> u16 {
    if a > b { (a - b) as u16 } else { 0 }
}

/// The smaller of two lengths.
pub open spec fn min16(a: u16, b: u16) -> u16 {
    if a < b { a } else { b }
}

/// The area `width` by `height` cells (at most `r`'s size) centered in `r`: the middle of
/// a vertical split with margins of half the spare rows, then of a horizontal split with
/// margins of half the spare columns.
pub open spec fn spec_centered_rect_fixed(width: u16, height: u16, r: Area) -> Area {
    let my = (sat_sub(r.height, height) / 2) as u16;
    let mx = (sat_sub(r.width, width) / 2) as u16;
    let row = middle_part(Axis::Vertical, Extent::Length(my), Extent::Length(min16(height, r.height)), Extent::Length(my), r);
    middle_part(Axis::Horizontal, Extent::Length(mx), Extent::Length(min16(width, r.width)), Extent::Length(mx), row)
}

/// A popup of `width` by `height` cells centered in `r`.
pub fn centered_rect_fixed(width: u16, height: u16, r: Area) -> (a: Area)
    ensures
        a == spec_centered_rect_fixed(width, height, r),
{
    let my = r.height.saturating_sub(height) / 2;
    let mx = r.width.saturating_sub(width) / 2;
    let h = if height < r.height { height } else { r.height };
    let w = if width < r.width { width } else { r.width };
    let rows = split3(Axis::Vertical, Extent::Length(my), Extent::Length(h), Extent::Length(my), r);
    let cols = split3(Axis::Horizontal, Extent::Length(mx), Extent::Length(w), Extent::Length(mx), rows.1);
    cols.1
}

/// The width of the defaults dialog: 22 columns more than the longer of its two paths, at
/// least 80, at most the screen. `None` where 16-bit arithmetic overflows on a path too long.
pub fn config_popup_width(config_path_len: usize, anims_path_len: usize, screen_w: u16) -> (r: Option<u16>)
    ensures
        ({
            let longest: int = if config_path_len > anims_path_len { config_path_len as int } else { anims_path_len as int };
            let cut = (longest as u16) as int;
            &&& r.is_some() == (cut + 22 <= u16::MAX)
            &&& r matches Some(w) ==> w == min16(if cut + 22 > 80 { (cut + 22) as u16 } else { 80 }, screen_w)
            &&& r matches Some(w) ==> w <= screen_w
            &&& r matches Some(w) ==> (w == screen_w || (w >= 80 && w >= cut + 22))
            &&& r matches Some(w) ==> (w == screen_w || w == 80 || w == cut + 22)
        }),
{
    let longest = if config_path_len > anims_path_len { config_path_len } else { anims_path_len };
    let cut = #[verifier::truncate] (longest as u16);
    if cut > u16::MAX - 22 {
        return None;
    }
    let needed = if cut + 22 > 80 { cut + 22 } else { 80 };
    Some(if needed < screen_w { needed } else { screen_w })
}

} // verus!
