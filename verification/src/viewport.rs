//! Scaling of the grid into a viewport, in exact fractions of a pixel. The grid is centred
//! and fills three fifths of the viewport's width and four fifths of its height.

use vstd::prelude::*;
use crate::grid::{half_columns_of, is_grid_of, levels_spread, place, tree_width};
use crate::grid::{Grid, GridPosition};
use crate::grid::lemma_centred;
use crate::trace::{bounded_by, well_formed};

verus! {

/// The size of the drawing surface in pixels.
#[derive(Debug, Clone, Copy, PartialEq, Eq, Structural)]
pub struct Viewport {
    pub width: u16,
    pub height: u16,
}

/// The extent of the grid along one axis, in grid steps. An axis along which the grid has
/// no extent is treated as one step long, so that the scale is defined.
pub open spec fn extent(steps: int) -> int {
    if steps <= 0 {
        1
    } else {
        steps
    }
}

/// The map from grid coordinates to pixels along one axis: the grid coordinate `g` lies at
/// `(g * step + origin) / den` pixels.
#[derive(Debug, Clone, Copy, PartialEq, Eq, Structural)]
pub struct Axis {
    pub step: u128,
    pub origin: u128,
    pub den: u128,
}

impl Axis {
    /// The numerator of the pixel coordinate of grid coordinate `g`.
    pub open spec fn at(self, g: int) -> int {
        g * self.step + self.origin
    }

    /// The axis spreads `extent` grid steps, of `parts` grid coordinates each, over the
    /// fraction `fill_num / fill_den` of `pixels` pixels and centres them: its scale
    /// `parts * step / den` is `pixels * fill_num / (fill_den * extent)` pixels per grid
    /// step, and its offset `origin / den` is half of what `extent` steps leave of `pixels`.
    pub open spec fn spreads(
        self,
        parts: int,
        pixels: int,
        extent: int,
        fill_num: int,
        fill_den: int,
    ) -> bool {
        &&& self.den > 0
        &&& parts * self.step * (fill_den * extent) == pixels * fill_num * self.den
        &&& 2 * self.origin == pixels * self.den - extent * (parts * self.step)
    }
}

/// The horizontal axis for a tree `width` nodes wide, in half columns.
pub open spec fn is_x_axis(axis: Axis, width: int, pixels: int) -> bool {
    &&& axis.step == 3 * pixels
    &&& axis.origin == 2 * (extent(width - 1) * pixels)
    &&& axis.den == 10 * extent(width - 1)
}

/// The vertical axis for a tree `max_depth` levels deep, in rows.
pub open spec fn is_y_axis(axis: Axis, max_depth: int, pixels: int) -> bool {
    &&& axis.step == 8 * pixels
    &&& axis.origin == extent(max_depth) * pixels
    &&& axis.den == 10 * extent(max_depth)
}

/// An exact fraction of a pixel.
#[derive(Debug, Clone, Copy, PartialEq, Eq, Structural)]
pub struct Fraction {
    pub num: u128,
    pub den: u128,
}

/// A point of the viewport.
#[derive(Debug, Clone, Copy, PartialEq, Eq, Structural)]
pub struct Point {
    pub x: Fraction,
    pub y: Fraction,
}

/// The horizontal axis spreads the columns over its share of the width.
pub proof fn lemma_x_axis_spreads(axis: Axis, width: int, pixels: int)
    requires
        is_x_axis(axis, width, pixels),
    ensures
        axis.spreads(2, pixels, extent(width - 1), 3, 5),
{
    let e = extent(width - 1);
    assert(2 * (3 * pixels) * (5 * e) == pixels * 3 * (10 * e)) by (nonlinear_arith);
    assert(2 * (2 * (e * pixels)) == pixels * (10 * e) - e * (2 * (3 * pixels)))
        by (nonlinear_arith);
}

/// The vertical axis spreads the rows over its share of the height.
pub proof fn lemma_y_axis_spreads(axis: Axis, max_depth: int, pixels: int)
    requires
        is_y_axis(axis, max_depth, pixels),
    ensures
        axis.spreads(1, pixels, extent(max_depth), 4, 5),
{
    let e = extent(max_depth);
    assert(1 * (8 * pixels) * (5 * e) == pixels * 4 * (10 * e)) by (nonlinear_arith);
    assert(2 * (e * pixels) == pixels * (10 * e) - e * (1 * (8 * pixels))) by (nonlinear_arith);
}

/// Taking the offset from a pixel coordinate and dividing by the scale gives back the
/// grid coordinate, exactly.
pub proof fn lemma_round_trip(axis: Axis, g: int)
    requires
        axis.step > 0,
        0 <= g,
    ensures
        (axis.at(g) - axis.origin) / (axis.step as int) == g,
        (axis.at(g) - axis.origin) % (axis.step as int) == 0,
{
    let s = axis.step as int;
    assert((g * s) / s == g && (g * s) % s == 0) by (nonlinear_arith)
        requires
            s > 0,
            g >= 0,
    ;
}

/// The horizontal axis for a tree `width` nodes wide in a viewport `pixels` wide.
pub fn x_axis(width: usize, pixels: u16) -> (axis: Axis)
    ensures
        is_x_axis(axis, width as int, pixels as int),
{
    let e: u128 = if width <= 1 {
        1
    } else {
        (width - 1) as u128
    };
    let w: u128 = pixels as u128;
    assert(e * w <= 0xFFFF_FFFF_FFFF_FFFF * 0xFFFF) by (nonlinear_arith)
        requires
            e <= 0xFFFF_FFFF_FFFF_FFFF,
            w <= 0xFFFF,
    ;
    Axis { step: 3 * w, origin: 2 * (e * w), den: 10 * e }
}

/// The vertical axis for a tree `max_depth` levels deep in a viewport `pixels` high.
pub fn y_axis(max_depth: usize, pixels: u16) -> (axis: Axis)
    ensures
        is_y_axis(axis, max_depth as int, pixels as int),
{
    let e: u128 = if max_depth == 0 {
        1
    } else {
        max_depth as u128
    };
    let h: u128 = pixels as u128;
    assert(e * h <= 0xFFFF_FFFF_FFFF_FFFF * 0xFFFF) by (nonlinear_arith)
        requires
            e <= 0xFFFF_FFFF_FFFF_FFFF,
            h <= 0xFFFF,
    ;
    Axis { step: 8 * h, origin: e * h, den: 10 * e }
}

/// The horizontal axis keeps the grid within the middle three fifths of the width.
pub proof fn lemma_x_inside(axis: Axis, width: int, pixels: int, g: int)
    requires
        is_x_axis(axis, width, pixels),
        0 <= pixels,
        0 <= g <= 2 * (width - 1),
    ensures
        pixels * axis.den <= 5 * axis.at(g) <= 4 * (pixels * axis.den),
{
    let e = extent(width - 1);
    assert(0 <= g * (3 * pixels) <= (2 * e) * (3 * pixels)) by (nonlinear_arith)
        requires
            0 <= g <= 2 * e,
            0 <= pixels,
    ;
    assert(pixels * (10 * e) == 10 * (e * pixels) && (2 * e) * (3 * pixels) == 6 * (e * pixels))
        by (nonlinear_arith);
}

/// The vertical axis keeps the grid within the middle four fifths of the height.
pub proof fn lemma_y_inside(axis: Axis, max_depth: int, pixels: int, g: int)
    requires
        is_y_axis(axis, max_depth, pixels),
        0 <= pixels,
        0 <= g <= max_depth,
    ensures
        pixels * axis.den <= 10 * axis.at(g) <= 9 * (pixels * axis.den),
{
    let e = extent(max_depth);
    assert(0 <= g * (8 * pixels) <= e * (8 * pixels)) by (nonlinear_arith)
        requires
            0 <= g <= e,
            0 <= pixels,
    ;
    assert(pixels * (10 * e) == 10 * (e * pixels) && e * (8 * pixels) == 8 * (e * pixels))
        by (nonlinear_arith);
}

/// The point of the viewport at which a place of the grid lies.
pub fn to_viewport(cell: GridPosition, x_axis: Axis, y_axis: Axis) -> (p: Point)
    requires
        x_axis.at(cell.half_columns()) <= u128::MAX,
        y_axis.at(cell.row as int) <= u128::MAX,
    ensures
        p.x.num == x_axis.at(cell.half_columns()),
        p.x.den == x_axis.den,
        p.y.num == y_axis.at(cell.row as int),
        p.y.den == y_axis.den,
{
    let g: u128 = 2 * (cell.column as u128) + if cell.half {
        1
    } else {
        0
    };
    let row: u128 = cell.row as u128;
    assert(0 <= g * x_axis.step <= x_axis.at(g as int) && 0 <= row * y_axis.step <= y_axis.at(
        row as int,
    )) by (nonlinear_arith)
        requires
            0 <= g,
            0 <= row,
            0 <= x_axis.step,
            0 <= y_axis.step,
            0 <= x_axis.origin,
            0 <= y_axis.origin,
            x_axis.at(g as int) == g * x_axis.step + x_axis.origin,
            y_axis.at(row as int) == row * y_axis.step + y_axis.origin,
    ;
    Point {
        x: Fraction { num: g * x_axis.step + x_axis.origin, den: x_axis.den },
        y: Fraction { num: row * y_axis.step + y_axis.origin, den: y_axis.den },
    }
}

/// The nodes of a trace on the grid and in a viewport.
#[derive(Debug, Clone, PartialEq, Eq)]
pub struct Layout {
    /// The place of each node on the grid.
    pub grid: Grid,
    /// The map from half columns to pixels.
    pub x_axis: Axis,
    /// The map from rows to pixels.
    pub y_axis: Axis,
    /// The point of the viewport at which each node lies, in trace order.
    pub positions: Vec<Point>,
}

/// What the layout of a trace in a viewport holds: the grid of the trace, the two axes
/// that spread this grid over the viewport, and for every node the point at which the axes
/// put its place on the grid.
pub open spec fn is_layout_of(
    l: Layout,
    depths: Seq<usize>,
    max_depth: usize,
    viewport: Viewport,
) -> bool {
    &&& is_grid_of(l.grid, depths)
    &&& is_x_axis(l.x_axis, tree_width(depths), viewport.width as int)
    &&& is_y_axis(l.y_axis, max_depth as int, viewport.height as int)
    &&& l.positions.len() == depths.len()
    &&& forall|i: int|
        0 <= i < depths.len() ==> {
            &&& (#[trigger] l.positions[i]).x.num == l.x_axis.at(half_columns_of(depths, i))
            &&& l.positions[i].x.den == l.x_axis.den
            &&& l.positions[i].y.num == l.y_axis.at(depths[i] as int)
            &&& l.positions[i].y.den == l.y_axis.den
        }
}

/// Taking the offsets from the point of each node and dividing by the scales gives back
/// the place of the node on the grid, exactly.
pub open spec fn divides_out(l: Layout) -> bool {
    forall|i: int|
        0 <= i < l.positions.len() ==> {
            &&& ((#[trigger] l.positions[i]).x.num - l.x_axis.origin) / (l.x_axis.step as int)
                == l.grid.cells[i].half_columns()
            &&& (l.positions[i].x.num - l.x_axis.origin) % (l.x_axis.step as int) == 0
            &&& (l.positions[i].y.num - l.y_axis.origin) / (l.y_axis.step as int)
                == l.grid.cells[i].row
            &&& (l.positions[i].y.num - l.y_axis.origin) % (l.y_axis.step as int) == 0
        }
}

/// Lays a trace out in a viewport: every node gets its place on the grid, and the grid is
/// scaled and centred to fill its share of the viewport.
pub fn layout(depths: &Vec<usize>, max_depth: usize, viewport: Viewport) -> (l: Layout)
    requires
        well_formed(depths@),
        bounded_by(depths@, max_depth),
    ensures
        is_layout_of(l, depths@, max_depth, viewport),
        levels_spread(l.grid, depths@),
        viewport.width > 0 && viewport.height > 0 ==> divides_out(l),
{
    let n: usize = depths.len();
    let grid = place(depths);
    let x_axis = x_axis(grid.width, viewport.width);
    let y_axis = y_axis(max_depth, viewport.height);
    let mut positions: Vec<Point> = Vec::new();
    let mut i: usize = 0;
    while i < n
        invariant
            0 <= i <= n,
            n == depths.len(),
            positions.len() == i,
            bounded_by(depths@, max_depth),
            is_grid_of(grid, depths@),
            is_x_axis(x_axis, tree_width(depths@), viewport.width as int),
            is_y_axis(y_axis, max_depth as int, viewport.height as int),
            forall|k: int|
                0 <= k < i ==> {
                    &&& (#[trigger] positions[k]).x.num == x_axis.at(half_columns_of(depths@, k))
                    &&& positions[k].x.den == x_axis.den
                    &&& positions[k].y.num == y_axis.at(depths[k] as int)
                    &&& positions[k].y.den == y_axis.den
                },
        decreases n - i,
    {
        let cell = grid.cells[i];
        proof {
            lemma_centred(depths@, i as int);
            lemma_x_inside(
                x_axis,
                tree_width(depths@),
                viewport.width as int,
                cell.half_columns(),
            );
            lemma_y_inside(y_axis, max_depth as int, viewport.height as int, cell.row as int);
            let ex = extent(tree_width(depths@) - 1);
            let ey = extent(max_depth as int);
            assert(viewport.width * (10 * ex) <= 0xFFFF * (10 * 0xFFFF_FFFF_FFFF_FFFF)
                && viewport.height * (10 * ey) <= 0xFFFF * (10 * 0xFFFF_FFFF_FFFF_FFFF))
                by (nonlinear_arith)
                requires
                    0 <= viewport.width <= 0xFFFF,
                    0 <= viewport.height <= 0xFFFF,
                    0 <= ex <= 0xFFFF_FFFF_FFFF_FFFF,
                    0 <= ey <= 0xFFFF_FFFF_FFFF_FFFF,
            ;
        }
        positions.push(to_viewport(cell, x_axis, y_axis));
        i = i + 1;
    }
    let l = Layout { grid, x_axis, y_axis, positions };
    proof {
        if viewport.width > 0 && viewport.height > 0 {
            assert forall|i: int| 0 <= i < l.positions.len() implies {
                &&& ((#[trigger] l.positions[i]).x.num - l.x_axis.origin) / (l.x_axis.step as int)
                    == l.grid.cells[i].half_columns()
                &&& (l.positions[i].x.num - l.x_axis.origin) % (l.x_axis.step as int) == 0
                &&& (l.positions[i].y.num - l.y_axis.origin) / (l.y_axis.step as int)
                    == l.grid.cells[i].row
                &&& (l.positions[i].y.num - l.y_axis.origin) % (l.y_axis.step as int) == 0
            } by {
                lemma_layout_round_trip(l, depths@, max_depth, viewport, i);
            }
        }
    }
    l
}

/// The numerator of the point that lies the fraction `elapsed / period` of the way from
/// `a` to `b`, over `period` times their denominator.
pub open spec fn mix(a: int, b: int, elapsed: int, period: int) -> int {
    a * (period - elapsed) + b * elapsed
}

/// Whether the point between `a` and `b` can be given: the progress is a fraction between
/// 0 and 1, the two points are measured in the same units, and the result fits.
pub open spec fn can_mix(a: Point, b: Point, elapsed: int, period: int) -> bool {
    &&& 0 <= elapsed <= period
    &&& 0 < period
    &&& a.x.den == b.x.den
    &&& a.y.den == b.y.den
    &&& mix(a.x.num as int, b.x.num as int, elapsed, period) <= u128::MAX
    &&& mix(a.y.num as int, b.y.num as int, elapsed, period) <= u128::MAX
    &&& a.x.den * period <= u128::MAX
    &&& a.y.den * period <= u128::MAX
}

/// The point that lies the fraction `elapsed / period` of the way from `a` to `b`.
pub open spec fn mixed(a: Point, b: Point, elapsed: int, period: int) -> Point {
    Point {
        x: Fraction {
            num: mix(a.x.num as int, b.x.num as int, elapsed, period) as u128,
            den: (a.x.den * period) as u128,
        },
        y: Fraction {
            num: mix(a.y.num as int, b.y.num as int, elapsed, period) as u128,
            den: (a.y.den * period) as u128,
        },
    }
}

/// A point between two others lies between them, and at either end of the way it is the
/// point at that end.
pub proof fn lemma_mix_between(a: int, b: int, elapsed: int, period: int)
    requires
        0 <= elapsed <= period,
    ensures
        a <= b ==> a * period <= mix(a, b, elapsed, period) <= b * period,
        b <= a ==> b * period <= mix(a, b, elapsed, period) <= a * period,
        mix(a, b, 0, period) == a * period,
        mix(a, b, period, period) == b * period,
{
    assert(mix(a, b, elapsed, period) == a * period + (b - a) * elapsed) by (nonlinear_arith)
        requires
            mix(a, b, elapsed, period) == a * (period - elapsed) + b * elapsed,
    ;
    assert(mix(a, b, elapsed, period) == b * period - (b - a) * (period - elapsed))
        by (nonlinear_arith)
        requires
            mix(a, b, elapsed, period) == a * (period - elapsed) + b * elapsed,
    ;
    assert(a <= b ==> (b - a) * elapsed >= 0 && (b - a) * (period - elapsed) >= 0)
        by (nonlinear_arith)
        requires
            0 <= elapsed <= period,
    ;
    assert(b <= a ==> (b - a) * elapsed <= 0 && (b - a) * (period - elapsed) <= 0)
        by (nonlinear_arith)
        requires
            0 <= elapsed <= period,
    ;
    assert(mix(a, b, 0, period) == a * period && mix(a, b, period, period) == b * period)
        by (nonlinear_arith);
}

/// `a * wa + b * wb`, where it fits.
fn weighted(a: u128, wa: u128, b: u128, wb: u128) -> (r: Option<u128>)
    ensures
        r == if a * wa + b * wb <= u128::MAX {
            Some((a * wa + b * wb) as u128)
        } else {
            None
        },
{
    assert(a * wa >= 0 && b * wb >= 0) by (nonlinear_arith)
        requires
            a >= 0,
            wa >= 0,
            b >= 0,
            wb >= 0,
    ;
    match (a.checked_mul(wa), b.checked_mul(wb)) {
        (Some(left), Some(right)) => left.checked_add(right),
        _ => None,
    }
}

/// The point that lies the fraction `elapsed / period` of the way from `a` to `b`, where
/// it can be given.
pub fn interpolate(a: Point, b: Point, elapsed: u32, period: u32) -> (r: Option<Point>)
    ensures
        r == if can_mix(a, b, elapsed as int, period as int) {
            Some(mixed(a, b, elapsed as int, period as int))
        } else {
            None
        },
{
    if period == 0 || elapsed > period || a.x.den != b.x.den || a.y.den != b.y.den {
        return None;
    }
    let rest: u128 = (period - elapsed) as u128;
    let done: u128 = elapsed as u128;
    let whole: u128 = period as u128;
    match (
        weighted(a.x.num, rest, b.x.num, done),
        weighted(a.y.num, rest, b.y.num, done),
        a.x.den.checked_mul(whole),
        a.y.den.checked_mul(whole),
    ) {
        (Some(x_num), Some(y_num), Some(x_den), Some(y_den)) => Some(
            Point {
                x: Fraction { num: x_num, den: x_den },
                y: Fraction { num: y_num, den: y_den },
            },
        ),
        _ => None,
    }
}

/// Between any two nodes of a layout, the point at any progress can be given.
pub proof fn lemma_layout_mixes(
    l: Layout,
    depths: Seq<usize>,
    max_depth: usize,
    viewport: Viewport,
    i: int,
    j: int,
    elapsed: int,
    period: int,
)
    requires
        bounded_by(depths, max_depth),
        is_layout_of(l, depths, max_depth, viewport),
        0 <= i < depths.len(),
        0 <= j < depths.len(),
        0 <= elapsed <= period,
        0 < period <= u32::MAX,
    ensures
        can_mix(l.positions[i], l.positions[j], elapsed, period),
{
    let a = l.positions[i];
    let b = l.positions[j];
    let w = viewport.width as int;
    let h = viewport.height as int;
    lemma_centred(depths, i);
    lemma_centred(depths, j);
    lemma_x_inside(l.x_axis, tree_width(depths), w, half_columns_of(depths, i));
    lemma_x_inside(l.x_axis, tree_width(depths), w, half_columns_of(depths, j));
    lemma_y_inside(l.y_axis, max_depth as int, h, depths[i] as int);
    lemma_y_inside(l.y_axis, max_depth as int, h, depths[j] as int);
    let ex = extent(tree_width(depths) - 1);
    let ey = extent(max_depth as int);
    let cap = 0xFFFF * (10 * 0xFFFF_FFFF_FFFF_FFFF);
    assert(w * (10 * ex) <= cap && h * (10 * ey) <= cap) by (nonlinear_arith)
        requires
            0 <= w <= 0xFFFF,
            0 <= h <= 0xFFFF,
            0 <= ex <= 0xFFFF_FFFF_FFFF_FFFF,
            0 <= ey <= 0xFFFF_FFFF_FFFF_FFFF,
            cap == 0xFFFF * (10 * 0xFFFF_FFFF_FFFF_FFFF),
    ;
    lemma_mix_between(a.x.num as int, b.x.num as int, elapsed, period);
    lemma_mix_between(a.y.num as int, b.y.num as int, elapsed, period);
    assert(a.x.num * period <= cap * 0xFFFF_FFFF && b.x.num * period <= cap * 0xFFFF_FFFF
        && a.y.num * period <= cap * 0xFFFF_FFFF && b.y.num * period <= cap * 0xFFFF_FFFF
        && a.x.den * period <= cap * 0xFFFF_FFFF && a.y.den * period <= cap * 0xFFFF_FFFF)
        by (nonlinear_arith)
        requires
            0 <= a.x.num <= cap,
            0 <= b.x.num <= cap,
            0 <= a.y.num <= cap,
            0 <= b.y.num <= cap,
            0 <= a.x.den <= cap,
            0 <= a.y.den <= cap,
            0 < period <= 0xFFFF_FFFF,
    ;
}

/// Taking the offsets from the point of a node and dividing by the scales gives back the
/// place of the node on the grid, exactly.
pub proof fn lemma_layout_round_trip(
    l: Layout,
    depths: Seq<usize>,
    max_depth: usize,
    viewport: Viewport,
    i: int,
)
    requires
        is_layout_of(l, depths, max_depth, viewport),
        0 <= i < depths.len(),
        viewport.width > 0,
        viewport.height > 0,
    ensures
        (l.positions[i].x.num - l.x_axis.origin) / (l.x_axis.step as int)
            == l.grid.cells[i].half_columns(),
        (l.positions[i].x.num - l.x_axis.origin) % (l.x_axis.step as int) == 0,
        (l.positions[i].y.num - l.y_axis.origin) / (l.y_axis.step as int) == l.grid.cells[i].row,
        (l.positions[i].y.num - l.y_axis.origin) % (l.y_axis.step as int) == 0,
{
    lemma_round_trip(l.x_axis, l.grid.cells[i].half_columns());
    lemma_round_trip(l.y_axis, l.grid.cells[i].row as int);
}

} // verus!
