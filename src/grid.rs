//! The uniform grid behind the sampler: cell size, grid dimensions and the
//! arithmetic facts that tie cells to distances.
use vstd::prelude::*;
use vstd::arithmetic::div_mod::{lemma_div_is_ordered, lemma_div_pos_is_pos, lemma_fundamental_div_mod, lemma_mod_pos_bound};
use crate::geometry::{dist2, value_ok, Coord, COORD_LIMIT};

verus! {

/// Most cells a grid may have: a `Vec` holds at most `isize::MAX` bytes, and
/// a cell takes sixteen.
pub const MAX_GRID_CELLS: usize = usize::MAX / 32;

/// A box `(min_x, min_y, max_x, max_y)` within the coordinate range.
pub open spec fn bounds_ok(b: (i64, i64, i64, i64)) -> bool {
    &&& value_ok(b.0 as int)
    &&& value_ok(b.1 as int)
    &&& value_ok(b.2 as int)
    &&& value_ok(b.3 as int)
    &&& b.0 <= b.2
    &&& b.1 <= b.3
}

/// A point lies in the closed box.
pub open spec fn in_bounds(b: (i64, i64, i64, i64), p: Coord) -> bool {
    b.0 <= p.x <= b.2 && b.1 <= p.y <= b.3
}

/// A square of edge `k` has a diagonal no longer than `d`.
pub open spec fn fits_cell(d: int, k: int) -> bool {
    2 * (k * k) <= d * d
}

/// The largest `k <= c` with `2k² <= d²` (0 if there is none).
pub open spec fn largest_cell(d: int, c: int) -> int
    decreases c,
{
    if c <= 0 {
        0
    } else if fits_cell(d, c) {
        c
    } else {
        largest_cell(d, c - 1)
    }
}

/// Cell edge for a minimum distance `d`: `d / √2` rounded down, but at
/// least one step.
pub open spec fn cell_size_for(d: int) -> int {
    let c = largest_cell(d, d);
    if c == 0 {
        1
    } else {
        c
    }
}

/// Cells along an extent: `ceil(extent / c) + 1`.
pub open spec fn cells_across(extent: int, c: int) -> int {
    (extent + c - 1) / c + 1
}

/// Cells of the grid for a box and a minimum distance.
pub open spec fn grid_cells(b: (i64, i64, i64, i64), d: int) -> int {
    let c = cell_size_for(d);
    cells_across(b.2 - b.0, c) * cells_across(b.3 - b.1, c)
}

/// Column (or row) of the cell holding coordinate `v`.
pub open spec fn cell_of(v: int, origin: int, c: int) -> int {
    (v - origin) / c
}

/// Two points lie in the same cell.
pub open spec fn same_cell(b: (i64, i64, i64, i64), c: int, p: Coord, q: Coord) -> bool {
    cell_of(p.x as int, b.0 as int, c) == cell_of(q.x as int, b.0 as int, c) && cell_of(
        p.y as int,
        b.1 as int,
        c,
    ) == cell_of(q.y as int, b.1 as int, c)
}

/// Any two of the points are at least `d` apart.
pub open spec fn spaced(d: int, pts: Seq<Coord>) -> bool {
    forall|i: int, j: int|
        #![trigger pts[i], pts[j]]
        0 <= i < pts.len() && 0 <= j < pts.len() && i != j ==> dist2(pts[i], pts[j]) >= d * d
}

/// No two points share a cell.
pub open spec fn one_per_cell(b: (i64, i64, i64, i64), c: int, pts: Seq<Coord>) -> bool {
    forall|i: int, j: int|
        #![trigger pts[i], pts[j]]
        0 <= i < pts.len() && 0 <= j < pts.len() && i != j ==> !same_cell(b, c, pts[i], pts[j])
}

proof fn lemma_largest_cell(d: int, c: int, lo: int)
    requires
        0 <= lo <= c,
        2 * (lo * lo) <= d * d,
        forall|k: int| lo < k <= c ==> !#[trigger] fits_cell(d, k),
    ensures
        largest_cell(d, c) == lo,
    decreases c,
{
    if c > lo {
        lemma_largest_cell(d, c - 1, lo);
    }
}

proof fn lemma_largest_cell_range(d: int, c: int)
    ensures
        0 <= largest_cell(d, c),
        c >= 0 ==> largest_cell(d, c) <= c,
    decreases c,
{
    if c > 0 && !fits_cell(d, c) {
        lemma_largest_cell_range(d, c - 1);
    }
}

/// The cell edge lies between one step and the minimum distance.
pub proof fn lemma_cell_size_range(d: int)
    requires
        1 <= d,
    ensures
        1 <= cell_size_for(d) <= d,
{
    lemma_largest_cell_range(d, d);
}

/// Coordinates less than `d` apart lie at most two cells apart, for a cell
/// edge of at least `d / 2`.
pub proof fn lemma_close_cells(a: int, b: int, c: int, d: int)
    requires
        1 <= c,
        d <= 2 * c,
        -d < a - b < d,
    ensures
        -2 <= a / c - b / c <= 2,
{
    lemma_fundamental_div_mod(a, c);
    lemma_fundamental_div_mod(b, c);
    vstd::arithmetic::div_mod::lemma_mod_bound(a, c);
    vstd::arithmetic::div_mod::lemma_mod_bound(b, c);
    if a / c - b / c >= 3 {
        assert(c * (a / c) - c * (b / c) >= 3 * c) by (nonlinear_arith)
            requires
                a / c - b / c >= 3,
                c >= 1,
        ;
    }
    if b / c - a / c >= 3 {
        assert(c * (b / c) - c * (a / c) >= 3 * c) by (nonlinear_arith)
            requires
                b / c - a / c >= 3,
                c >= 1,
        ;
    }
}

/// Points less than `d` apart have coordinates less than `d` apart.
pub proof fn lemma_close_axes(p: Coord, q: Coord, d: int)
    requires
        0 < d,
        dist2(p, q) < d * d,
    ensures
        -d < p.x - q.x < d,
        -d < p.y - q.y < d,
{
    let dx = p.x - q.x;
    let dy = p.y - q.y;
    assert(-d < dx < d && -d < dy < d) by (nonlinear_arith)
        requires
            dx * dx + dy * dy < d * d,
            0 < d,
    ;
}

/// Points that share a cell are closer than `d`, for a cell no wider than
/// `d / √2` (one step wide cells hold a single point).
pub proof fn lemma_same_cell_close(b: (i64, i64, i64, i64), c: int, d: int, p: Coord, q: Coord)
    requires
        1 <= c,
        2 * (c - 1) * (c - 1) < d * d,
        in_bounds(b, p),
        in_bounds(b, q),
        same_cell(b, c, p, q),
    ensures
        dist2(p, q) < d * d,
{
    lemma_close_within_cell(p.x - b.0, q.x - b.0, c);
    lemma_close_within_cell(p.y - b.1, q.y - b.1, c);
    let dx = p.x - q.x;
    let dy = p.y - q.y;
    assert(dx * dx <= (c - 1) * (c - 1)) by (nonlinear_arith)
        requires
            -(c - 1) <= dx <= c - 1,
    ;
    assert(dy * dy <= (c - 1) * (c - 1)) by (nonlinear_arith)
        requires
            -(c - 1) <= dy <= c - 1,
    ;
    assert(dx * dx + dy * dy < d * d) by (nonlinear_arith)
        requires
            dx * dx <= (c - 1) * (c - 1),
            dy * dy <= (c - 1) * (c - 1),
            2 * (c - 1) * (c - 1) < d * d,
    ;
}

proof fn lemma_close_within_cell(a: int, b: int, c: int)
    requires
        0 <= a,
        0 <= b,
        1 <= c,
        a / c == b / c,
    ensures
        -(c - 1) <= a - b <= c - 1,
{
    lemma_fundamental_div_mod(a, c);
    lemma_fundamental_div_mod(b, c);
    lemma_mod_pos_bound(a, c);
    lemma_mod_pos_bound(b, c);
}

/// A coordinate of the box falls in one of the `cells_across` cells.
pub proof fn lemma_cell_in_range(v: int, origin: int, extent: int, c: int)
    requires
        0 <= v - origin <= extent,
        1 <= c,
    ensures
        0 <= cell_of(v, origin, c) < cells_across(extent, c),
{
    lemma_div_pos_is_pos(v - origin, c);
    lemma_div_is_ordered(v - origin, extent + c - 1, c);
}

/// Row-major cell numbers lie within the grid.
pub proof fn lemma_index_in_grid(cx: int, cy: int, w: int, h: int)
    requires
        0 <= cx < w,
        0 <= cy < h,
    ensures
        0 <= cy * w + cx < w * h,
{
    assert(0 <= cy * w + cx < w * h) by (nonlinear_arith)
        requires
            0 <= cx < w,
            0 <= cy < h,
    ;
}

/// Row-major cell numbers tell cells apart.
pub proof fn lemma_index_injective(cx: int, cy: int, cx2: int, cy2: int, w: int)
    requires
        0 <= cx < w,
        0 <= cx2 < w,
        0 <= cy,
        0 <= cy2,
        cy * w + cx == cy2 * w + cx2,
    ensures
        cx == cx2,
        cy == cy2,
{
    if cy < cy2 {
        assert(cy * w + cx < cy2 * w + cx2) by (nonlinear_arith)
            requires
                0 <= cx < w,
                0 <= cx2,
                cy < cy2,
        ;
    } else if cy2 < cy {
        assert(cy2 * w + cx2 < cy * w + cx) by (nonlinear_arith)
            requires
                0 <= cx2 < w,
                0 <= cx,
                cy2 < cy,
        ;
    }
}

pub proof fn lemma_dist2_symmetric(p: Coord, q: Coord)
    ensures
        dist2(p, q) == dist2(q, p),
{
    assert((p.x - q.x) * (p.x - q.x) == (q.x - p.x) * (q.x - p.x)) by (nonlinear_arith);
    assert((p.y - q.y) * (p.y - q.y) == (q.y - p.y) * (q.y - p.y)) by (nonlinear_arith);
}

/// Cell edge for a minimum distance: `d / √2` rounded down, at least one.
pub fn cell_size(min_distance: i64) -> (c: i64)
    requires
        0 < min_distance <= COORD_LIMIT,
    ensures
        c == cell_size_for(min_distance as int),
        1 <= c <= min_distance,
        min_distance <= 2 * c,
        2 * (c - 1) * (c - 1) < min_distance * min_distance,
{
    let d = min_distance as u128;
    assert(d * d <= 1_000_000_000_000_000_000_000_000_000_000) by (nonlinear_arith)
        requires
            d <= 1_000_000_000_000_000,
    ;
    let dd = d * d;
    let mut lo: u128 = 0;
    let mut hi: u128 = d;
    assert(2 * (d * d) > d * d) by (nonlinear_arith)
        requires
            d > 0,
    ;
    while hi - lo > 1
        invariant
            lo < hi <= d,
            d == min_distance,
            dd == d * d,
            d <= COORD_LIMIT,
            d * d <= 1_000_000_000_000_000_000_000_000_000_000,
            2 * (lo * lo) <= dd,
            2 * (hi * hi) > dd,
        decreases hi - lo,
    {
        let mid = lo + (hi - lo) / 2;
        assert(mid * mid <= d * d) by (nonlinear_arith)
            requires
                mid <= d,
        ;
        let sq = mid * mid;
        if 2 * sq <= dd {
            lo = mid;
        } else {
            hi = mid;
        }
    }
    proof {
        assert forall|k: int| lo < k <= d implies !#[trigger] fits_cell(d as int, k) by {
            assert(2 * (k * k) >= 2 * (hi * hi)) by (nonlinear_arith)
                requires
                    k >= hi,
                    hi >= 0,
            ;
        }
        lemma_largest_cell(d as int, d as int, lo as int);
    }
    assert(hi == lo + 1);
    if lo >= 1 {
        assert(d <= 2 * lo) by (nonlinear_arith)
            requires
                2 * (hi * hi) > d * d,
                hi == lo + 1,
                lo >= 1,
                d >= 1,
        ;
    } else {
        assert(d <= 1) by (nonlinear_arith)
            requires
                2 * (hi * hi) > d * d,
                hi == 1,
                d >= 1,
        ;
    }
    if lo == 0 {
        assert(0 < d * d) by (nonlinear_arith)
            requires
                d > 0,
        ;
        1
    } else {
        assert(2 * (lo - 1) * (lo - 1) < 2 * (lo * lo)) by (nonlinear_arith)
            requires
                lo >= 1,
        ;
        lo as i64
    }
}

/// `ceil(extent / c) + 1`.
pub fn cells_along(extent: i64, c: i64) -> (r: u64)
    requires
        0 <= extent <= 2 * COORD_LIMIT,
        1 <= c <= COORD_LIMIT,
    ensures
        r == cells_across(extent as int, c as int),
        r >= 1,
{
    proof {
        lemma_div_pos_is_pos(extent + c - 1, c as int);
        lemma_div_is_ordered(extent + c - 1, 3 * COORD_LIMIT + c, c as int);
        assert((3 * COORD_LIMIT + c) / (c as int) <= 3 * COORD_LIMIT + 1) by (nonlinear_arith)
            requires
                c >= 1,
        ;
    }
    ((extent + (c - 1)) / c) as u64 + 1
}

/// Cells that the sampler's grid takes for a box and a minimum distance, or
/// `None` past `MAX_GRID_CELLS`.
pub fn grid_cell_count(min_distance: i64, bounds: (i64, i64, i64, i64)) -> (r: Option<usize>)
    requires
        0 < min_distance <= COORD_LIMIT,
        bounds_ok(bounds),
    ensures
        match r {
            Some(n) => n == grid_cells(bounds, min_distance as int) && n <= MAX_GRID_CELLS,
            None => grid_cells(bounds, min_distance as int) > MAX_GRID_CELLS,
        },
{
    let c = cell_size(min_distance);
    let w = cells_along(bounds.2 - bounds.0, c) as u128;
    let h = cells_along(bounds.3 - bounds.1, c) as u128;
    assert(w * h <= 0xffff_ffff_ffff_ffff * 0xffff_ffff_ffff_ffffu128) by (nonlinear_arith)
        requires
            w <= 0xffff_ffff_ffff_ffff,
            h <= 0xffff_ffff_ffff_ffff,
    ;
    let n = w * h;
    if n > MAX_GRID_CELLS as u128 {
        None
    } else {
        Some(n as usize)
    }
}

} // verus!
