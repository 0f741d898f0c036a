//! Blue-noise sampling inside a polygon (Bridson-style dart throwing over
//! a uniform grid).
use vstd::prelude::*;
use rand::rngs::StdRng;
use crate::geometry::{
    coord_ok, dist2, holes_view, polygon_contains, polygon_contains_point, squared_distance, value_ok,
    Coord, Polygon, COORD_LIMIT,
};
use crate::grid::{
    bounds_ok, cell_of, cell_size, cell_size_for, cells_across, cells_along, grid_cells, in_bounds,
    lemma_cell_in_range, lemma_close_axes, lemma_close_cells, lemma_dist2_symmetric,
    lemma_index_in_grid, lemma_index_injective, lemma_same_cell_close, one_per_cell, same_cell,
    spaced, MAX_GRID_CELLS,
};
use crate::rng::{annulus_offset, draw_between, in_annulus};

verus! {

/// How many points of the box are tried as a seed.
pub const SEED_TRIES: usize = 100;

/// Candidates tried around an active point before it is retired.
pub const MAX_ATTEMPTS: usize = 30;

/// Empty cells of a grid.
pub open spec fn count_none(s: Seq<Option<usize>>) -> nat
    decreases s.len(),
{
    if s.len() == 0 {
        0
    } else {
        count_none(s.drop_last()) + if s.last() is None {
            1nat
        } else {
            0nat
        }
    }
}

proof fn lemma_count_none_fill(s: Seq<Option<usize>>, k: int, v: usize)
    requires
        0 <= k < s.len(),
        s[k] is None,
    ensures
        count_none(s.update(k, Some(v))) + 1 == count_none(s),
    decreases s.len(),
{
    let t = s.update(k, Some(v));
    if k < s.len() - 1 {
        assert(t.drop_last() =~= s.drop_last().update(k, Some(v)));
        lemma_count_none_fill(s.drop_last(), k, v);
    } else {
        assert(t.drop_last() =~= s.drop_last());
    }
}

/// Each point after the first lies at a distance in `[d, 2d)` from an
/// earlier one.
pub open spec fn has_parent(pts: Seq<Coord>, i: int, d: int) -> bool {
    exists|j: int| 0 <= j < i && d * d <= #[trigger] dist2(pts[i], pts[j]) < 4 * (d * d)
}

pub open spec fn grown(pts: Seq<Coord>, d: int) -> bool {
    forall|i: int| 1 <= i < pts.len() ==> #[trigger] has_parent(pts, i, d)
}

proof fn lemma_grown_push(pts: Seq<Coord>, p: Coord, d: int, parent: int)
    requires
        grown(pts, d),
        0 <= parent < pts.len(),
        d * d <= dist2(p, pts[parent]) < 4 * (d * d),
    ensures
        grown(pts.push(p), d),
{
    let q = pts.push(p);
    assert forall|i: int| 1 <= i < q.len() implies #[trigger] has_parent(q, i, d) by {
        if i < pts.len() {
            assert(has_parent(pts, i, d));
            let j = choose|j: int| 0 <= j < i && d * d <= #[trigger] dist2(pts[i], pts[j]) < 4 * (d
                * d);
            assert(q[i] == pts[i] && q[j] == pts[j]);
            assert(d * d <= dist2(q[i], q[j]) < 4 * (d * d));
        } else {
            assert(q[i] == p && q[parent] == pts[parent]);
            assert(d * d <= dist2(q[i], q[parent]) < 4 * (d * d));
        }
    }
}

/// The point `o` away from `p`.
pub open spec fn moved(p: Coord, o: (i64, i64)) -> Coord {
    Coord { x: (p.x + o.0) as i64, y: (p.y + o.1) as i64 }
}

/// The sampler: a grid over a box, the accepted points and the frontier of
/// points that may still spawn candidates.
pub struct SpatialDistributionSampler {
    /// Least distance between two accepted points, in steps.
    pub min_distance: i64,
    /// Candidates tried around an active point before it is retired.
    pub max_attempts: usize,
    /// Edge of a grid cell: `min_distance / √2` rounded down.
    pub cell_size: i64,
    pub grid_width: usize,
    pub grid_height: usize,
    /// Row-major cells, each holding the index of the point in it.
    pub grid: Vec<Option<usize>>,
    /// Accepted points, in order of acceptance.
    pub points: Vec<Coord>,
    /// Indices of the points that may still spawn candidates.
    pub active_indices: Vec<usize>,
    /// `(min_x, min_y, max_x, max_y)` of the sampled area.
    pub bounds: (i64, i64, i64, i64),
}

impl SpatialDistributionSampler {
    pub open spec fn cell_x(&self, p: Coord) -> int {
        cell_of(p.x as int, self.bounds.0 as int, self.cell_size as int)
    }

    pub open spec fn cell_y(&self, p: Coord) -> int {
        cell_of(p.y as int, self.bounds.1 as int, self.cell_size as int)
    }

    pub open spec fn cell_index(&self, p: Coord) -> int {
        self.cell_y(p) * self.grid_width + self.cell_x(p)
    }

    /// Column of the cell that `add_point` writes: left of the box counts
    /// as column 0.
    pub open spec fn slot_x(&self, p: Coord) -> int {
        if p.x < self.bounds.0 {
            0
        } else {
            self.cell_x(p)
        }
    }

    pub open spec fn slot_y(&self, p: Coord) -> int {
        if p.y < self.bounds.1 {
            0
        } else {
            self.cell_y(p)
        }
    }

    /// The grid after `p` is registered under index `k`: its cell is
    /// overwritten, or nothing changes when the cell lies past the grid.
    pub open spec fn grid_with(&self, p: Coord, k: usize) -> Seq<Option<usize>> {
        if self.slot_x(p) < self.grid_width && self.slot_y(p) < self.grid_height {
            self.grid@.update(self.slot_y(p) * self.grid_width + self.slot_x(p), Some(k))
        } else {
            self.grid@
        }
    }

    /// Every accepted point is at least `min_distance` away from `p`.
    pub open spec fn clear_of_points(&self, p: Coord) -> bool {
        forall|j: int|
            0 <= j < self.points@.len() ==> dist2(p, #[trigger] self.points@[j])
                >= self.min_distance * self.min_distance
    }

    /// A candidate that the sampler takes: in the box, inside the polygon,
    /// clear of every accepted point.
    pub open spec fn acceptable(&self, polygon: &Polygon, c: Coord) -> bool {
        &&& in_bounds(self.bounds, c)
        &&& polygon_contains(polygon.exterior@, holes_view(polygon), c)
        &&& self.clear_of_points(c)
    }

    /// Index of the first acceptable point of `cands` from `k` on.
    pub open spec fn first_acceptable(&self, polygon: &Polygon, cands: Seq<Coord>, k: int) -> Option<
        int,
    >
        decreases cands.len() - k,
    {
        if k < 0 || k >= cands.len() {
            None
        } else if self.acceptable(polygon, cands[k]) {
            Some(k)
        } else {
            self.first_acceptable(polygon, cands, k + 1)
        }
    }

    /// Index of the first offset from `k` on whose candidate around `pivot`
    /// is acceptable.
    pub open spec fn first_fit(
        &self,
        polygon: &Polygon,
        pivot: Coord,
        offsets: Seq<Option<(i64, i64)>>,
        k: int,
    ) -> Option<int>
        decreases offsets.len() - k,
    {
        if k < 0 || k >= offsets.len() {
            None
        } else if offsets[k] matches Some(o) && self.acceptable(polygon, moved(pivot, o)) {
            Some(k)
        } else {
            self.first_fit(polygon, pivot, offsets, k + 1)
        }
    }

    pub open spec fn slot_ok(&self, k: int) -> bool {
        match self.grid@[k] {
            Some(j) => j < self.points@.len() && self.cell_index(self.points@[j as int]) == k,
            None => true,
        }
    }

    /// The grid, the points and the frontier agree, and the points are
    /// spaced.
    pub open spec fn wf(&self) -> bool {
        &&& 0 < self.min_distance <= COORD_LIMIT
        &&& bounds_ok(self.bounds)
        &&& self.cell_size == cell_size_for(self.min_distance as int)
        &&& 1 <= self.cell_size <= self.min_distance
        &&& self.min_distance <= 2 * self.cell_size
        &&& 2 * (self.cell_size - 1) * (self.cell_size - 1) < self.min_distance * self.min_distance
        &&& self.grid_width == cells_across(self.bounds.2 - self.bounds.0, self.cell_size as int)
        &&& self.grid_height == cells_across(self.bounds.3 - self.bounds.1, self.cell_size as int)
        &&& self.grid@.len() == self.grid_width * self.grid_height
        &&& 1 <= self.grid_width <= self.grid@.len()
        &&& 1 <= self.grid_height <= self.grid@.len()
        &&& self.grid@.len() <= MAX_GRID_CELLS
        &&& forall|i: int|
            0 <= i < self.points@.len() ==> in_bounds(self.bounds, #[trigger] self.points@[i])
        &&& forall|i: int|
            0 <= i < self.points@.len() ==> self.grid@[self.cell_index(#[trigger] self.points@[i])]
                == Some(i as usize)
        &&& forall|k: int| 0 <= k < self.grid@.len() ==> #[trigger] self.slot_ok(k)
        &&& self.active_indices@.len() <= self.points@.len()
        &&& forall|t: int|
            0 <= t < self.active_indices@.len() ==> #[trigger] self.active_indices@[t]
                < self.points@.len()
        &&& spaced(self.min_distance as int, self.points@)
        &&& count_none(self.grid@) + self.points@.len() == self.grid@.len()
    }

    /// The settings of a sampler are those of `other`.
    pub open spec fn same_setup(&self, other: &Self) -> bool {
        &&& self.min_distance == other.min_distance
        &&& self.max_attempts == other.max_attempts
        &&& self.cell_size == other.cell_size
        &&& self.grid_width == other.grid_width
        &&& self.grid_height == other.grid_height
        &&& self.bounds == other.bounds
    }

    proof fn lemma_cell_in_grid(&self, p: Coord)
        requires
            self.wf(),
            in_bounds(self.bounds, p),
        ensures
            0 <= self.cell_x(p) < self.grid_width,
            0 <= self.cell_y(p) < self.grid_height,
            0 <= self.cell_index(p) < self.grid@.len(),
    {
        lemma_cell_in_range(
            p.x as int,
            self.bounds.0 as int,
            self.bounds.2 - self.bounds.0,
            self.cell_size as int,
        );
        lemma_cell_in_range(
            p.y as int,
            self.bounds.1 as int,
            self.bounds.3 - self.bounds.1,
            self.cell_size as int,
        );
        lemma_index_in_grid(
            self.cell_x(p),
            self.cell_y(p),
            self.grid_width as int,
            self.grid_height as int,
        );
    }

    /// Points less than `min_distance` apart lie within two cells of each
    /// other along both axes.
    proof fn lemma_close_in_window(&self, p: Coord, q: Coord)
        requires
            self.wf(),
            dist2(p, q) < self.min_distance * self.min_distance,
        ensures
            -2 <= self.cell_x(p) - self.cell_x(q) <= 2,
            -2 <= self.cell_y(p) - self.cell_y(q) <= 2,
    {
        lemma_close_axes(p, q, self.min_distance as int);
        lemma_close_cells(
            p.x - self.bounds.0,
            q.x - self.bounds.0,
            self.cell_size as int,
            self.min_distance as int,
        );
        lemma_close_cells(
            p.y - self.bounds.1,
            q.y - self.bounds.1,
            self.cell_size as int,
            self.min_distance as int,
        );
    }

    /// A fresh sampler over `bounds`: an empty grid, no points.
    pub fn new(min_distance: i64, bounds: (i64, i64, i64, i64)) -> (s: Self)
        requires
            0 < min_distance <= COORD_LIMIT,
            bounds_ok(bounds),
            grid_cells(bounds, min_distance as int) <= MAX_GRID_CELLS,
        ensures
            s.wf(),
            s.min_distance == min_distance,
            s.bounds == bounds,
            s.max_attempts == MAX_ATTEMPTS,
            s.points@.len() == 0,
            s.active_indices@.len() == 0,
    {
        let cell = cell_size(min_distance);
        let w = cells_along(bounds.2 - bounds.0, cell);
        let h = cells_along(bounds.3 - bounds.1, cell);
        assert(w <= w * h && h <= w * h) by (nonlinear_arith)
            requires
                w >= 1,
                h >= 1,
        ;
        let grid_width = w as usize;
        let grid_height = h as usize;
        let n = grid_width * grid_height;
        let mut grid: Vec<Option<usize>> = Vec::new();
        let mut k: usize = 0;
        while k < n
            invariant
                k <= n,
                grid@.len() == k,
                forall|t: int| 0 <= t < k ==> #[trigger] grid@[t] is None,
                count_none(grid@) == k,
            decreases n - k,
        {
            let ghost before = grid@;
            grid.push(None);
            assert(grid@.drop_last() =~= before);
            k = k + 1;
        }
        let s = SpatialDistributionSampler {
            min_distance,
            max_attempts: MAX_ATTEMPTS,
            cell_size: cell,
            grid_width,
            grid_height,
            grid,
            points: Vec::new(),
            active_indices: Vec::new(),
            bounds,
        };
        assert forall|k: int| 0 <= k < s.grid@.len() implies #[trigger] s.slot_ok(k) by {}
        s
    }

    /// Column (or row) of the cell around which `is_point_valid` looks:
    /// the point's cell, clamped to the grid.
    fn window_cell(v: i64, origin: i64, cell: i64, cells: usize) -> (r: usize)
        requires
            value_ok(v as int),
            value_ok(origin as int),
            1 <= cell,
            1 <= cells <= MAX_GRID_CELLS,
        ensures
            r < cells,
            r == (if cell_of(v as int, origin as int, cell as int) < 0 {
                0
            } else if cell_of(v as int, origin as int, cell as int) >= cells {
                cells - 1
            } else {
                cell_of(v as int, origin as int, cell as int)
            }),
    {
        if v < origin {
            proof {
                let x = v - origin;
                vstd::arithmetic::div_mod::lemma_fundamental_div_mod(x, cell as int);
                vstd::arithmetic::div_mod::lemma_mod_bound(x, cell as int);
                assert(x / (cell as int) < 0) by (nonlinear_arith)
                    requires
                        x == (cell as int) * (x / (cell as int)) + x % (cell as int),
                        0 <= x % (cell as int),
                        x < 0,
                        cell >= 1,
                ;
            }
            0
        } else {
            let g = (v - origin) / cell;
            if g >= cells as i64 {
                cells - 1
            } else {
                g as usize
            }
        }
    }

    /// Whether `point` is at least `min_distance` from every accepted
    /// point. Only the 5×5 cells around the point's cell (clamped to the
    /// grid) are read: with cells no narrower than `min_distance / 2`, no
    /// closer point can lie further out.
    pub fn is_point_valid(&self, point: &Coord) -> (r: bool)
        requires
            self.wf(),
            coord_ok(*point),
        ensures
            r == self.clear_of_points(*point),
    {
        let p = *point;
        let (min_x, min_y, _, _) = self.bounds;
        let grid_x = Self::window_cell(p.x, min_x, self.cell_size, self.grid_width);
        let grid_y = Self::window_cell(p.y, min_y, self.cell_size, self.grid_height);
        let start_x = if grid_x >= 2 {
            grid_x - 2
        } else {
            0
        };
        let start_y = if grid_y >= 2 {
            grid_y - 2
        } else {
            0
        };
        let end_x = if grid_x + 2 < self.grid_width - 1 {
            grid_x + 2
        } else {
            self.grid_width - 1
        };
        let end_y = if grid_y + 2 < self.grid_height - 1 {
            grid_y + 2
        } else {
            self.grid_height - 1
        };
        let d = self.min_distance;
        let dd = crate::geometry::squared_length(d as i128, 0);
        let mut y = start_y;
        while y <= end_y
            invariant
                self.wf(),
                p == *point,
                coord_ok(p),
                start_x <= end_x + 1,
                end_x < self.grid_width,
                end_y < self.grid_height,
                start_y <= y,
                y <= end_y + 1,
                dd == d * d,
                d == self.min_distance,
                forall|j: int|
                    0 <= j < self.points@.len() && start_x <= self.cell_x(
                        #[trigger] self.points@[j],
                    ) <= end_x && start_y <= self.cell_y(self.points@[j]) <= end_y && self.cell_y(
                        self.points@[j],
                    ) < y ==> dist2(p, self.points@[j]) >= d * d,
            decreases end_y + 1 - y,
        {
            let mut x = start_x;
            while x <= end_x
                invariant
                    self.wf(),
                    p == *point,
                    coord_ok(p),
                    start_x <= x,
                    x <= end_x + 1,
                    end_x < self.grid_width,
                    y <= end_y,
                    end_y < self.grid_height,
                    start_y <= y,
                    dd == d * d,
                    d == self.min_distance,
                    forall|j: int|
                        0 <= j < self.points@.len() && start_x <= self.cell_x(
                            #[trigger] self.points@[j],
                        ) <= end_x && start_y <= self.cell_y(self.points@[j]) <= end_y && (
                        self.cell_y(self.points@[j]) < y || (self.cell_y(self.points@[j]) == y
                            && self.cell_x(self.points@[j]) < x)) ==> dist2(p, self.points@[j])
                            >= d * d,
                decreases end_x + 1 - x,
            {
                proof {
                    lemma_index_in_grid(
                        x as int,
                        y as int,
                        self.grid_width as int,
                        self.grid_height as int,
                    );
                }
                let idx = y * self.grid_width + x;
                if let Some(point_idx) = self.grid[idx] {
                    assert(self.slot_ok(idx as int));
                    let other = self.points[point_idx];
                    proof {
                        self.lemma_cell_in_grid(other);
                    }
                    if squared_distance(p, other) < dd {
                        assert(dist2(p, self.points@[point_idx as int]) < d * d);
                        return false;
                    }
                }
                proof {
                    assert forall|j: int|
                        0 <= j < self.points@.len() && start_x <= self.cell_x(
                            #[trigger] self.points@[j],
                        ) <= end_x && start_y <= self.cell_y(self.points@[j]) <= end_y && (
                        self.cell_y(self.points@[j]) < y || (self.cell_y(self.points@[j]) == y
                            && self.cell_x(self.points@[j]) < x + 1)) implies dist2(
                        p,
                        self.points@[j],
                    ) >= d * d by {
                        let q = self.points@[j];
                        if self.cell_y(q) == y && self.cell_x(q) == x {
                            self.lemma_cell_in_grid(q);
                            assert(self.grid@[self.cell_index(q)] == Some(j as usize));
                            lemma_index_injective(
                                x as int,
                                y as int,
                                self.cell_x(q),
                                self.cell_y(q),
                                self.grid_width as int,
                            );
                        }
                    }
                }
                x = x + 1;
            }
            y = y + 1;
        }
        proof {
            assert forall|j: int| 0 <= j < self.points@.len() implies dist2(
                p,
                #[trigger] self.points@[j],
            ) >= self.min_distance * self.min_distance by {
                let q = self.points@[j];
                if dist2(p, q) < d * d {
                    self.lemma_cell_in_grid(q);
                    self.lemma_close_in_window(p, q);
                }
            }
        }
        true
    }

    /// Registers `point`: appends it to the points, makes it active and
    /// writes its index into its cell (a point left of or below the box
    /// counts as lying in the first column or row; a cell past the grid is
    /// not written). A point in the box and clear of every accepted point
    /// keeps the sampler well formed.
    pub fn add_point(&mut self, point: Coord)
        requires
            old(self).wf(),
            coord_ok(point),
        ensures
            final(self).same_setup(old(self)),
            final(self).points@ == old(self).points@.push(point),
            final(self).active_indices@ == old(self).active_indices@.push(
                old(self).points@.len() as usize,
            ),
            final(self).grid@ == old(self).grid_with(point, old(self).points@.len() as usize),
            in_bounds(old(self).bounds, point) && old(self).clear_of_points(point) ==> final(self).wf() && count_none(final(self).grid@) + 1 == count_none(old(self).grid@),
    {
        let ghost pre = *self;
        let idx = self.points.len();
        let ghost fits = in_bounds(self.bounds, point) && self.clear_of_points(point);
        proof {
            if fits {
                self.lemma_cell_in_grid(point);
                let k = self.cell_index(point);
                if let Some(j) = self.grid@[k] {
                    assert(self.slot_ok(k));
                    let q = self.points@[j as int];
                    self.lemma_cell_in_grid(q);
                    lemma_index_injective(
                        self.cell_x(point),
                        self.cell_y(point),
                        self.cell_x(q),
                        self.cell_y(q),
                        self.grid_width as int,
                    );
                    lemma_same_cell_close(
                        self.bounds,
                        self.cell_size as int,
                        self.min_distance as int,
                        point,
                        q,
                    );
                    assert(false);
                }
                lemma_count_none_fill(self.grid@, k, idx);
            }
        }
        self.points.push(point);
        self.active_indices.push(idx);
        let (min_x, min_y, _, _) = self.bounds;
        let grid_x: i64 = if point.x < min_x {
            0
        } else {
            (point.x - min_x) / self.cell_size
        };
        let grid_y: i64 = if point.y < min_y {
            0
        } else {
            (point.y - min_y) / self.cell_size
        };
        proof {
            if point.x >= min_x {
                vstd::arithmetic::div_mod::lemma_div_pos_is_pos(point.x - min_x, self.cell_size as int);
            }
            if point.y >= min_y {
                vstd::arithmetic::div_mod::lemma_div_pos_is_pos(point.y - min_y, self.cell_size as int);
            }
        }
        if grid_x < self.grid_width as i64 && grid_y < self.grid_height as i64 {
            proof {
                lemma_index_in_grid(
                    grid_x as int,
                    grid_y as int,
                    self.grid_width as int,
                    self.grid_height as int,
                );
            }
            let grid_idx = (grid_y as usize) * self.grid_width + (grid_x as usize);
            self.grid.set(grid_idx, Some(idx));
        }
        proof {
            if fits {
                let k = pre.cell_index(point);
                let pts = self.points@;
                assert(pts[idx as int] == point);
                assert forall|i: int| 0 <= i < pts.len() implies in_bounds(
                    self.bounds,
                    #[trigger] pts[i],
                ) by {
                    if i < idx {
                        assert(pts[i] == pre.points@[i]);
                    }
                }
                assert forall|i: int| 0 <= i < pts.len() implies self.grid@[self.cell_index(
                    #[trigger] pts[i],
                )] == Some(i as usize) by {
                    if i < idx {
                        assert(pts[i] == pre.points@[i]);
                        pre.lemma_cell_in_grid(pts[i]);
                        assert(pre.grid@[pre.cell_index(pts[i])] == Some(i as usize));
                    }
                }
                assert forall|m: int| 0 <= m < self.grid@.len() implies #[trigger] self.slot_ok(
                    m,
                ) by {
                    if m != k {
                        assert(pre.slot_ok(m));
                        if let Some(j) = pre.grid@[m] {
                            assert(pts[j as int] == pre.points@[j as int]);
                        }
                    }
                }
                assert forall|t: int| 0 <= t < self.active_indices@.len() implies #[trigger] self.active_indices@[t]
                    < pts.len() by {
                    if t < pre.active_indices@.len() {
                        assert(self.active_indices@[t] == pre.active_indices@[t]);
                    }
                }
                assert forall|i: int, j: int|
                    #![trigger pts[i], pts[j]]
                    0 <= i < pts.len() && 0 <= j < pts.len() && i != j implies dist2(pts[i], pts[j])
                    >= self.min_distance * self.min_distance by {
                    if i < idx && j < idx {
                        assert(pts[i] == pre.points@[i]);
                        assert(pts[j] == pre.points@[j]);
                    } else if i == idx {
                        assert(pts[j] == pre.points@[j]);
                    } else {
                        assert(pts[i] == pre.points@[i]);
                        lemma_dist2_symmetric(pts[i], point);
                    }
                }
            }
        }
    }

    /// Offers a candidate: it is accepted, and registered as `add_point`
    /// does, exactly when it lies in the box, inside the polygon, and clear
    /// of every accepted point; otherwise nothing changes.
    pub fn offer_point(&mut self, polygon: &Polygon, candidate: Coord) -> (accepted: bool)
        requires
            old(self).wf(),
            polygon.wf(),
        ensures
            final(self).wf(),
            final(self).same_setup(old(self)),
            accepted == old(self).acceptable(polygon, candidate),
            accepted ==> final(self).points@ == old(self).points@.push(candidate)
                && final(self).active_indices@ == old(self).active_indices@.push(
                old(self).points@.len() as usize,
            ) && count_none(final(self).grid@) + 1 == count_none(old(self).grid@),
            !accepted ==> *final(self) == *old(self),
    {
        let (min_x, min_y, max_x, max_y) = self.bounds;
        if min_x <= candidate.x && candidate.x <= max_x && min_y <= candidate.y && candidate.y
            <= max_y {
            if polygon_contains_point(polygon, candidate) && self.is_point_valid(&candidate) {
                self.add_point(candidate);
                return true;
            }
        }
        false
    }

    /// Plants the seed: the first of `candidates` that lies in the box and
    /// inside the polygon is registered; `None` (and nothing changes) when
    /// none does.
    pub fn plant_seed(&mut self, polygon: &Polygon, candidates: &Vec<Coord>) -> (r: Option<usize>)
        requires
            old(self).wf(),
            old(self).points@.len() == 0,
            polygon.wf(),
        ensures
            final(self).wf(),
            final(self).same_setup(old(self)),
            match old(self).first_acceptable(polygon, candidates@, 0) {
                Some(k) => 0 <= k < candidates@.len() && old(self).acceptable(polygon, candidates@[k])
                    && r == Some(k as usize) && final(self).points@ == seq![candidates@[k]]
                    && final(self).active_indices@ == seq![0usize],
                None => r is None && *final(self) == *old(self),
            },
    {
        let ghost pre = *self;
        proof {
            lemma_first_acceptable(pre, polygon, candidates@, 0);
        }
        let mut k: usize = 0;
        let mut planted: Option<usize> = None;
        while k < candidates.len() && planted.is_none()
            invariant
                pre.wf(),
                pre.points@.len() == 0,
                polygon.wf(),
                k <= candidates@.len(),
                planted is None ==> *self == pre && pre.first_acceptable(polygon, candidates@, 0)
                    == pre.first_acceptable(polygon, candidates@, k as int),
                planted matches Some(m) ==> {
                    &&& m < candidates@.len()
                    &&& pre.first_acceptable(polygon, candidates@, 0) == Some(m as int)
                    &&& self.points@ == seq![candidates@[m as int]]
                    &&& self.active_indices@ == seq![0usize]
                    &&& self.wf()
                    &&& self.same_setup(&pre)
                },
            decreases candidates@.len() - k,
        {
            if self.offer_point(polygon, candidates[k]) {
                assert(self.points@ =~= seq![candidates@[k as int]]);
                assert(self.active_indices@ =~= seq![0usize]);
                planted = Some(k);
            }
            k = k + 1;
        }
        planted
    }

    /// One growth step from the active point at `slot`: the first offset
    /// whose candidate around that point `offer_point` accepts is
    /// registered; when there is none, the point leaves the frontier (its
    /// slot takes the last one).
    pub fn grow_step(&mut self, polygon: &Polygon, slot: usize, offsets: &Vec<Option<(i64, i64)>>) -> (accepted: bool)
        requires
            old(self).wf(),
            polygon.wf(),
            slot < old(self).active_indices@.len(),
            forall|k: int|
                0 <= k < offsets@.len() ==> (#[trigger] offsets@[k] matches Some(o) ==> in_annulus(
                    o,
                    old(self).min_distance as int,
                )),
        ensures
            final(self).wf(),
            final(self).same_setup(old(self)),
            ({
                let pivot = old(self).points@[old(self).active_indices@[slot as int] as int];
                match old(self).first_fit(polygon, pivot, offsets@, 0) {
                    Some(k) => accepted && final(self).points@ == old(self).points@.push(
                        moved(pivot, offsets@[k]->Some_0),
                    ) && final(self).active_indices@ == old(self).active_indices@.push(
                        old(self).points@.len() as usize,
                    ) && count_none(final(self).grid@) + 1 == count_none(old(self).grid@),
                    None => !accepted && final(self).points@ == old(self).points@ && final(self).grid@ == old(self).grid@ && final(self).active_indices@ == old(self).active_indices@.update(slot as int, old(self).active_indices@.last()).drop_last(),
                }
            }),
    {
        let ghost pre = *self;
        let pivot = self.points[self.active_indices[slot]];
        let mut k: usize = 0;
        let mut accepted = false;
        while k < offsets.len() && !accepted
            invariant
                pre.wf(),
                polygon.wf(),
                slot < pre.active_indices@.len(),
                pivot == pre.points@[pre.active_indices@[slot as int] as int],
                in_bounds(pre.bounds, pivot),
                k <= offsets@.len(),
                forall|m: int|
                    0 <= m < offsets@.len() ==> (#[trigger] offsets@[m] matches Some(o)
                        ==> in_annulus(o, pre.min_distance as int)),
                !accepted ==> *self == pre && pre.first_fit(polygon, pivot, offsets@, 0)
                    == pre.first_fit(polygon, pivot, offsets@, k as int),
                accepted ==> {
                    &&& self.wf()
                    &&& self.same_setup(&pre)
                    &&& pre.first_fit(polygon, pivot, offsets@, 0) matches Some(f)
                    &&& 0 <= f < offsets@.len()
                    &&& self.points@ == pre.points@.push(moved(pivot, offsets@[f]->Some_0))
                    &&& self.active_indices@ == pre.active_indices@.push(pre.points@.len() as usize)
                    &&& count_none(self.grid@) + 1 == count_none(pre.grid@)
                },
            decreases offsets@.len() - k,
        {
            if let Some((dx, dy)) = offsets[k] {
                let candidate = Coord { x: pivot.x + dx, y: pivot.y + dy };
                assert(candidate == moved(pivot, (dx, dy)));
                if self.offer_point(polygon, candidate) {
                    accepted = true;
                }
            }
            k = k + 1;
        }
        if accepted {
            return true;
        }
        let ghost before = self.active_indices@;
        self.active_indices.swap_remove(slot);
        proof {
            assert forall|t: int| 0 <= t < self.active_indices@.len() implies #[trigger] self.active_indices@[t]
                < self.points@.len() by {
                if t == slot {
                    assert(self.active_indices@[t] == before[before.len() - 1]);
                } else {
                    assert(self.active_indices@[t] == before[t]);
                }
            }
            assert forall|m: int| 0 <= m < self.grid@.len() implies #[trigger] self.slot_ok(m) by {
                assert(pre.slot_ok(m));
            }
        }
        false
    }

    /// Grows the accepted points inside `polygon`: `SEED_TRIES` random
    /// points of the box are offered as the seed; then, while the frontier
    /// is not empty, a random active point gets `max_attempts` random
    /// offsets in `[min_distance, 2·min_distance)` for `grow_step`.
    pub fn generate_distribution(&mut self, polygon: &Polygon, rng: &mut StdRng) -> (r: Vec<Coord>)
        requires
            old(self).wf(),
            old(self).points@.len() == 0,
            polygon.wf(),
        ensures
            final(self).wf(),
            final(self).same_setup(old(self)),
            r@ == final(self).points@,
            r@.len() <= old(self).grid_width * old(self).grid_height,
            final(self).active_indices@.len() == 0,
            forall|i: int|
                0 <= i < r@.len() ==> in_bounds(old(self).bounds, #[trigger] r@[i])
                    && polygon_contains(polygon.exterior@, holes_view(polygon), r@[i]),
            spaced(old(self).min_distance as int, r@),
            one_per_cell(old(self).bounds, old(self).cell_size as int, r@),
            grown(r@, old(self).min_distance as int),
    {
        let ghost pre = *self;
        let (min_x, min_y, max_x, max_y) = self.bounds;
        let mut seeds: Vec<Coord> = Vec::new();
        let mut tries: usize = 0;
        while tries < SEED_TRIES
            invariant
                min_x <= max_x,
                min_y <= max_y,
            decreases SEED_TRIES - tries,
        {
            let x = draw_between(rng, min_x, max_x);
            let y = draw_between(rng, min_y, max_y);
            seeds.push(Coord { x, y });
            tries = tries + 1;
        }
        match self.plant_seed(polygon, &seeds) {
            Some(k) => {
                assert(self.points@[0] == seeds@[k as int]);
            },
            None => {},
        }
        let d = self.min_distance;
        while self.active_indices.len() > 0
            invariant
                self.wf(),
                self.same_setup(&pre),
                polygon.wf(),
                d == self.min_distance,
                forall|i: int|
                    0 <= i < self.points@.len() ==> polygon_contains(
                        polygon.exterior@,
                        holes_view(polygon),
                        #[trigger] self.points@[i],
                    ),
                grown(self.points@, d as int),
            decreases 2 * count_none(self.grid@) + self.active_indices@.len(),
        {
            let n_active = self.active_indices.len();
            let slot = draw_between(rng, 0, (n_active - 1) as i64) as usize;
            let mut offsets: Vec<Option<(i64, i64)>> = Vec::new();
            let mut attempt: usize = 0;
            while attempt < self.max_attempts
                invariant
                    0 < d <= COORD_LIMIT,
                    forall|m: int|
                        0 <= m < offsets@.len() ==> (#[trigger] offsets@[m] matches Some(o)
                            ==> in_annulus(o, d as int)),
                decreases self.max_attempts - attempt,
            {
                offsets.push(annulus_offset(rng, d));
                attempt = attempt + 1;
            }
            let ghost start = *self;
            let ghost pivot_index = self.active_indices@[slot as int];
            let ghost pivot = self.points@[pivot_index as int];
            let accepted = self.grow_step(polygon, slot, &offsets);
            proof {
                if accepted {
                    let k = start.first_fit(polygon, pivot, offsets@, 0)->Some_0;
                    lemma_first_fit(start, polygon, pivot, offsets@, 0);
                    let o = offsets@[k]->Some_0;
                    let c = moved(pivot, o);
                    assert(self.points@[start.points@.len() as int] == c);
                    assert(in_bounds(start.bounds, pivot));
                    assert(dist2(c, pivot) == o.0 * o.0 + o.1 * o.1);
                    lemma_grown_push(start.points@, c, d as int, pivot_index as int);
                    assert forall|i: int| 0 <= i < self.points@.len() implies polygon_contains(
                        polygon.exterior@,
                        holes_view(polygon),
                        #[trigger] self.points@[i],
                    ) by {
                        if i < start.points@.len() {
                            assert(self.points@[i] == start.points@[i]);
                        }
                    }
                }
            }
        }
        let mut out: Vec<Coord> = Vec::new();
        let mut i: usize = 0;
        while i < self.points.len()
            invariant
                i <= self.points@.len(),
                out@ == self.points@.subrange(0, i as int),
            decreases self.points@.len() - i,
        {
            out.push(self.points[i]);
            assert(out@ =~= self.points@.subrange(0, i + 1));
            i = i + 1;
        }
        assert(out@ =~= self.points@);
        proof {
            assert forall|i: int, j: int|
                #![trigger out@[i], out@[j]]
                0 <= i < out@.len() && 0 <= j < out@.len() && i != j implies !same_cell(
                    self.bounds,
                    self.cell_size as int,
                    out@[i],
                    out@[j],
                ) by {
                if same_cell(self.bounds, self.cell_size as int, out@[i], out@[j]) {
                    lemma_same_cell_close(
                        self.bounds,
                        self.cell_size as int,
                        self.min_distance as int,
                        out@[i],
                        out@[j],
                    );
                }
            }
        }
        out
    }
}

/// The index that `first_acceptable` finds holds an acceptable point.
proof fn lemma_first_acceptable(s: SpatialDistributionSampler, polygon: &Polygon, cands: Seq<Coord>, k: int)
    ensures
        s.first_acceptable(polygon, cands, k) matches Some(m) ==> k <= m < cands.len()
            && s.acceptable(polygon, cands[m]),
    decreases cands.len() - k,
{
    if 0 <= k < cands.len() && !s.acceptable(polygon, cands[k]) {
        lemma_first_acceptable(s, polygon, cands, k + 1);
    }
}

/// The index that `first_fit` finds holds an offset whose candidate is
/// acceptable.
proof fn lemma_first_fit(
    s: SpatialDistributionSampler,
    polygon: &Polygon,
    pivot: Coord,
    offsets: Seq<Option<(i64, i64)>>,
    k: int,
)
    ensures
        s.first_fit(polygon, pivot, offsets, k) matches Some(m) ==> k <= m < offsets.len()
            && offsets[m] is Some && s.acceptable(polygon, moved(pivot, offsets[m]->Some_0)),
    decreases offsets.len() - k,
{
    if 0 <= k < offsets.len() && !(offsets[k] matches Some(o) && s.acceptable(
        polygon,
        moved(pivot, o),
    )) {
        lemma_first_fit(s, polygon, pivot, offsets, k + 1);
    }
}

} // verus!
