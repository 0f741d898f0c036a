//! Points, polygon rings and bounding boxes.
use vstd::prelude::*;
use geo::Contains;

verus! {

/// Fixed-point steps per unit of the source coordinates (millionths).
pub const SCALE: i64 = 1_000_000;

/// Largest magnitude a coordinate may have, in steps (a billion units).
pub const COORD_LIMIT: i64 = 1_000_000_000_000_000;

/// A point, in fixed-point steps.
#[derive(Clone, Copy, Debug, PartialEq, Eq, Structural)]
pub struct Coord {
    pub x: i64,
    pub y: i64,
}

/// A polygon: one exterior ring and zero or more holes.
#[derive(Clone, Debug)]
pub struct Polygon {
    pub exterior: Vec<Coord>,
    pub interiors: Vec<Vec<Coord>>,
}

/// A value lies within the coordinate range.
pub open spec fn value_ok(v: int) -> bool {
    -COORD_LIMIT <= v <= COORD_LIMIT
}

pub open spec fn coord_ok(c: Coord) -> bool {
    value_ok(c.x as int) && value_ok(c.y as int)
}

pub open spec fn ring_ok(r: Seq<Coord>) -> bool {
    forall|i: int| 0 <= i < r.len() ==> coord_ok(#[trigger] r[i])
}

/// Squared Euclidean distance.
pub open spec fn dist2(a: Coord, b: Coord) -> int {
    (a.x - b.x) * (a.x - b.x) + (a.y - b.y) * (a.y - b.y)
}

/// `dx² + dy²`, for components of at most four times the coordinate range.
pub fn squared_length(dx: i128, dy: i128) -> (r: i128)
    requires
        -4 * COORD_LIMIT <= dx <= 4 * COORD_LIMIT,
        -4 * COORD_LIMIT <= dy <= 4 * COORD_LIMIT,
    ensures
        r == dx * dx + dy * dy,
        0 <= r <= 32_000_000_000_000_000_000_000_000_000_000,
{
    proof {
        assert(0 <= dx * dx <= 16_000_000_000_000_000_000_000_000_000_000) by (nonlinear_arith)
            requires
                -4_000_000_000_000_000 <= dx <= 4_000_000_000_000_000,
        ;
        assert(0 <= dy * dy <= 16_000_000_000_000_000_000_000_000_000_000) by (nonlinear_arith)
            requires
                -4_000_000_000_000_000 <= dy <= 4_000_000_000_000_000,
        ;
    }
    dx * dx + dy * dy
}

/// Squared distance between two points within the range.
pub fn squared_distance(a: Coord, b: Coord) -> (r: i128)
    requires
        coord_ok(a),
        coord_ok(b),
    ensures
        r == dist2(a, b),
{
    squared_length(a.x as i128 - b.x as i128, a.y as i128 - b.y as i128)
}

/// The holes of a polygon, as sequences.
pub open spec fn holes_view(p: &Polygon) -> Seq<Seq<Coord>> {
    p.interiors@.map_values(|h: Vec<Coord>| h@)
}

impl Polygon {
    /// Every coordinate of every ring lies within the coordinate range.
    pub open spec fn wf(&self) -> bool {
        &&& ring_ok(self.exterior@)
        &&& forall|i: int| 0 <= i < self.interiors@.len() ==> ring_ok(#[trigger] self.interiors@[i]@)
    }
}

/// Whether a point lies in the interior of a polygon (not on its boundary,
/// not in a hole), as geo decides it.
pub uninterp spec fn polygon_contains(exterior: Seq<Coord>, holes: Seq<Seq<Coord>>, p: Coord) -> bool;

/// Relies on geo's `Contains<Point>` for `Polygon<i128>` (winding number with
/// exact integer orientation tests): the answer depends on the rings and the
/// point alone. Coordinates within the range keep geo's products inside `i128`.
#[verifier::external_body]
pub(crate) fn polygon_contains_point(poly: &Polygon, p: Coord) -> (r: bool)
    requires
        poly.wf(),
        coord_ok(p),
    ensures
        r == polygon_contains(poly.exterior@, holes_view(poly), p),
{
    let ring = |r: &Vec<Coord>| r.iter().map(|c| (c.x as i128, c.y as i128)).collect::<Vec<_>>();
    let holes = poly.interiors.iter().map(|h| geo::LineString::from(ring(h))).collect();
    let shape = geo::Polygon::new(geo::LineString::from(ring(&poly.exterior)), holes);
    shape.contains(&geo::Point::new(p.x as i128, p.y as i128))
}

/// The axis-aligned bounding box `(min_x, min_y, max_x, max_y)` of a ring.
pub open spec fn is_bounds_of(r: Seq<Coord>, b: (i64, i64, i64, i64)) -> bool {
    &&& forall|i: int| 0 <= i < r.len() ==> b.0 <= (#[trigger] r[i]).x <= b.2 && b.1 <= r[i].y <= b.3
    &&& exists|i: int| 0 <= i < r.len() && #[trigger] r[i].x == b.0
    &&& exists|i: int| 0 <= i < r.len() && #[trigger] r[i].y == b.1
    &&& exists|i: int| 0 <= i < r.len() && #[trigger] r[i].x == b.2
    &&& exists|i: int| 0 <= i < r.len() && #[trigger] r[i].y == b.3
}

/// Bounding box of the exterior ring, scanned once.
pub fn calculate_polygon_bounds(polygon: &Polygon) -> (b: (i64, i64, i64, i64))
    requires
        polygon.exterior@.len() > 0,
    ensures
        is_bounds_of(polygon.exterior@, b),
{
    let ring = &polygon.exterior;
    let first = ring[0];
    let mut b = (first.x, first.y, first.x, first.y);
    let mut i: usize = 1;
    assert(ring@.subrange(0, 1)[0] == first);
    while i < ring.len()
        invariant
            1 <= i <= ring@.len(),
            ring@ == polygon.exterior@,
            is_bounds_of(ring@.subrange(0, i as int), b),
        decreases ring@.len() - i,
    {
        let c = ring[i];
        let ghost old_b = b;
        if c.x < b.0 {
            b.0 = c.x;
        }
        if c.y < b.1 {
            b.1 = c.y;
        }
        if c.x > b.2 {
            b.2 = c.x;
        }
        if c.y > b.3 {
            b.3 = c.y;
        }
        proof {
            let s = ring@.subrange(0, i as int);
            let t = ring@.subrange(0, i + 1);
            assert(t[i as int] == c);
            assert forall|k: int| 0 <= k < s.len() implies t[k] == s[k] by {}
            if b.0 == old_b.0 {
                let w = choose|k: int| 0 <= k < s.len() && #[trigger] s[k].x == old_b.0;
                assert(t[w].x == b.0);
            } else {
                assert(t[i as int].x == b.0);
            }
            if b.1 == old_b.1 {
                let w = choose|k: int| 0 <= k < s.len() && #[trigger] s[k].y == old_b.1;
                assert(t[w].y == b.1);
            } else {
                assert(t[i as int].y == b.1);
            }
            if b.2 == old_b.2 {
                let w = choose|k: int| 0 <= k < s.len() && #[trigger] s[k].x == old_b.2;
                assert(t[w].x == b.2);
            } else {
                assert(t[i as int].x == b.2);
            }
            if b.3 == old_b.3 {
                let w = choose|k: int| 0 <= k < s.len() && #[trigger] s[k].y == old_b.3;
                assert(t[w].y == b.3);
            } else {
                assert(t[i as int].y == b.3);
            }
        }
        i = i + 1;
    }
    assert(ring@.subrange(0, ring@.len() as int) =~= ring@);
    b
}

} // verus!
