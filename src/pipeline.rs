//! The per-polygon pipeline: text → polygon → bounds → sampling → jitter.
use vstd::prelude::*;
use vstd::string::StringSliceAdditionalSpecFns;
use rand::rngs::StdRng;
use crate::geometry::{
    calculate_polygon_bounds, coord_ok, holes_view, is_bounds_of, polygon_contains, Coord,
    Polygon, COORD_LIMIT, SCALE,
};
use crate::grid::{
    bounds_ok, cell_size_for, grid_cell_count, grid_cells, in_bounds, one_per_cell, spaced,
    MAX_GRID_CELLS,
};
use crate::jitter::{apply_jitter, jittered};
use crate::sampling::{grown, SpatialDistributionSampler};
use crate::wkt_text::{geometry_of, parse_geometry, GeometryError};

verus! {

/// What one kind of vegetation is generated with.
#[derive(Clone, Copy, Debug, PartialEq, Eq, Structural)]
pub struct VegetationParams {
    pub vegetation_type: u8,
    /// Least distance between two generated points, in steps.
    pub density: i64,
    /// Radius of the random displacement of each point, in steps.
    pub variation: i64,
    /// Code written beside each exported point.
    pub type_value: u8,
}

impl VegetationParams {
    /// A minimum distance and a variation that the sampler accepts.
    pub open spec fn valid(&self) -> bool {
        &&& 0 < self.density <= COORD_LIMIT
        &&& 0 <= self.variation <= COORD_LIMIT
    }
}

/// The parameters that each known kind of vegetation starts with: trees,
/// surfaces and rock gardens.
pub open spec fn default_params_spec(vegetation_type: i8) -> Option<VegetationParams> {
    if vegetation_type == 1 {
        Some(VegetationParams { vegetation_type: 1, density: 28_000_000, variation: 1_000_000, type_value: 10 })
    } else if vegetation_type == 2 {
        Some(VegetationParams { vegetation_type: 2, density: 5_000_000, variation: 500_000, type_value: 20 })
    } else if vegetation_type == 3 {
        Some(VegetationParams { vegetation_type: 3, density: 3_000_000, variation: 300_000, type_value: 30 })
    } else {
        None
    }
}

/// The built-in parameters of a kind of vegetation, if it is a known one.
pub fn default_vegetation_params(vegetation_type: i8) -> (r: Option<VegetationParams>)
    ensures
        r == default_params_spec(vegetation_type),
        r matches Some(p) ==> p.valid(),
{
    if vegetation_type == 1 {
        Some(VegetationParams { vegetation_type: 1, density: 28 * SCALE, variation: SCALE, type_value: 10 })
    } else if vegetation_type == 2 {
        Some(VegetationParams { vegetation_type: 2, density: 5 * SCALE, variation: SCALE / 2, type_value: 20 })
    } else if vegetation_type == 3 {
        Some(VegetationParams { vegetation_type: 3, density: 3 * SCALE, variation: 3 * SCALE / 10, type_value: 30 })
    } else {
        None
    }
}

/// Why parameters were refused for storage as a user's own.
#[derive(Clone, Copy, Debug, PartialEq, Eq, Structural)]
pub enum ParamsError {
    /// Kinds of vegetation are numbered from one.
    InvalidVegetationType(i8),
    /// The minimum distance is negative.
    NegativeDensity,
}

/// Checks parameters before they are stored for a kind of vegetation.
pub fn check_user_params(vegetation_type: i8, params: &VegetationParams) -> (r: Result<(), ParamsError>)
    ensures
        vegetation_type < 1 ==> r == Err::<(), ParamsError>(ParamsError::InvalidVegetationType(vegetation_type)),
        vegetation_type >= 1 && params.density < 0 ==> r == Err::<(), ParamsError>(ParamsError::NegativeDensity),
        vegetation_type >= 1 && params.density >= 0 ==> r is Ok,
{
    if vegetation_type < 1 {
        return Err(ParamsError::InvalidVegetationType(vegetation_type));
    }
    if params.density < 0 {
        return Err(ParamsError::NegativeDensity);
    }
    Ok(())
}

/// The stored parameters of a kind of vegetation, or else a five-unit
/// distance, no variation and type code 10.
pub fn params_or_fallback(vegetation_type: u8, stored: Option<VegetationParams>) -> (r: VegetationParams)
    ensures
        r == match stored {
            Some(p) => p,
            None => VegetationParams { vegetation_type, density: 5_000_000, variation: 0, type_value: 10 },
        },
{
    match stored {
        Some(p) => p,
        None => VegetationParams { vegetation_type, density: 5 * SCALE, variation: 0, type_value: 10 },
    }
}

/// Why no points were produced for a polygon text.
#[derive(Clone, Copy, Debug, PartialEq, Eq, Structural)]
pub enum PolygonError {
    /// The text does not read as a polygon.
    Geometry(GeometryError),
    /// The sampling grid for this polygon and distance would not fit in
    /// memory.
    TooManyCells,
}

/// Points accepted by the sampler inside a polygon with box `b`: in the
/// box, inside the polygon, one per cell, any two at least `d` apart, and
/// each after the first at a distance in `[d, 2d)` from an earlier one.
pub open spec fn accepted(
    ring: Seq<Coord>,
    holes: Seq<Seq<Coord>>,
    b: (i64, i64, i64, i64),
    d: int,
    pts: Seq<Coord>,
) -> bool {
    &&& forall|i: int|
        0 <= i < pts.len() ==> in_bounds(b, #[trigger] pts[i]) && polygon_contains(
            ring,
            holes,
            pts[i],
        )
    &&& spaced(d, pts)
    &&& one_per_cell(b, cell_size_for(d), pts)
    &&& grown(pts, d)
}

/// `out` is a set of accepted points, jittered by less than `v`.
pub open spec fn placed(
    ring: Seq<Coord>,
    holes: Seq<Seq<Coord>>,
    b: (i64, i64, i64, i64),
    d: int,
    v: int,
    out: Seq<Coord>,
) -> bool {
    exists|pts: Seq<Coord>| #[trigger] accepted(ring, holes, b, d, pts) && jittered(pts, out, v)
}

proof fn lemma_bounds_ok(ring: Seq<Coord>, b: (i64, i64, i64, i64))
    requires
        crate::geometry::ring_ok(ring),
        is_bounds_of(ring, b),
    ensures
        bounds_ok(b),
{
    let i = choose|i: int| 0 <= i < ring.len() && #[trigger] ring[i].x == b.0;
    let j = choose|i: int| 0 <= i < ring.len() && #[trigger] ring[i].y == b.1;
    let k = choose|i: int| 0 <= i < ring.len() && #[trigger] ring[i].x == b.2;
    let l = choose|i: int| 0 <= i < ring.len() && #[trigger] ring[i].y == b.3;
    assert(coord_ok(ring[i]) && coord_ok(ring[j]) && coord_ok(ring[k]) && coord_ok(ring[l]));
}

proof fn lemma_bounds_unique(ring: Seq<Coord>, b: (i64, i64, i64, i64), c: (i64, i64, i64, i64))
    requires
        is_bounds_of(ring, b),
        is_bounds_of(ring, c),
    ensures
        b == c,
{
    let i = choose|i: int| 0 <= i < ring.len() && #[trigger] ring[i].x == b.0;
    let j = choose|i: int| 0 <= i < ring.len() && #[trigger] ring[i].x == c.0;
    assert(b.0 <= ring[j].x && c.0 <= ring[i].x);
    let i = choose|i: int| 0 <= i < ring.len() && #[trigger] ring[i].y == b.1;
    let j = choose|i: int| 0 <= i < ring.len() && #[trigger] ring[i].y == c.1;
    assert(b.1 <= ring[j].y && c.1 <= ring[i].y);
    let i = choose|i: int| 0 <= i < ring.len() && #[trigger] ring[i].x == b.2;
    let j = choose|i: int| 0 <= i < ring.len() && #[trigger] ring[i].x == c.2;
    assert(b.2 >= ring[j].x && c.2 >= ring[i].x);
    let i = choose|i: int| 0 <= i < ring.len() && #[trigger] ring[i].y == b.3;
    let j = choose|i: int| 0 <= i < ring.len() && #[trigger] ring[i].y == c.3;
    assert(b.3 >= ring[j].y && c.3 >= ring[i].y);
}

/// A polygon that holds no point of its box gets no points.
pub proof fn lemma_nothing_inside_nothing_placed(
    ring: Seq<Coord>,
    holes: Seq<Seq<Coord>>,
    b: (i64, i64, i64, i64),
    d: int,
    v: int,
    out: Seq<Coord>,
)
    requires
        placed(ring, holes, b, d, v, out),
        forall|p: Coord| in_bounds(b, p) ==> !#[trigger] polygon_contains(ring, holes, p),
    ensures
        out.len() == 0,
{
    let pts = choose|pts: Seq<Coord>| #[trigger] accepted(ring, holes, b, d, pts) && jittered(pts, out, v);
    if pts.len() > 0 {
        assert(in_bounds(b, pts[0]) && polygon_contains(ring, holes, pts[0]));
    }
}

/// Samples a polygon: a fresh sampler over the bounding box of its exterior
/// ring, then the jitter stage.
pub fn sample(polygon: &Polygon, min_distance: i64, variation: i64, rng: &mut StdRng) -> (r: Vec<Coord>)
    requires
        polygon.wf(),
        polygon.exterior@.len() > 0,
        0 < min_distance <= COORD_LIMIT,
        0 <= variation <= COORD_LIMIT,
        forall|b: (i64, i64, i64, i64)|
            #[trigger] is_bounds_of(polygon.exterior@, b) ==> grid_cells(b, min_distance as int)
                <= MAX_GRID_CELLS,
    ensures
        forall|b: (i64, i64, i64, i64)|
            #[trigger] is_bounds_of(polygon.exterior@, b) ==> placed(
                polygon.exterior@,
                holes_view(polygon),
                b,
                min_distance as int,
                variation as int,
                r@,
            ),
{
    let bounds = calculate_polygon_bounds(polygon);
    proof {
        lemma_bounds_ok(polygon.exterior@, bounds);
    }
    let mut sampler = SpatialDistributionSampler::new(min_distance, bounds);
    let points = sampler.generate_distribution(polygon, rng);
    proof {
        assert forall|i: int| 0 <= i < points@.len() implies coord_ok(#[trigger] points@[i]) by {
            assert(in_bounds(bounds, points@[i]));
        }
    }
    let out = apply_jitter(&points, variation, rng);
    proof {
        assert(accepted(
            polygon.exterior@,
            holes_view(polygon),
            bounds,
            min_distance as int,
            points@,
        ));
        assert forall|b: (i64, i64, i64, i64)|
            #[trigger] is_bounds_of(polygon.exterior@, b) implies placed(
            polygon.exterior@,
            holes_view(polygon),
            b,
            min_distance as int,
            variation as int,
            out@,
        ) by {
            lemma_bounds_unique(polygon.exterior@, b, bounds);
        }
    }
    out
}

/// Generates the points of a polygon: its bounding box is sized into a
/// grid, sampled and jittered; a grid past `MAX_GRID_CELLS` is refused.
pub fn fill_polygon(polygon: &Polygon, params: &VegetationParams, rng: &mut StdRng) -> (r: Result<
    Vec<Coord>,
    PolygonError,
>)
    requires
        polygon.wf(),
        polygon.exterior@.len() > 0,
        params.valid(),
    ensures
        forall|b: (i64, i64, i64, i64)|
            #[trigger] is_bounds_of(polygon.exterior@, b) ==> if grid_cells(b, params.density as int)
                > MAX_GRID_CELLS {
                r == Err::<Vec<Coord>, PolygonError>(PolygonError::TooManyCells)
            } else {
                r matches Ok(out) && placed(
                    polygon.exterior@,
                    holes_view(polygon),
                    b,
                    params.density as int,
                    params.variation as int,
                    out@,
                )
            },
{
    let bounds = calculate_polygon_bounds(polygon);
    proof {
        lemma_bounds_ok(polygon.exterior@, bounds);
        assert forall|b: (i64, i64, i64, i64)| #[trigger] is_bounds_of(polygon.exterior@, b) implies b == bounds by {
            lemma_bounds_unique(polygon.exterior@, b, bounds);
        }
    }
    match grid_cell_count(params.density, bounds) {
        None => Err(PolygonError::TooManyCells),
        Some(_) => Ok(sample(polygon, params.density, params.variation, rng)),
    }
}

/// Generates the points of one polygon text: it is read as a polygon and
/// filled as `fill_polygon` does.
pub fn distribute_points_in_polygon(
    polygon_str: &str,
    params: &VegetationParams,
    rng: &mut StdRng,
) -> (r: Result<Vec<Coord>, PolygonError>)
    requires
        params.valid(),
    ensures
        match geometry_of(polygon_str.spec_bytes()) {
            Err(e) => r == Err::<Vec<Coord>, PolygonError>(PolygonError::Geometry(e)),
            Ok(ring) => forall|b: (i64, i64, i64, i64)|
                #[trigger] is_bounds_of(ring, b) ==> if grid_cells(b, params.density as int)
                    > MAX_GRID_CELLS {
                    r == Err::<Vec<Coord>, PolygonError>(PolygonError::TooManyCells)
                } else {
                    r matches Ok(out) && placed(
                        ring,
                        Seq::empty(),
                        b,
                        params.density as int,
                        params.variation as int,
                        out@,
                    )
                },
        },
{
    let polygon = match parse_geometry(polygon_str) {
        Ok(p) => p,
        Err(e) => {
            return Err(PolygonError::Geometry(e));
        },
    };
    proof {
        assert(holes_view(&polygon) =~= Seq::<Seq<Coord>>::empty());
    }
    fill_polygon(&polygon, params, rng)
}

} // verus!
