use rand::rngs::StdRng;
use rand::SeedableRng;
use vegepoly::geometry::{Coord, Polygon, SCALE};
use vegepoly::grid::{cell_size, grid_cell_count};
use vegepoly::jitter::{apply_jitter, shift};
use vegepoly::rng::{annulus_pick, disc_pick};
use vegepoly::pipeline::{
    default_vegetation_params, distribute_points_in_polygon, sample, PolygonError, VegetationParams,
};
use vegepoly::sampling::SpatialDistributionSampler;
use vegepoly::wkt_text::{parse_geometry, GeometryError};

fn c(x: i64, y: i64) -> Coord {
    Coord { x: x * SCALE, y: y * SCALE }
}

fn rect(w: i64, h: i64) -> Polygon {
    Polygon { exterior: vec![c(0, 0), c(w, 0), c(w, h), c(0, h), c(0, 0)], interiors: vec![] }
}

fn d2(a: &Coord, b: &Coord) -> i128 {
    let dx = (a.x - b.x) as i128;
    let dy = (a.y - b.y) as i128;
    dx * dx + dy * dy
}

fn strictly_inside(p: &Coord, w: i64, h: i64) -> bool {
    p.x > 0 && p.x < w * SCALE && p.y > 0 && p.y < h * SCALE
}

/// Pairs of points closer than `d`.
fn close_pairs(pts: &[Coord], d: i64) -> usize {
    let mut bad = 0;
    for i in 0..pts.len() {
        for j in (i + 1)..pts.len() {
            if d2(&pts[i], &pts[j]) < (d as i128) * (d as i128) {
                bad += 1;
            }
        }
    }
    bad
}

#[test]
fn cell_size_is_distance_over_root_two() {
    assert_eq!(cell_size(1), 1);
    assert_eq!(cell_size(2), 1);
    assert_eq!(cell_size(100), 70);
    assert_eq!(cell_size(10 * SCALE), 7_071_067);
}

#[test]
fn grid_cell_count_values() {
    // 100 units over cells of 7.071067 units: ceil(14.14..) + 1 = 16 a side.
    assert_eq!(grid_cell_count(10 * SCALE, (0, 0, 100 * SCALE, 100 * SCALE)), Some(256));
    assert_eq!(grid_cell_count(1, (0, 0, 0, 0)), Some(1));
    let huge = 1_000_000_000_000_000;
    assert_eq!(grid_cell_count(1, (-huge, -huge, huge, huge)), None);
}

#[test]
fn sampler_grid_rejects_close_points() {
    let mut s = SpatialDistributionSampler::new(10 * SCALE, (0, 0, 100 * SCALE, 100 * SCALE));
    assert_eq!(s.grid.len(), s.grid_width * s.grid_height);
    assert!(s.is_point_valid(&c(50, 50)));
    s.add_point(c(50, 50));
    assert_eq!(s.points, vec![c(50, 50)]);
    assert_eq!(s.active_indices, vec![0]);
    assert!(!s.is_point_valid(&c(55, 55)));
    assert!(!s.is_point_valid(&Coord { x: 59_999_999, y: 50 * SCALE }));
    // Two cells away, still too close: cells are 7.07 units wide.
    assert!(!s.is_point_valid(&Coord { x: 50 * SCALE + 9_900_000, y: 50 * SCALE + 1_000_000 }));
    assert!(!s.is_point_valid(&Coord { x: 41 * SCALE, y: 50 * SCALE }));
    assert!(s.is_point_valid(&c(60, 50)));
    assert!(s.is_point_valid(&c(80, 80)));
}

#[test]
fn degenerate_polygon_gives_no_points() {
    let p = parse_geometry("POLYGON((0 0, 10 0, 20 0, 0 0))").unwrap();
    let mut rng = StdRng::seed_from_u64(3);
    assert!(sample(&p, 2 * SCALE, 0, &mut rng).is_empty());
    let q = Polygon { exterior: vec![c(0, 0), c(0, 1000), c(0, 0)], interiors: vec![] };
    assert!(sample(&q, SCALE, SCALE, &mut rng).is_empty());
}

#[test]
fn density_scaling_on_square() {
    let p = rect(100, 100);
    let mut rng = StdRng::seed_from_u64(11);
    let sparse = sample(&p, 10 * SCALE, 0, &mut rng);
    let dense = sample(&p, 2 * SCALE, 0, &mut rng);
    // Packing estimate: 10000 / (π·25) ≈ 127 and 10000 / π ≈ 3183.
    // Discs of radius d/2 around the points are disjoint and lie in the
    // square grown by d/2: at most 154 and 3311 points.
    assert!(sparse.len() >= 40 && sparse.len() <= 154, "{}", sparse.len());
    assert!(dense.len() >= 1000 && dense.len() <= 3311, "{}", dense.len());
    assert!(dense.len() > 10 * sparse.len());
    for pts in [(&sparse, 10), (&dense, 2)] {
        assert_eq!(close_pairs(pts.0, pts.1 * SCALE), 0);
        assert!(pts.0.iter().all(|q| strictly_inside(q, 100, 100)));
    }
}

#[test]
fn long_thin_rectangle() {
    let p = rect(1000, 1);
    let mut rng = StdRng::seed_from_u64(5);
    let pts = sample(&p, SCALE / 5, 0, &mut rng);
    assert!(pts.len() > 1000, "{}", pts.len());
    assert!(pts.iter().all(|q| strictly_inside(q, 1000, 1)));
    assert_eq!(close_pairs(&pts, SCALE / 5), 0);
}

#[test]
fn points_stay_inside_a_triangle_and_out_of_a_hole() {
    let tri = Polygon {
        exterior: vec![c(0, 0), c(40, 0), c(0, 40), c(0, 0)],
        interiors: vec![vec![c(5, 5), c(15, 5), c(15, 15), c(5, 15), c(5, 5)]],
    };
    let mut rng = StdRng::seed_from_u64(8);
    let pts = sample(&tri, SCALE, 0, &mut rng);
    assert!(pts.len() > 100);
    for q in &pts {
        assert!(q.x > 0 && q.y > 0 && q.x + q.y < 40 * SCALE);
        let in_hole = q.x >= 5 * SCALE && q.x <= 15 * SCALE && q.y >= 5 * SCALE && q.y <= 15 * SCALE;
        assert!(!in_hole);
    }
}

#[test]
fn jitter_moves_within_variation() {
    let pts = vec![c(1, 1), c(2, 2), c(3, 3), c(4, 4)];
    let mut rng = StdRng::seed_from_u64(1);
    assert_eq!(apply_jitter(&pts, 0, &mut rng), pts);
    let v = SCALE / 2;
    let moved = apply_jitter(&pts, v, &mut rng);
    assert_eq!(moved.len(), pts.len());
    assert!(moved.iter().zip(pts.iter()).all(|(a, b)| d2(a, b) < (v as i128) * (v as i128)));
    assert!(moved.iter().zip(pts.iter()).any(|(a, b)| a != b));
}

#[test]
fn seeded_runs_repeat() {
    let p = rect(30, 30);
    let a = sample(&p, 3 * SCALE, SCALE / 10, &mut StdRng::seed_from_u64(42));
    let b = sample(&p, 3 * SCALE, SCALE / 10, &mut StdRng::seed_from_u64(42));
    assert_eq!(a, b);
}

#[test]
fn distribute_reports_each_error() {
    let params = VegetationParams { vegetation_type: 1, density: SCALE, variation: 0, type_value: 10 };
    let mut rng = StdRng::seed_from_u64(2);
    assert_eq!(
        distribute_points_in_polygon("MULTIPOLYGON(((0 0,1 0,1 1,0 0)))", &params, &mut rng).unwrap_err(),
        PolygonError::Geometry(GeometryError::UnsupportedGeometry)
    );
    assert_eq!(
        distribute_points_in_polygon("nothing here", &params, &mut rng).unwrap_err(),
        PolygonError::Geometry(GeometryError::MalformedGeometry)
    );
    assert_eq!(
        distribute_points_in_polygon("POLYGON((x y))", &params, &mut rng).unwrap_err(),
        PolygonError::Geometry(GeometryError::EmptyGeometry)
    );
    let tiny = VegetationParams { density: 1, ..params };
    assert_eq!(
        distribute_points_in_polygon(
            "POLYGON((-1000000000 -1000000000, 1000000000 -1000000000, 0 1000000000))",
            &tiny,
            &mut rng
        )
        .unwrap_err(),
        PolygonError::TooManyCells
    );
}

#[test]
fn distribute_fills_a_square() {
    let params = default_vegetation_params(2).unwrap();
    let mut rng = StdRng::seed_from_u64(9);
    let pts = distribute_points_in_polygon("POLYGON((0 0, 50 0, 50 50, 0 50, 0 0))", &params, &mut rng).unwrap();
    assert!(pts.len() > 30);
    let margin = params.variation;
    assert!(pts.iter().all(|q| q.x > -margin && q.x < 50 * SCALE + margin && q.y > -margin && q.y < 50 * SCALE + margin));
}

#[test]
fn test_fill_polygon() {
    let params = VegetationParams { vegetation_type: 1, density: 28 * SCALE, variation: 0, type_value: 10 };
    let mut rng = StdRng::seed_from_u64(28);
    let text = "POLYGON((0 0, 300 0, 300 200, 0 200, 0 0))";
    let result = distribute_points_in_polygon(text, &params, &mut rng).expect("Failed to fill polygon with vegetation points");
    assert!(!result.is_empty());
    assert_eq!(close_pairs(&result, 28 * SCALE), 0);
}

#[test]
fn default_params_table() {
    let trees = default_vegetation_params(1).unwrap();
    assert_eq!(trees, VegetationParams { vegetation_type: 1, density: 28_000_000, variation: 1_000_000, type_value: 10 });
    assert_eq!(default_vegetation_params(2).unwrap().density, 5_000_000);
    assert_eq!(default_vegetation_params(3).unwrap().type_value, 30);
    assert_eq!(default_vegetation_params(0), None);
    assert_eq!(default_vegetation_params(-1), None);
}


#[test]
fn offered_points_are_judged_one_by_one() {
    let tri = Polygon { exterior: vec![c(0, 0), c(10, 0), c(0, 10), c(0, 0)], interiors: vec![] };
    let mut s = SpatialDistributionSampler::new(2 * SCALE, (0, 0, 10 * SCALE, 10 * SCALE));
    assert!(!s.offer_point(&tri, c(11, 1)));
    assert!(!s.offer_point(&tri, c(8, 8)));
    assert!(!s.offer_point(&tri, c(0, 5)));
    assert!(s.points.is_empty());
    assert!(s.offer_point(&tri, c(2, 2)));
    assert!(!s.offer_point(&tri, c(3, 3)));
    assert!(s.offer_point(&tri, c(5, 2)));
    assert_eq!(s.points, vec![c(2, 2), c(5, 2)]);
    assert_eq!(s.active_indices, vec![0, 1]);
}

#[test]
fn point_two_cells_away_is_checked() {
    let mut s = SpatialDistributionSampler::new(SCALE, (0, 0, 10 * SCALE, 10 * SCALE));
    assert_eq!(s.cell_size, 707_106);
    s.add_point(Coord { x: 700_000, y: SCALE });
    assert!(!s.is_point_valid(&Coord { x: 1_450_000, y: SCALE }));
    assert!(s.is_point_valid(&Coord { x: 1_700_000, y: SCALE }));
    // Outside the box the window is clamped to the grid.
    assert!(!s.is_point_valid(&Coord { x: -200_000, y: SCALE }));
    assert!(s.is_point_valid(&Coord { x: -400_000, y: SCALE }));
}

#[test]
fn add_point_registers_any_point() {
    let mut s = SpatialDistributionSampler::new(SCALE, (0, 0, 10 * SCALE, 10 * SCALE));
    s.add_point(Coord { x: -5 * SCALE, y: 2 * SCALE });
    assert_eq!(s.points.len(), 1);
    assert_eq!(s.active_indices, vec![0]);
    // Left of the box: column 0, row 2 (cells of 707106 steps).
    assert_eq!(s.grid[2 * s.grid_width], Some(0));
    s.add_point(Coord { x: 100 * SCALE, y: 100 * SCALE });
    assert_eq!(s.points.len(), 2);
    assert_eq!(s.grid.iter().filter(|c| c.is_some()).count(), 1);
}

#[test]
fn each_later_point_grows_from_an_earlier_one() {
    let p = rect(60, 40);
    let d = 3 * SCALE;
    let mut s = SpatialDistributionSampler::new(d, (0, 0, 60 * SCALE, 40 * SCALE));
    let pts = s.generate_distribution(&p, &mut StdRng::seed_from_u64(4));
    assert!(pts.len() > 20);
    assert!(s.active_indices.is_empty());
    let dd = (d as i128) * (d as i128);
    for i in 1..pts.len() {
        assert!((0..i).any(|j| d2(&pts[i], &pts[j]) >= dd && d2(&pts[i], &pts[j]) < 4 * dd));
    }
}

#[test]
fn grow_step_and_seed_follow_their_inputs() {
    let p = rect(20, 20);
    let mut s = SpatialDistributionSampler::new(2 * SCALE, (0, 0, 20 * SCALE, 20 * SCALE));
    assert_eq!(s.plant_seed(&p, &vec![c(0, 5), c(30, 5), c(10, 10), c(12, 12)]), Some(2));
    assert_eq!(s.points, vec![c(10, 10)]);
    let offsets = vec![None, Some((0, 3 * SCALE)), Some((3 * SCALE, 0))];
    assert!(s.grow_step(&p, 0, &offsets));
    assert_eq!(s.points, vec![c(10, 10), c(10, 13)]);
    assert_eq!(s.active_indices, vec![0, 1]);
    let blocked = vec![Some((0, 3 * SCALE)), Some((0, -2 * SCALE - 1))];
    // The first candidate lands on (10, 13), which is taken; the second lies
    // just over 2 units below the pivot and is accepted.
    assert!(s.grow_step(&p, 0, &blocked));
    let none = vec![Some((0, 3 * SCALE)), None];
    assert!(!s.grow_step(&p, 0, &none));
    assert_eq!(s.active_indices, vec![2, 1]);
    assert_eq!(s.points.len(), 3);
}

#[test]
fn offset_picks_are_exact() {
    assert_eq!(annulus_pick(3, 4, 5), Some((3, 4)));
    assert_eq!(annulus_pick(3, 3, 5), None);
    assert_eq!(annulus_pick(6, 8, 5), None);
    assert_eq!(annulus_pick(-9, 0, 5), Some((-9, 0)));
    assert_eq!(disc_pick(3, 3, 5), Some((3, 3)));
    assert_eq!(disc_pick(3, 4, 5), None);
}

#[test]
fn shift_adds_offsets() {
    let pts = vec![c(1, 1), c(2, 2)];
    assert_eq!(shift(&pts, &vec![(5, -5), (0, 7)]), vec![Coord { x: SCALE + 5, y: SCALE - 5 }, Coord { x: 2 * SCALE, y: 2 * SCALE + 7 }]);
}
