use vegepoly::batch::{line_kind, LineKind};
use vegepoly::pipeline::{check_user_params, params_or_fallback, ParamsError, VegetationParams};
use vegepoly::geometry::{calculate_polygon_bounds, Coord, Polygon, SCALE};
use vegepoly::wkt_text::{parse_geometry, parse_ring_lenient, parse_ring_strict, GeometryError};

fn c(x: i64, y: i64) -> Coord {
    Coord { x: x * SCALE, y: y * SCALE }
}

#[test]
fn closed_square_reads_exactly() {
    let p = parse_geometry("POLYGON((0 0, 10 0, 10 10, 0 10, 0 0))").unwrap();
    assert_eq!(p.exterior, vec![c(0, 0), c(10, 0), c(10, 10), c(0, 10), c(0, 0)]);
    assert!(p.interiors.is_empty());
}

#[test]
fn open_ring_is_closed() {
    let p = parse_geometry("POLYGON((0 0, 10 0, 10 10, 0 10))").unwrap();
    assert_eq!(p.exterior.len(), 5);
    assert_eq!(p.exterior[0], p.exterior[4]);
    assert_eq!(p.exterior, vec![c(0, 0), c(10, 0), c(10, 10), c(0, 10), c(0, 0)]);
}

#[test]
fn multipolygon_is_unsupported() {
    let r = parse_geometry("MULTIPOLYGON(((0 0,1 0,1 1,0 1,0 0)))");
    assert_eq!(r.unwrap_err(), GeometryError::UnsupportedGeometry);
}

#[test]
fn multipolygon_with_space_is_unsupported() {
    let r = parse_geometry("MULTIPOLYGON (((0 0,1 0,1 1,0 0)))");
    assert_eq!(r.unwrap_err(), GeometryError::UnsupportedGeometry);
}

#[test]
fn text_without_marker_is_malformed() {
    assert_eq!(parse_geometry("LINESTRING(0 0, 1 1)").unwrap_err(), GeometryError::MalformedGeometry);
    assert_eq!(parse_geometry("POLYGON (0 0, 1 1)").unwrap_err(), GeometryError::MalformedGeometry);
    assert_eq!(parse_geometry("").unwrap_err(), GeometryError::MalformedGeometry);
}

#[test]
fn no_pair_is_empty() {
    assert_eq!(parse_geometry("POLYGON((a b, c d))").unwrap_err(), GeometryError::EmptyGeometry);
    assert_eq!(parse_geometry("POLYGON(())").unwrap_err(), GeometryError::EmptyGeometry);
}

#[test]
fn bad_pair_falls_back_and_is_skipped() {
    let text = "POLYGON((0 0, 10 0, foo, 10 10, 0 0))";
    assert!(parse_ring_strict(text).is_none());
    let ring = parse_ring_lenient(text).unwrap();
    assert_eq!(ring, vec![c(0, 0), c(10, 0), c(10, 10), c(0, 0)]);
    let p = parse_geometry(text).unwrap();
    assert_eq!(p.exterior, ring);
}

#[test]
fn trailing_text_is_cut_at_ring_end() {
    let text = "\"POLYGON((0 0,4 0,4 4,0 0))\"\tTrees\t12";
    let ring = parse_ring_strict(text).unwrap();
    assert_eq!(ring, vec![c(0, 0), c(4, 0), c(4, 4), c(0, 0)]);
}

#[test]
fn second_ring_goes_to_lenient_reading() {
    let text = "POLYGON((0 0,10 0,10 10,0 0),(1 1,2 1,2 2,1 1))";
    assert!(parse_ring_strict(text).is_none());
    let p = parse_geometry(text).unwrap();
    assert_eq!(p.exterior, vec![c(0, 0), c(10, 0), c(10, 10), c(2, 1), c(2, 2), c(1, 1), c(0, 0)]);
}

#[test]
fn loose_spacing_and_double_close() {
    let p = parse_geometry("  POLYGON((  0   0 ,10\t0,10 10 ,0 10 ))) ").unwrap();
    assert_eq!(p.exterior, vec![c(0, 0), c(10, 0), c(10, 10), c(0, 10), c(0, 0)]);
}

#[test]
fn decimals_signs_and_rounding() {
    let p = parse_geometry("POLYGON((1.5 -2.25, +3 .5, 7. 0.1234567, 1.5 -2.25))").unwrap();
    assert_eq!(
        p.exterior,
        vec![
            Coord { x: 1_500_000, y: -2_250_000 },
            Coord { x: 3_000_000, y: 500_000 },
            Coord { x: 7_000_000, y: 123_457 },
            Coord { x: 1_500_000, y: -2_250_000 },
        ]
    );
}

#[test]
fn numbers_beyond_range_are_bad_pairs() {
    let text = "POLYGON((0 0, 1000000001 0, 5 5, 0 5))";
    assert!(parse_ring_strict(text).is_none());
    let p = parse_geometry(text).unwrap();
    assert_eq!(p.exterior, vec![c(0, 0), c(5, 5), c(0, 5), c(0, 0)]);
    let q = parse_geometry("POLYGON((-1000000000 0, 1000000000 0, 0 1))").unwrap();
    assert_eq!(q.exterior[0], Coord { x: -1_000_000_000_000_000, y: 0 });
}

#[test]
fn single_pair_is_left_open() {
    let p = parse_geometry("POLYGON((3 4))").unwrap();
    assert_eq!(p.exterior, vec![c(3, 4)]);
    let q = parse_geometry("POLYGON((3 4, 3 4))").unwrap();
    assert_eq!(q.exterior, vec![c(3, 4), c(3, 4)]);
}

#[test]
fn pair_with_three_numbers_is_bad() {
    let text = "POLYGON((0 0 1, 2 0, 2 2))";
    assert!(parse_ring_strict(text).is_none());
    assert_eq!(parse_geometry(text).unwrap().exterior, vec![c(2, 0), c(2, 2), c(2, 0)]);
}

#[test]
fn bounds_of_exterior_ring() {
    let p = Polygon {
        exterior: vec![c(3, -1), c(7, 2), c(-4, 9), c(3, -1)],
        interiors: vec![vec![c(100, 100)]],
    };
    assert_eq!(calculate_polygon_bounds(&p), (-4 * SCALE, -SCALE, 7 * SCALE, 9 * SCALE));
}

#[test]
fn lines_are_sorted_for_the_batch() {
    assert_eq!(line_kind(""), LineKind::Blank);
    assert_eq!(line_kind("  \t\r"), LineKind::Blank);
    assert_eq!(line_kind("\"POLYGON((0 0,1 0,1 1,0 0))\"\tx"), LineKind::Polygon);
    assert_eq!(line_kind("MULTIPOLYGON(((0 0,1 0,1 1,0 0)))"), LineKind::Polygon);
    assert_eq!(line_kind("POINT(1 2)"), LineKind::NoPolygon);
    assert_eq!(line_kind("polygon((0 0))"), LineKind::NoPolygon);
}

#[test]
fn user_params_are_checked() {
    let p = VegetationParams { vegetation_type: 2, density: 5 * SCALE, variation: 0, type_value: 20 };
    assert_eq!(check_user_params(2, &p), Ok(()));
    assert_eq!(check_user_params(0, &p), Err(ParamsError::InvalidVegetationType(0)));
    assert_eq!(check_user_params(-3, &p), Err(ParamsError::InvalidVegetationType(-3)));
    let negative = VegetationParams { density: -1, ..p };
    assert_eq!(check_user_params(1, &negative), Err(ParamsError::NegativeDensity));
    assert_eq!(params_or_fallback(7, Some(p)), p);
    assert_eq!(
        params_or_fallback(7, None),
        VegetationParams { vegetation_type: 7, density: 5_000_000, variation: 0, type_value: 10 }
    );
}

#[test]
fn seventh_decimal_rounds() {
    let p = parse_geometry("POLYGON((0.1234564 -1.0000005, 2.9999996 0, 0 0.00000049))").unwrap();
    assert_eq!(p.exterior[0], Coord { x: 123_456, y: -1_000_001 });
    assert_eq!(p.exterior[1], Coord { x: 3_000_000, y: 0 });
    assert_eq!(p.exterior[2], Coord { x: 0, y: 0 });
}

#[test]
fn exponents_are_read() {
    let p = parse_geometry("POLYGON((1e3 1.5E-3, -3.25e2 +2e+1, 5e-7 2.5e-7, 1e3 1.5E-3))").unwrap();
    assert_eq!(
        p.exterior,
        vec![
            Coord { x: 1000 * SCALE, y: 1500 },
            Coord { x: -325 * SCALE, y: 20 * SCALE },
            Coord { x: 1, y: 0 },
            Coord { x: 1000 * SCALE, y: 1500 },
        ]
    );
}

#[test]
fn extreme_exponents() {
    let p = parse_geometry("POLYGON((0e99999999999999999999 1e-99999999999999999999, 1 1, 2 2))").unwrap();
    assert_eq!(p.exterior[0], Coord { x: 0, y: 0 });
    let text = "POLYGON((1e400 0, 1 1, 2 2, 1e 0, e5 0))";
    assert!(parse_ring_strict(text).is_none());
    assert_eq!(parse_geometry(text).unwrap().exterior, vec![c(1, 1), c(2, 2), c(1, 1)]);
}
