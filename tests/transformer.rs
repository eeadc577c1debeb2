use approx::RelativeEq;
use geotransform::{Coordinate, GeoTransform, GeoTransformer, TransformError, ENTRY_LIMIT};

/// World units of 1e-8 degree.
const UNITS_PER_DEGREE: f64 = 1e8;

/// Geotransform of the small test raster (52 x 45 pixels), in units of 1e-8 degree.
const SMALL_RASTER: GeoTransform = [1136106590, 32543807, 0, 4625202560, 0, -31223510];

/// Geotransform `[11.3610659, 0.32552653, 0, 46.2520256, 0, -0.31223954]` in units of 1e-8 degree.
const WIDE_PIXELS: GeoTransform = [1136106590, 32552653, 0, 4625202560, 0, -31223954];

fn degrees(v: i64) -> f64 {
    v as f64 / UNITS_PER_DEGREE
}

fn assert_coordinate_near(given: Coordinate, x: f64, y: f64) {
    let eps = 0.000001;
    let max_rel = <f64 as RelativeEq>::default_max_relative();
    assert!(degrees(given.x).relative_eq(&x, eps, max_rel), "x: {} vs {}", degrees(given.x), x);
    assert!(degrees(given.y).relative_eq(&y, eps, max_rel), "y: {} vs {}", degrees(given.y), y);
}

fn build(gt: GeoTransform) -> GeoTransformer {
    GeoTransformer::try_from(gt).unwrap()
}

#[test]
fn test_geotransformer_bounds() {
    let geotransformer = build(SMALL_RASTER);
    let bounds = geotransformer.bounds_from_size((52, 45));
    assert_coordinate_near(bounds.min, 11.3610659, 32.2014463);
    assert_coordinate_near(bounds.max, 28.2838457, 46.2520256);
}

#[test]
fn bounds_corners_map_back_to_corner_pixels() {
    let geotransformer = build(SMALL_RASTER);
    let bounds = geotransformer.bounds_from_size((52, 45));
    // the lower-left corner of the extent is the upper-left corner of pixel (0, 45)
    assert_eq!(geotransformer.coordinate_to_pixel(bounds.min), (0, 45));
    assert_eq!(geotransformer.coordinate_to_pixel(bounds.max), (52, 0));
}

#[test]
fn origin_maps_to_offset() {
    let geotransformer = build(WIDE_PIXELS);
    let origin = geotransformer.pixel_to_coordinate((0, 0));
    assert_eq!(origin, Coordinate { x: 1136106590, y: 4625202560 });
    assert_eq!(degrees(origin.x), 11.3610659);
    assert_eq!(degrees(origin.y), 46.2520256);
}

#[test]
fn dependent_rows_are_singular() {
    let r = GeoTransformer::try_from([0, 1, 2, 0, 2, 4]);
    assert_eq!(r.unwrap_err(), TransformError::SingularTransform);
    assert_eq!(TransformError::SingularTransform.message(), "could not invert geotransform");
}

#[test]
fn zero_linear_part_is_singular() {
    for (a, d) in [(0, 0), (5, -7), (-ENTRY_LIMIT, ENTRY_LIMIT)] {
        let r = GeoTransformer::try_from([a, 0, 0, d, 0, 0]);
        assert_eq!(r.unwrap_err(), TransformError::SingularTransform);
    }
}

#[test]
fn sheared_transform_round_trips() {
    // [100, 0.5, 0.1, 200, 0.2, 0.4] in units of 0.1
    let geotransformer = build([1000, 5, 1, 2000, 2, 4]);
    let world = geotransformer.pixel_to_coordinate((10, 20));
    assert_eq!(world, Coordinate { x: 1070, y: 2100 });
    assert_eq!(geotransformer.coordinate_to_pixel(world), (10, 20));
}

#[test]
fn round_trip_with_negative_determinant() {
    let geotransformer = build([-300, 7, -3, 900, 2, -5]);
    for pixel in [(0usize, 0usize), (1, 0), (0, 1), (13, 29), (1000, 7)] {
        let world = geotransformer.pixel_to_coordinate(pixel);
        let back = geotransformer.coordinate_to_pixel(world);
        assert_eq!(back, (pixel.0 as i128, pixel.1 as i128));
    }
}

#[test]
fn point_outside_raster_extrapolates() {
    let geotransformer = build(WIDE_PIXELS);
    let pixel = geotransformer.coordinate_to_pixel(Coordinate { x: 0, y: 0 });
    let col = ((0.0 - 11.3610659) / 0.32552653f64).floor() as i128;
    let row = ((0.0 - 46.2520256) / -0.31223954f64).floor() as i128;
    assert_eq!((col, row), (-35, 148));
    assert_eq!(pixel, (-35, 148));
}

#[test]
fn fractional_points_round_down() {
    let geotransformer = build([0, 10, 0, 0, 0, -10]);
    assert_eq!(geotransformer.coordinate_to_pixel(Coordinate { x: -5, y: 5 }), (-1, -1));
    assert_eq!(geotransformer.coordinate_to_pixel(Coordinate { x: 15, y: -25 }), (1, 2));
    assert_eq!(geotransformer.coordinate_to_pixel(Coordinate { x: 10, y: -10 }), (1, 1));
    assert_eq!(geotransformer.coordinate_to_pixel(Coordinate { x: 9, y: -9 }), (0, 0));
}

#[test]
fn pixel_offsets_add_up() {
    let geotransformer = build([-300, 7, -3, 900, 2, -5]);
    let o = geotransformer.pixel_to_coordinate((0, 0));
    let p = geotransformer.pixel_to_coordinate((4, 9));
    let q = geotransformer.pixel_to_coordinate((11, 2));
    let s = geotransformer.pixel_to_coordinate((15, 11));
    assert_eq!(s.x - o.x, (p.x - o.x) + (q.x - o.x));
    assert_eq!(s.y - o.y, (p.y - o.y) + (q.y - o.y));
    assert_eq!(p, Coordinate { x: -299, y: 863 });
}

#[test]
fn bounds_are_normalized_for_flipped_axes() {
    let geotransformer = build([100, -4, 0, -50, 0, 3]);
    let bounds = geotransformer.bounds_from_size((10, 20));
    assert_eq!(bounds.min, Coordinate { x: 60, y: -50 });
    assert_eq!(bounds.max, Coordinate { x: 100, y: 10 });
    let empty = geotransformer.bounds_from_size((0, 0));
    assert_eq!(empty.min, Coordinate { x: 100, y: -50 });
    assert_eq!(empty.max, Coordinate { x: 100, y: -50 });
}

#[test]
fn checked_conversion_reports_overflow() {
    let geotransformer = build([0, ENTRY_LIMIT, 0, 0, 0, 1]);
    assert_eq!(geotransformer.checked_pixel_to_coordinate((usize::MAX, 0)), None);
    assert_eq!(
        geotransformer.checked_pixel_to_coordinate((1, 3)),
        Some(Coordinate { x: ENTRY_LIMIT, y: 3 })
    );
}

#[test]
fn largest_entries_still_invert() {
    let l = ENTRY_LIMIT;
    let geotransformer = build([l, l, -l, -l, l, l]);
    let world = geotransformer.pixel_to_coordinate((0, 0));
    assert_eq!(world, Coordinate { x: l, y: -l });
    assert_eq!(geotransformer.coordinate_to_pixel(world), (0, 0));
    let far = Coordinate { x: i64::MIN, y: i64::MAX };
    assert_eq!(geotransformer.coordinate_to_pixel(far), (-1, 2));
}
