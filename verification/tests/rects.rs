use geo::{BoundingRect, Intersects};
use geodatafusion_parquet::ordinate::{Ordinate, INFINITY_KEY};
use geodatafusion_parquet::rect::{bounding_rect, Extent, OverallBounds, Rect};

fn of(value: f64) -> Ordinate {
    Ordinate::from_bits(value.to_bits())
}

fn rect(x1: f64, y1: f64, x2: f64, y2: f64) -> Rect {
    Rect::new(of(x1), of(y1), of(x2), of(y2))
}

fn from_geo(r: &geo::Rect) -> Rect {
    Rect { min_x: of(r.min().x), min_y: of(r.min().y), max_x: of(r.max().x), max_y: of(r.max().y) }
}

fn number(r: &Rect) -> (f64, f64, f64, f64) {
    let f = |o: &Ordinate| f64::from_bits(o.to_bits());
    (f(&r.min_x), f(&r.min_y), f(&r.max_x), f(&r.max_y))
}

#[test]
fn corners_are_put_in_order() {
    assert_eq!(number(&rect(30.0, 10.0, 10.0, 20.0)), (10.0, 10.0, 30.0, 20.0));
    assert_eq!(rect(30.0, 10.0, 10.0, 20.0), rect(10.0, 20.0, 30.0, 10.0));
}

#[test]
fn corners_match_geo() {
    let values = [-2.0, 0.0, 3.5, f64::INFINITY, f64::NAN];
    for a in values {
        for b in values {
            let g = geo::Rect::new((a, b), (b, a));
            assert_eq!(rect(a, b, b, a), from_geo(&g));
        }
    }
}

#[test]
fn intersects_matches_geo() {
    let values = [0.0, 1.0, 2.0, 3.0, f64::NAN];
    for a in values {
        for b in values {
            for c in values {
                for d in values {
                    let g1 = geo::Rect::new((a, 0.0), (b, 1.0));
                    let g2 = geo::Rect::new((c, 1.0), (d, 2.0));
                    let g3 = geo::Rect::new((c, 1.5), (d, 2.0));
                    let (r1, r2, r3) = (from_geo(&g1), from_geo(&g2), from_geo(&g3));
                    assert_eq!(r1.intersects(&r2), g1.intersects(&g2));
                    assert_eq!(r1.intersects(&r3), g1.intersects(&g3));
                    assert_eq!(r1.intersects(&r2), r2.intersects(&r1));
                }
            }
        }
    }
}

#[test]
fn touching_sides_intersect() {
    assert!(rect(0.0, 0.0, 1.0, 1.0).intersects(&rect(1.0, 1.0, 2.0, 2.0)));
    assert!(!rect(0.0, 0.0, 1.0, 1.0).intersects(&rect(1.5, 0.0, 2.0, 2.0)));
}

#[test]
fn extent_needs_four_numbers() {
    assert_eq!(rect(0.0, 0.0, 1.0, f64::NAN).extent(), None);
    let extent = rect(0.0, 0.0, 0.0, 0.0).extent().unwrap();
    assert_eq!(extent, Extent { min_x: 0, min_y: 0, max_x: 0, max_y: 0 });
    assert_eq!(extent.to_rect(), rect(0.0, 0.0, 0.0, 0.0));
}

fn ring(points: &[(f64, f64)]) -> Vec<(u64, u64)> {
    points.iter().map(|p| (p.0.to_bits(), p.1.to_bits())).collect()
}

#[test]
fn bounding_rect_of_a_ring() {
    let points = [(-104.7, 39.6), (-104.7, 39.5), (-104.75, 39.5), (-104.75, 39.6), (-104.7, 39.6)];
    let bounds = bounding_rect(&ring(&points)).unwrap();
    assert_eq!(number(&bounds), (-104.75, 39.5, -104.7, 39.6));
    assert_eq!(bounding_rect(&ring(&[])), None);
}

#[test]
fn bounding_rect_matches_geo() {
    let nan = f64::NAN;
    let rings: [&[(f64, f64)]; 5] = [
        &[(1.0, 2.0)],
        &[(1.0, 2.0), (nan, 5.0), (0.0, nan)],
        &[(nan, 2.0), (1.0, 1.0), (3.0, 3.0)],
        &[(f64::INFINITY, -1.0), (2.0, f64::NEG_INFINITY), (0.5, 0.0)],
        &[(3.0, 3.0), (2.0, 2.0), (1.0, 1.0), (4.0, 0.0)],
    ];
    for points in rings {
        let line = geo::LineString::from(points.to_vec());
        let expected = from_geo(&line.bounding_rect().unwrap());
        assert_eq!(bounding_rect(&ring(points)), Some(expected));
    }
}

fn numbers(bounds: &OverallBounds) -> (f64, f64, f64, f64) {
    number(&bounds.inner.to_rect())
}

#[test]
fn overall_bounds_start_as_the_whole_plane() {
    let bounds = OverallBounds::new();
    let inf = INFINITY_KEY;
    assert_eq!(bounds.inner, Extent { min_x: -inf, min_y: -inf, max_x: inf, max_y: inf });
}

#[test]
fn first_push_takes_over_the_rectangle() {
    let mut bounds = OverallBounds::new();
    bounds.push(&rect(1.0, 2.0, 3.0, 4.0));
    assert_eq!(numbers(&bounds), (1.0, 2.0, 3.0, 4.0));
}

#[test]
fn later_pushes_raise_the_upper_corner() {
    let bounds = OverallBounds::of(&vec![rect(1.0, 2.0, 3.0, 4.0), rect(2.0, 2.0, 9.0, 3.0)]);
    assert_eq!(numbers(&bounds), (1.0, 2.0, 9.0, 4.0));
}

#[test]
fn lower_corner_falls_to_later_upper_corners_only() {
    let bounds = OverallBounds::of(&vec![rect(5.0, 5.0, 6.0, 6.0), rect(0.0, 0.0, 10.0, 10.0)]);
    assert_eq!(numbers(&bounds), (5.0, 5.0, 10.0, 10.0));
    let bounds = OverallBounds::of(&vec![rect(5.0, 5.0, 6.0, 6.0), rect(0.0, 0.0, 1.0, 2.0)]);
    assert_eq!(numbers(&bounds), (1.0, 2.0, 6.0, 6.0));
}

#[test]
fn later_nan_is_passed_over() {
    let nan_rect = rect(f64::NAN, 0.0, f64::NAN, 1.0);
    let rects = vec![rect(1.0, 1.0, 2.0, 2.0), nan_rect];
    assert!(OverallBounds::accepts_all(&rects));
    assert_eq!(numbers(&OverallBounds::of(&rects)), (1.0, 1.0, 2.0, 2.0));
    assert!(!OverallBounds::accepts_all(&vec![nan_rect]));
}

#[test]
fn whole_plane_gives_way_to_the_next() {
    let inf = f64::INFINITY;
    let bounds = OverallBounds::of(&vec![rect(-inf, -inf, inf, inf), rect(1.0, 1.0, 2.0, 2.0)]);
    assert_eq!(numbers(&bounds), (1.0, 1.0, 2.0, 2.0));
}
