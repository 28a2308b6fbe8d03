use geodatafusion_parquet::geometry::{rect_of_value, rects_of_values};
use geodatafusion_parquet::ordinate::Ordinate;
use geodatafusion_parquet::rect::Rect;

const SRID: u32 = 0x2000_0000;

fn of(value: f64) -> Ordinate {
    Ordinate::from_bits(value.to_bits())
}

fn rect(x1: f64, y1: f64, x2: f64, y2: f64) -> Rect {
    Rect { min_x: of(x1), min_y: of(y1), max_x: of(x2), max_y: of(y2) }
}

fn head(little: bool, code: u32) -> Vec<u8> {
    let mut bytes = vec![little as u8];
    bytes.extend(word(little, code));
    bytes
}

fn word(little: bool, number: u32) -> [u8; 4] {
    if little { number.to_le_bytes() } else { number.to_be_bytes() }
}

fn number(little: bool, number: f64) -> [u8; 8] {
    if little { number.to_le_bytes() } else { number.to_be_bytes() }
}

fn point(little: bool, code: u32, ordinates: &[f64]) -> Vec<u8> {
    let mut bytes = head(little, code);
    for ordinate in ordinates {
        bytes.extend(number(little, *ordinate));
    }
    bytes
}

fn many(little: bool, code: u32, parts: &[Vec<u8>]) -> Vec<u8> {
    let mut bytes = head(little, code);
    if code & SRID != 0 {
        bytes.extend(word(little, 4326));
    }
    bytes.extend(word(little, parts.len() as u32));
    for part in parts {
        bytes.extend(part);
    }
    bytes
}

fn ring(points: &[(f64, f64)]) -> Vec<u8> {
    let mut bytes = word(true, points.len() as u32).to_vec();
    for p in points {
        bytes.extend(number(true, p.0));
        bytes.extend(number(true, p.1));
    }
    bytes
}

#[test]
fn point_is_its_own_bounds() {
    for little in [true, false] {
        let value = point(little, 1, &[3.0, 4.0]);
        assert_eq!(rect_of_value(&value), Some(rect(3.0, 4.0, 3.0, 4.0)));
    }
    let with_z = point(true, 1001, &[3.0, 4.0, 5.0]);
    assert_eq!(rect_of_value(&with_z), Some(rect(3.0, 4.0, 3.0, 4.0)));
}

#[test]
fn polygon_is_bounded_by_its_exterior() {
    let exterior = ring(&[(0.0, 0.0), (4.0, 0.0), (4.0, 2.0), (0.0, 0.0)]);
    let interior = ring(&[(9.0, 9.0), (8.0, 9.0), (9.0, 8.0), (9.0, 9.0)]);
    let value = many(true, 3, &[exterior, interior]);
    assert_eq!(rect_of_value(&value), Some(rect(0.0, 0.0, 4.0, 2.0)));
}

#[test]
fn multipoint_and_collection_are_bounded_by_their_parts() {
    let points = [point(true, 1, &[3.0, 4.0]), point(true, 1, &[-1.0, 7.0])];
    let multi = many(true, 4, &points);
    assert_eq!(rect_of_value(&multi), Some(rect(-1.0, 4.0, 3.0, 7.0)));
    let collection = many(false, 7, &[multi, point(true, 1, &[9.0, 0.0])]);
    assert_eq!(rect_of_value(&collection), Some(rect(-1.0, 0.0, 9.0, 7.0)));
    let outer = many(true, 7 | SRID, &[collection.clone(), collection]);
    assert_eq!(rect_of_value(&outer), Some(rect(-1.0, 0.0, 9.0, 7.0)));
}

#[test]
fn values_without_bounds_have_no_rect() {
    assert_eq!(rect_of_value(&vec![]), None);
    assert_eq!(rect_of_value(&vec![2, 1, 0, 0, 0]), None);
    assert_eq!(rect_of_value(&point(true, 1, &[3.0])), None);
    assert_eq!(rect_of_value(&point(true, 0, &[3.0, 4.0])), None);
    assert_eq!(rect_of_value(&point(true, 1, &[f64::NAN, f64::NAN])), None);
    assert_eq!(rect_of_value(&many(true, 2, &[])), None);
    assert_eq!(rect_of_value(&many(true, 4, &[])), None);
    assert_eq!(rect_of_value(&many(true, 7, &[])), None);
}

#[test]
fn not_a_number_is_a_side() {
    let value = point(true, 1, &[f64::NAN, 4.0]);
    let rect = rect_of_value(&value).unwrap();
    assert_eq!(rect.min_x, Ordinate::Nan);
    assert_eq!(rect.max_y, of(4.0));
}

#[test]
fn multipoint_that_ends_in_a_tagged_point_has_no_rect() {
    for little in [true, false] {
        for code in [4, 1004, 2004, 3004, 4 | SRID, 0x8000_0004, 0x4000_0004, 0xc000_0004] {
            let width = match code {
                1004 | 2004 | 0x8000_0004 | 0x4000_0004 => 3,
                3004 | 0xc000_0004 => 4,
                _ => 2,
            };
            let plain = point(little, 1, &vec![1.0; width]);
            let tagged = point(little, 1 | SRID, &vec![1.0; width]);
            let good = many(little, code, &[tagged.clone(), plain.clone()]);
            assert!(rect_of_value(&good).is_some());
            let bad = many(little, code, &[plain, tagged]);
            assert_eq!(rect_of_value(&bad), None);
            let inside = many(!little, 7, &[good.clone(), many(true, 7, &[bad.clone()])]);
            assert_eq!(rect_of_value(&inside), None);
            let mut trailing = bad;
            trailing.extend([0; 40]);
            assert_eq!(rect_of_value(&trailing), None);
        }
    }
}

#[test]
fn deep_collections_are_answered() {
    let mut value = point(true, 1, &[3.0, 4.0]);
    for _ in 0..100 {
        value = many(true, 7, &[value]);
    }
    assert_eq!(rect_of_value(&value), Some(rect(3.0, 4.0, 3.0, 4.0)));
    for _ in 0..1000 {
        value = many(true, 7, &[value]);
    }
    assert_eq!(rect_of_value(&value), None);
}

#[test]
fn rects_of_all_values_or_none() {
    let (a, b) = (point(true, 1, &[3.0, 4.0]), point(false, 1, &[-1.0, 7.0]));
    let rects = rects_of_values(&vec![a.clone(), b.clone()]).unwrap();
    assert_eq!(rects, vec![rect(3.0, 4.0, 3.0, 4.0), rect(-1.0, 7.0, -1.0, 7.0)]);
    assert_eq!(rects_of_values(&vec![]), Some(vec![]));
    assert_eq!(rects_of_values(&vec![a, vec![], b]), None);
}
