use geodatafusion_parquet::ordinate::Ordinate;
use geodatafusion_parquet::predicate::{
    check_filters, inexact_pushdown, spatial_predicates, FilterExpr, FilterPushDown, QueryError,
    ScalarCall, SpatialPredicate,
};
use geodatafusion_parquet::rect::Rect;

const QUERY: &str = "POLYGON ((-104.778104 39.614196, -104.778104 39.597333, -104.750642 39.597333, -104.750642 39.614196, -104.778104 39.614196))";

fn of(value: f64) -> Ordinate {
    Ordinate::from_bits(value.to_bits())
}

fn call(name: &str, args: Vec<FilterExpr>) -> FilterExpr {
    FilterExpr::ScalarFunction(ScalarCall { name: name.to_string(), args })
}

fn literal(text: &str) -> FilterExpr {
    FilterExpr::Literal(text.to_string())
}

fn column(name: &str) -> FilterExpr {
    FilterExpr::Column(name.to_string())
}

fn is_true(expr: FilterExpr) -> FilterExpr {
    FilterExpr::IsTrue(Box::new(expr))
}

fn intersects(text: &str, name: &str) -> FilterExpr {
    is_true(call("st_intersects", vec![literal(text), column(name)]))
}

#[test]
fn query_polygon_gives_its_bounds() {
    let predicate = SpatialPredicate::try_from_expr(&intersects(QUERY, "geometry")).unwrap();
    assert_eq!(predicate.geometry_column, "geometry");
    let expected = Rect {
        min_x: of(-104.778104),
        min_y: of(39.597333),
        max_x: of(-104.750642),
        max_y: of(39.614196),
    };
    assert_eq!(predicate.query_bounds, expected);
}

#[test]
fn other_forms_are_no_predicates() {
    let bare = call("st_intersects", vec![literal(QUERY), column("g")]);
    assert!(SpatialPredicate::try_from_expr(&bare).is_none());
    let swapped = is_true(call("st_intersects", vec![column("g"), literal(QUERY)]));
    assert!(SpatialPredicate::try_from_expr(&swapped).is_none());
    let one = is_true(call("st_intersects", vec![literal(QUERY)]));
    assert!(SpatialPredicate::try_from_expr(&one).is_none());
    let three = is_true(call("st_intersects", vec![literal(QUERY), column("g"), column("h")]));
    assert!(SpatialPredicate::try_from_expr(&three).is_none());
    let named = is_true(call("st_contains", vec![literal(QUERY), column("g")]));
    assert!(SpatialPredicate::try_from_expr(&named).is_none());
    assert!(SpatialPredicate::try_from_expr(&is_true(FilterExpr::Other)).is_none());
    assert!(SpatialPredicate::try_from_expr(&FilterExpr::Other).is_none());
}

#[test]
fn interior_rings_do_not_count() {
    let text = "POLYGON ((0 0, 10 0, 10 10, 0 10, 0 0), (20 20, 30 20, 30 30, 20 20))";
    let predicate = SpatialPredicate::try_from_expr(&intersects(text, "g")).unwrap();
    assert_eq!(predicate.query_bounds.max_x, of(10.0));
    assert_eq!(predicate.query_bounds.max_y, of(10.0));
}

#[test]
fn ring_gives_a_predicate() {
    let ring = vec![(2.0f64.to_bits(), 5.0f64.to_bits()), (1.0f64.to_bits(), 7.0f64.to_bits())];
    let predicate = SpatialPredicate::from_exterior(&ring, &"g".to_string()).unwrap();
    let expected = Rect { min_x: of(1.0), min_y: of(5.0), max_x: of(2.0), max_y: of(7.0) };
    assert_eq!(predicate.query_bounds, expected);
    assert_eq!(predicate.geometry_column, "g");
    assert!(SpatialPredicate::from_exterior(&vec![], &"g".to_string()).is_none());
}

#[test]
fn predicates_keep_their_order() {
    let other = "POLYGON ((0 0, 1 0, 1 1, 0 0))";
    let filters = vec![
        FilterExpr::Other,
        intersects(QUERY, "a"),
        column("x"),
        intersects(other, "b"),
    ];
    let predicates = spatial_predicates(&filters);
    assert_eq!(predicates.len(), 2);
    assert_eq!(predicates[0].geometry_column, "a");
    assert_eq!(predicates[1].geometry_column, "b");
    assert_eq!(predicates[1].query_bounds.max_x, of(1.0));
}

#[test]
fn bad_polygons_are_told_apart() {
    assert_eq!(check_filters(&vec![]), Ok(()));
    assert_eq!(check_filters(&vec![intersects(QUERY, "g"), literal("no wkt")]), Ok(()));
    let not_wkt = intersects("no wkt", "g");
    let point = intersects("POINT (1 2)", "g");
    let empty = intersects("POLYGON EMPTY", "g");
    assert_eq!(check_filters(&vec![not_wkt]), Err(QueryError::NotAPolygon));
    assert_eq!(check_filters(&vec![point]), Err(QueryError::NotAPolygon));
    assert_eq!(check_filters(&vec![empty]), Err(QueryError::EmptyPolygon));
    let both = vec![
        intersects(QUERY, "g"),
        intersects("POLYGON EMPTY", "g"),
        intersects("no wkt", "g"),
    ];
    assert_eq!(check_filters(&both), Err(QueryError::EmptyPolygon));
}

#[test]
fn collections_are_no_polygons() {
    let check = |text: &str| check_filters(&vec![intersects(text, "g")]);
    assert_eq!(check("GEOMETRYCOLLECTION (POINT (1 2))"), Err(QueryError::NotAPolygon));
    assert_eq!(check(" \n\r\tgeometrycollection EMPTY"), Err(QueryError::NotAPolygon));
    let deep = "GEOMETRYCOLLECTION (".repeat(100_000);
    assert_eq!(check(&deep), Err(QueryError::NotAPolygon));
    assert_eq!(check(" \n\r\tpolygon ((0 0, 1 0, 1 1, 0 0))"), Ok(()));
    assert_eq!(check(""), Err(QueryError::NotAPolygon));
    assert_eq!(check("   "), Err(QueryError::NotAPolygon));
}

#[test]
fn pushdown_is_inexact() {
    assert_eq!(inexact_pushdown(0), vec![]);
    assert_eq!(inexact_pushdown(2), vec![FilterPushDown::Inexact, FilterPushDown::Inexact]);
}
