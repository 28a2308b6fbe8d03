use arrow_schema::Schema;
use datafusion::datasource::file_format::parquet::ParquetFormat;
use datafusion::datasource::listing::{
    ListingOptions, ListingTable, ListingTableConfig, ListingTableUrl,
};
use datafusion_datasource_parquet::RowGroupAccess;
use geodatafusion_parquet::metadata::{
    column_index, spatial_column_indexes, BoundingBox, FileMeta, RowGroupMeta,
};
use geodatafusion_parquet::ordinate::Ordinate;
use geodatafusion_parquet::predicate::{
    FilterExpr, FilterPushDown, QueryError, ScalarCall, ScanStep, SpatialPredicate,
};
use geodatafusion_parquet::rect::Rect;
use geodatafusion_parquet::row_group::{check_plan, geo_access_plan, ParquetGeoTable};
use std::sync::Arc;

fn of(value: f64) -> Ordinate {
    Ordinate::from_bits(value.to_bits())
}

fn stored(x_min: f64, y_min: f64, x_max: f64, y_max: f64) -> Option<BoundingBox> {
    Some(BoundingBox { x_min: of(x_min), y_min: of(y_min), x_max: of(x_max), y_max: of(y_max) })
}

fn predicate(name: &str, x1: f64, y1: f64, x2: f64, y2: f64) -> SpatialPredicate {
    SpatialPredicate {
        query_bounds: Rect::new(of(x1), of(y1), of(x2), of(y2)),
        geometry_column: name.to_string(),
    }
}

fn meta(columns: &[&str], groups: Vec<Vec<Option<BoundingBox>>>) -> FileMeta {
    FileMeta {
        columns: columns.iter().map(|c| c.to_string()).collect(),
        row_groups: groups.into_iter().map(|boxes| RowGroupMeta { num_rows: 10, boxes }).collect(),
        offset_index: None,
    }
}

fn table() -> (Arc<ListingTable>, ParquetGeoTable) {
    let url = ListingTableUrl::parse("file:///data/table/").unwrap();
    let config = ListingTableConfig::new(url)
        .with_listing_options(ListingOptions::new(Arc::new(ParquetFormat::new())))
        .with_schema(Arc::new(Schema::empty()));
    let listing = Arc::new(ListingTable::try_new(config).unwrap());
    (listing.clone(), ParquetGeoTable::new(listing))
}

fn intersects(text: &str) -> FilterExpr {
    FilterExpr::IsTrue(Box::new(FilterExpr::ScalarFunction(ScalarCall {
        name: "st_intersects".to_string(),
        args: vec![
            FilterExpr::Literal(text.to_string()),
            FilterExpr::Column("geometry".to_string()),
        ],
    })))
}

#[test]
fn last_column_of_a_name_is_found() {
    let columns: Vec<String> = ["a", "g", "b", "g", "c"].iter().map(|c| c.to_string()).collect();
    assert_eq!(column_index(&columns, &"g".to_string()), Some(3));
    assert_eq!(column_index(&columns, &"a".to_string()), Some(0));
    assert_eq!(column_index(&columns, &"x".to_string()), None);
}

#[test]
fn columns_of_each_predicate_in_turn() {
    let meta = meta(&["g", "a", "h", "g"], vec![vec![]]);
    let filters = vec![
        predicate("h", 0.0, 0.0, 1.0, 1.0),
        predicate("g", 0.0, 0.0, 1.0, 1.0),
        predicate("x", 0.0, 0.0, 1.0, 1.0),
        predicate("g", 0.0, 0.0, 1.0, 1.0),
    ];
    assert_eq!(spatial_column_indexes(&meta, &filters), vec![2, 0, 3, 0, 3]);
    assert_eq!(spatial_column_indexes(&meta, &vec![]), Vec::<usize>::new());
}

#[test]
fn groups_that_miss_the_query_are_skipped() {
    let meta = meta(
        &["a", "g"],
        vec![
            vec![None, stored(0.0, 0.0, 1.0, 1.0)],
            vec![None, stored(5.0, 5.0, 6.0, 6.0)],
            vec![None, None],
            vec![None, stored(1.0, 1.0, 3.0, 3.0)],
        ],
    );
    let filters = vec![predicate("g", 0.5, 0.5, 1.0, 1.0)];
    assert!(check_plan(&meta, &filters));
    let plan = geo_access_plan(&meta, &filters);
    let expected =
        [RowGroupAccess::Scan, RowGroupAccess::Skip, RowGroupAccess::Scan, RowGroupAccess::Scan];
    assert_eq!(plan.inner(), &expected);
}

#[test]
fn every_predicate_is_held_against_every_geometry_column() {
    let boxes = vec![vec![stored(0.0, 0.0, 1.0, 1.0), stored(5.0, 5.0, 6.0, 6.0)]];
    let meta = meta(&["g", "h"], boxes);
    let on_g = predicate("g", 0.0, 0.0, 1.0, 1.0);
    let on_h = predicate("h", 5.0, 5.0, 6.0, 6.0);
    let plan = geo_access_plan(&meta, &vec![on_g.clone()]);
    assert_eq!(plan.inner(), &[RowGroupAccess::Scan]);
    let plan = geo_access_plan(&meta, &vec![on_h.clone()]);
    assert_eq!(plan.inner(), &[RowGroupAccess::Scan]);
    let plan = geo_access_plan(&meta, &vec![on_g, on_h]);
    assert_eq!(plan.inner(), &[RowGroupAccess::Skip]);
}

#[test]
fn stored_boxes_are_turned_over() {
    let meta = meta(&["g"], vec![vec![stored(170.0, 0.0, -170.0, 1.0)]]);
    let plan = geo_access_plan(&meta, &vec![predicate("g", 0.0, 0.0, 1.0, 1.0)]);
    assert_eq!(plan.inner(), &[RowGroupAccess::Scan]);
    let plan = geo_access_plan(&meta, &vec![predicate("g", 175.0, 0.0, 176.0, 1.0)]);
    assert_eq!(plan.inner(), &[RowGroupAccess::Skip]);
}

#[test]
fn nan_boxes_are_read() {
    let meta = meta(&["g"], vec![vec![stored(f64::NAN, 0.0, f64::NAN, 1.0)]]);
    let plan = geo_access_plan(&meta, &vec![predicate("g", 50.0, 0.0, 60.0, 1.0)]);
    assert_eq!(plan.inner(), &[RowGroupAccess::Scan]);
}

#[test]
fn unknown_column_prunes_nothing() {
    let meta = meta(&["g"], vec![vec![stored(0.0, 0.0, 1.0, 1.0)]]);
    let plan = geo_access_plan(&meta, &vec![predicate("x", 50.0, 0.0, 60.0, 1.0)]);
    assert_eq!(plan.inner(), &[RowGroupAccess::Scan]);
}

#[test]
fn impossible_plans_are_told() {
    let filters = vec![predicate("g", 0.0, 0.0, 1.0, 1.0)];
    assert!(!check_plan(&meta(&[], vec![]), &filters));
    assert!(check_plan(&meta(&[], vec![]), &vec![]));
    assert!(!check_plan(&meta(&["a", "g"], vec![vec![None]]), &filters));
    assert!(check_plan(&meta(&["a", "g"], vec![vec![None, None]]), &filters));
}

#[test]
fn table_keeps_its_listing() {
    let (listing, table) = table();
    assert!(Arc::ptr_eq(&listing, table.inner()));
}

#[test]
fn scan_without_spatial_predicate_is_left_to_the_listing() {
    let (_, table) = table();
    let filters = vec![FilterExpr::Other];
    assert!(matches!(table.scan(&filters), ScanStep::Inner));
    assert!(table.extract_spatial_filters(&filters).is_empty());
    let support = table.supports_filters_pushdown(&filters);
    assert_eq!(support, vec![FilterPushDown::Inexact]);
}

#[test]
fn scan_with_spatial_predicate_is_pruned() {
    let (_, table) = table();
    let filters = vec![FilterExpr::Other, intersects("POLYGON ((0 0, 4 0, 4 2, 0 0))")];
    match table.checked_scan(&filters) {
        Ok(ScanStep::Pruned(kept)) => {
            assert_eq!(kept.len(), 1);
            assert_eq!(kept[0].query_bounds, Rect::new(of(0.0), of(0.0), of(4.0), of(2.0)));
        }
        _ => panic!("expected a pruned scan"),
    }
    let filters = vec![intersects("LINESTRING (0 0, 1 1)")];
    assert_eq!(table.checked_scan(&filters).err(), Some(QueryError::NotAPolygon));
}
