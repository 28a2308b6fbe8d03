use arrow_schema::Schema;
use datafusion::datasource::file_format::parquet::ParquetFormat;
use datafusion::datasource::listing::{
    ListingOptions, ListingTable, ListingTableConfig, ListingTableUrl,
};
use datafusion_datasource_parquet::RowGroupAccess;
use geo::Intersects;
use geodatafusion_parquet::metadata::{FileMeta, RowGroupMeta};
use geodatafusion_parquet::ordinate::Ordinate;
use geodatafusion_parquet::page::{PageInfo, PageSet};
use geodatafusion_parquet::page_index::{
    build_geo_index, check_pages, check_rows, flat_pages, index_values, located_pages, page_reads,
    rows_in_page, PageRead,
};
use geodatafusion_parquet::page_table::{
    check_plan, geo_access_plan, GeoParquetNextTable, GEOMETRY_COLUMN,
};
use geodatafusion_parquet::predicate::{
    FilterExpr, FilterPushDown, QueryError, ScalarCall, ScanStep, SpatialPredicate,
};
use geodatafusion_parquet::rect::Rect;
use geodatafusion_parquet::selection::{can_count, Run};
use parquet::arrow::arrow_reader::{RowSelection, RowSelector};
use std::sync::Arc;

fn of(value: f64) -> Ordinate {
    Ordinate::from_bits(value.to_bits())
}

fn rect(x1: f64, y1: f64, x2: f64, y2: f64) -> Rect {
    Rect::new(of(x1), of(y1), of(x2), of(y2))
}

fn page(row_group_id: usize, page_id: usize) -> PageInfo {
    PageInfo { row_group_id, page_id }
}

fn set(pages: &[PageInfo]) -> PageSet {
    let mut set = PageSet::new();
    for p in pages {
        set.insert(*p);
    }
    set
}

fn meta(groups: &[(i64, &[i64])]) -> FileMeta {
    let columns = |starts: &[i64]| {
        let mut columns = vec![vec![0]; GEOMETRY_COLUMN];
        columns.push(starts.to_vec());
        columns
    };
    FileMeta {
        columns: vec!["a".to_string(), "geometry".to_string()],
        row_groups: groups
            .iter()
            .map(|g| RowGroupMeta { num_rows: g.0, boxes: vec![] })
            .collect(),
        offset_index: Some(groups.iter().map(|g| columns(g.1)).collect()),
    }
}

fn listing() -> Arc<ListingTable> {
    let url = ListingTableUrl::parse("file:///data/table/").unwrap();
    let config = ListingTableConfig::new(url)
        .with_listing_options(ListingOptions::new(Arc::new(ParquetFormat::new())))
        .with_schema(Arc::new(Schema::empty()));
    Arc::new(ListingTable::try_new(config).unwrap())
}

fn predicate(x1: f64, y1: f64, x2: f64, y2: f64) -> SpatialPredicate {
    SpatialPredicate {
        query_bounds: rect(x1, y1, x2, y2),
        geometry_column: "geometry".to_string(),
    }
}

/// A table with `n` by `n` pages, each a unit square apart from its neighbours.
fn grid(n: usize, use_flat: bool) -> GeoParquetNextTable {
    let mut reads = Vec::new();
    let mut rects = Vec::new();
    for i in 0..n {
        for j in 0..n {
            reads.push(PageRead { data: page(i, j), skip: 0, select: 1 });
            let (x, y) = (2.0 * i as f64, 2.0 * j as f64);
            rects.push(vec![rect(x, y, x + 1.0, y + 1.0)]);
        }
    }
    GeoParquetNextTable::new(listing(), &reads, &rects, use_flat)
}

#[test]
fn rows_end_where_the_next_page_starts() {
    let starts = vec![0, 4, 10];
    assert_eq!(rows_in_page(&starts, 15, 0), 4);
    assert_eq!(rows_in_page(&starts, 15, 1), 6);
    assert_eq!(rows_in_page(&starts, 15, 2), 5);
    assert_eq!(rows_in_page(&vec![3], 1, 0), usize::MAX - 1);
}

#[test]
fn reads_follow_the_pages() {
    let meta = meta(&[(15, &[0, 4, 10]), (7, &[0]), (0, &[])]);
    assert!(check_pages(&meta, GEOMETRY_COLUMN));
    assert!(check_rows(&meta, GEOMETRY_COLUMN));
    let expected = vec![
        PageRead { data: page(0, 0), skip: 0, select: 4 },
        PageRead { data: page(0, 1), skip: 4, select: 6 },
        PageRead { data: page(0, 2), skip: 10, select: 5 },
        PageRead { data: page(1, 0), skip: 0, select: 7 },
    ];
    assert_eq!(page_reads(&meta, GEOMETRY_COLUMN), expected);
}

#[test]
fn missing_offsets_are_told() {
    let mut file = meta(&[(15, &[0, 4, 10])]);
    assert!(!check_pages(&file, GEOMETRY_COLUMN + 1));
    file.offset_index = None;
    assert!(!check_pages(&file, 0));
    assert!(!check_pages(&meta(&[(0, &[i64::MIN, i64::MAX])]), GEOMETRY_COLUMN));
    let wrapped = meta(&[(5, &[2, 1, 3])]);
    assert!(check_pages(&wrapped, GEOMETRY_COLUMN));
    assert!(!check_rows(&wrapped, GEOMETRY_COLUMN));
}

#[test]
fn read_selects_only_its_rows() {
    let read = PageRead { data: page(0, 1), skip: 4, select: 6 };
    let expected = RowSelection::from(vec![RowSelector::skip(4), RowSelector::select(6)]);
    assert_eq!(read.row_selection(), expected);
    let first = PageRead { data: page(0, 0), skip: 0, select: 4 };
    assert_eq!(first.row_selection(), RowSelection::from(vec![RowSelector::select(4)]));
}

#[test]
fn index_holds_the_bounds_of_each_page() {
    let reads = vec![
        PageRead { data: page(0, 0), skip: 0, select: 2 },
        PageRead { data: page(0, 1), skip: 2, select: 1 },
        PageRead { data: page(1, 0), skip: 0, select: 0 },
    ];
    let rects = vec![
        vec![rect(0.0, 0.0, 1.0, 1.0), rect(2.0, 3.0, 4.0, 5.0)],
        vec![rect(7.0, 7.0, 8.0, 8.0)],
        vec![],
    ];
    let (tree, pages) = build_geo_index(&reads, &rects);
    assert_eq!(pages.len(), 3);
    assert_eq!(pages[0].data, page(0, 0));
    assert_eq!(pages[0].bounds.to_rect(), rect(0.0, 0.0, 4.0, 5.0));
    assert_eq!(pages[1].bounds.to_rect(), rect(7.0, 7.0, 8.0, 8.0));
    let inf = f64::INFINITY;
    assert_eq!(pages[2].bounds.to_rect(), rect(-inf, -inf, inf, inf));
    let found = located_pages(&tree, &rect(4.0, 5.0, 6.0, 6.0));
    assert_eq!(found.len(), 2);
    assert!(found.contains(&page(0, 0)));
    assert!(found.contains(&page(1, 0)));
}

#[test]
fn nan_query_finds_nothing() {
    let reads = vec![PageRead { data: page(0, 0), skip: 0, select: 1 }];
    let (tree, _) = build_geo_index(&reads, &vec![vec![rect(0.0, 0.0, 1.0, 1.0)]]);
    assert!(located_pages(&tree, &rect(f64::NAN, 0.0, f64::NAN, 1.0)).is_empty());
}

#[test]
fn list_finds_the_pages_that_are_hit() {
    let table = grid(2, true);
    let pages = table.flat_index();
    let found = flat_pages(pages, &vec![false, true, false, true]);
    assert_eq!(found.len(), 2);
    assert!(found.contains(&page(0, 1)));
    assert!(found.contains(&page(1, 1)));
    assert!(flat_pages(pages, &vec![false; 4]).is_empty());
}

#[test]
fn list_and_tree_find_the_same() {
    let n = 12;
    let (flat, tree) = (grid(n, true), grid(n, false));
    assert!(flat.use_flat());
    assert!(!tree.use_flat());
    for query in [
        predicate(0.0, 0.0, 0.0, 0.0),
        predicate(3.0, 3.0, 10.0, 7.5),
        predicate(1.2, 1.2, 1.8, 1.8),
        predicate(-5.0, -5.0, 50.0, 50.0),
    ] {
        let hits = flat
            .flat_index()
            .iter()
            .map(|p| p.bounds.to_rect().intersects(&query.query_bounds))
            .collect();
        let a = flat.scan_pages(&vec![query.clone()], &hits);
        let b = tree.scan_pages(&vec![query.clone()], &vec![]);
        assert_eq!(a.len(), b.len());
        for i in 0..n {
            for j in 0..n {
                assert_eq!(a.contains(&page(i, j)), b.contains(&page(i, j)));
                let (x, y) = (2.0 * i as f64, 2.0 * j as f64);
                let overlap = rect(x, y, x + 1.0, y + 1.0).intersects(&query.query_bounds);
                assert_eq!(b.contains(&page(i, j)), overlap);
            }
        }
    }
}

#[test]
fn polygon_test_is_the_overlap_of_bounds() {
    let sides = [-104.778104, -1.0, -0.0, 0.0, 0.1, 0.3, 1.0, 39.614196, 1e9];
    let mut bounds = Vec::new();
    for (i, low) in sides.iter().enumerate() {
        for high in &sides[i..] {
            bounds.push((*low, *high));
        }
    }
    let geo_rect = |x: (f64, f64), y: (f64, f64)| geo::Rect::new((x.0, y.0), (x.1, y.1));
    let mut touching = 0;
    for x in &bounds {
        for y in &bounds {
            let query = rect(x.0, -1.0, x.1, 0.3);
            let page = rect(y.0, 0.3, y.1, 1.0);
            let inside = rect(y.0, -0.5, y.1, 0.1);
            let above = rect(y.0, 0.5, y.1, 1.0);
            let geo_query = geo_rect(*x, (-1.0, 0.3));
            let polygon = geo_rect(*y, (0.3, 1.0)).to_polygon();
            assert_eq!(geo_query.intersects(&polygon), query.intersects(&page));
            let polygon = geo_rect(*y, (-0.5, 0.1)).to_polygon();
            assert_eq!(geo_query.intersects(&polygon), query.intersects(&inside));
            let polygon = geo_rect(*y, (0.5, 1.0)).to_polygon();
            assert_eq!(geo_query.intersects(&polygon), query.intersects(&above));
            if query.intersects(&page) {
                touching += 1;
            }
        }
    }
    assert!(touching > 0);
}

#[test]
fn only_the_first_predicate_is_asked() {
    let table = grid(3, false);
    let filters = vec![predicate(0.0, 0.0, 1.0, 1.0), predicate(4.0, 4.0, 5.0, 5.0)];
    let found = table.scan_pages(&filters, &vec![]);
    assert_eq!(found.len(), 1);
    assert!(found.contains(&page(0, 0)));
}

#[test]
fn rows_of_found_pages_are_read() {
    let meta = meta(&[(15, &[0, 4, 10]), (7, &[0])]);
    let pages = set(&[page(0, 1)]);
    assert!(check_plan(&meta, &pages));
    let plan = geo_access_plan(&meta, &pages);
    let first = RowSelection::from(vec![
        RowSelector::skip(4),
        RowSelector::select(6),
        RowSelector::skip(5),
    ]);
    let second = RowSelection::from(vec![RowSelector::skip(7)]);
    let expected = [RowGroupAccess::Selection(first), RowGroupAccess::Selection(second)];
    assert_eq!(plan.inner(), &expected);
}

#[test]
fn nothing_found_reads_everything() {
    let mut meta = meta(&[(15, &[0, 4, 10]), (7, &[0])]);
    meta.offset_index = None;
    let none = PageSet::new();
    assert!(check_plan(&meta, &none));
    let plan = geo_access_plan(&meta, &none);
    assert_eq!(plan.inner(), &[RowGroupAccess::Scan, RowGroupAccess::Scan]);
    assert!(!check_plan(&meta, &set(&[page(0, 0)])));
}

#[test]
fn uncountable_pages_are_told() {
    let wrapped = meta(&[(5, &[2, 1, 3])]);
    assert!(!check_plan(&wrapped, &set(&[page(7, 7)])));
    assert!(check_plan(&wrapped, &set(&[page(0, 0)])));
}

#[test]
fn runs_are_counted_neighbour_by_neighbour() {
    let run = |row_count: usize, skip: bool| Run { row_count, skip };
    assert!(can_count(&vec![]));
    assert!(can_count(&vec![run(usize::MAX, true), run(usize::MAX, false)]));
    assert!(!can_count(&vec![run(usize::MAX, true), run(0, false), run(1, true)]));
    assert!(can_count(&vec![run(usize::MAX, true), run(1, false), run(1, true)]));
    assert!(!can_count(&vec![run(3, true), run(usize::MAX, false), run(1, false)]));
}

#[test]
fn page_table_keeps_its_parts() {
    let listing = listing();
    let reads = vec![PageRead { data: page(4, 2), skip: 0, select: 1 }];
    let rects = vec![vec![rect(0.0, 0.0, 1.0, 1.0)]];
    let table = GeoParquetNextTable::new(listing.clone(), &reads, &rects, true);
    assert!(Arc::ptr_eq(&listing, table.inner()));
    assert_eq!(table.flat_index().len(), 1);
    assert_eq!(table.flat_index()[0].data, page(4, 2));
    assert!(table.use_flat());
}

#[test]
fn page_table_decides_its_scans() {
    let table = grid(1, false);
    let filters = vec![FilterExpr::Other];
    assert!(matches!(table.scan(&filters), ScanStep::Inner));
    assert!(table.extract_spatial_filters(&filters).is_empty());
    assert_eq!(table.supports_filters_pushdown(&filters), vec![FilterPushDown::Inexact]);
    let query = |text: &str| {
        FilterExpr::IsTrue(Box::new(FilterExpr::ScalarFunction(ScalarCall {
            name: "st_intersects".to_string(),
            args: vec![
                FilterExpr::Literal(text.to_string()),
                FilterExpr::Column("geometry".to_string()),
            ],
        })))
    };
    match table.checked_scan(&vec![query("POLYGON ((0 0, 4 0, 4 2, 0 0))")]) {
        Ok(ScanStep::Pruned(kept)) => assert_eq!(kept[0].query_bounds, rect(0.0, 0.0, 4.0, 2.0)),
        _ => panic!("expected a pruned scan"),
    }
    let error = table.checked_scan(&vec![query("POLYGON EMPTY")]).err();
    assert_eq!(error, Some(QueryError::EmptyPolygon));
}

fn point(x: f64, y: f64) -> Vec<u8> {
    let mut bytes = vec![1, 1, 0, 0, 0];
    bytes.extend(x.to_le_bytes());
    bytes.extend(y.to_le_bytes());
    bytes
}

#[test]
fn index_is_built_from_values() {
    let reads = vec![
        PageRead { data: page(0, 0), skip: 0, select: 2 },
        PageRead { data: page(0, 1), skip: 2, select: 1 },
    ];
    let values = vec![vec![point(1.0, 2.0), point(3.0, 5.0)], vec![point(9.0, 9.0)]];
    let (tree, pages) = index_values(&reads, &values).unwrap();
    assert_eq!(pages.len(), 2);
    assert_eq!(pages[0].bounds.to_rect(), rect(1.0, 2.0, 3.0, 5.0));
    assert_eq!(pages[1].bounds.to_rect(), rect(9.0, 9.0, 9.0, 9.0));
    assert_eq!(pages[1].data, page(0, 1));
    let found = located_pages(&tree, &rect(2.0, 2.0, 4.0, 4.0));
    assert_eq!(found.len(), 1);
    assert!(found.contains(&page(0, 0)));
}

#[test]
fn values_without_bounds_are_not_indexed() {
    let reads = vec![PageRead { data: page(0, 0), skip: 0, select: 1 }];
    let good = vec![vec![point(1.0, 2.0)]];
    assert!(index_values(&reads, &good).is_some());
    assert!(index_values(&reads, &vec![]).is_none());
    assert!(index_values(&reads, &vec![vec![vec![1, 1, 0]]]).is_none());
    assert!(index_values(&reads, &vec![vec![point(f64::NAN, 1.0)]]).is_none());
    let later = vec![vec![point(1.0, 2.0), point(f64::NAN, 3.0)]];
    let (_, pages) = index_values(&reads, &later).unwrap();
    assert_eq!(pages[0].bounds.to_rect(), rect(1.0, 2.0, 1.0, 3.0));
    assert!(GeoParquetNextTable::from_values(listing(), &reads, &vec![], true).is_none());
    let listing = listing();
    let table = GeoParquetNextTable::from_values(listing.clone(), &reads, &good, true).unwrap();
    assert!(Arc::ptr_eq(&listing, table.inner()));
    assert!(table.use_flat());
    assert_eq!(table.flat_index()[0].bounds.to_rect(), rect(1.0, 2.0, 1.0, 2.0));
}
