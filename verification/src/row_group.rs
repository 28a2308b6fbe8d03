//! Pruning of whole row groups by the bounding boxes in their statistics.
use datafusion::datasource::listing::ListingTable;
use datafusion_datasource_parquet::ParquetAccessPlan;
use std::sync::Arc;
use vstd::prelude::*;
use crate::metadata::FileMeta;
use crate::metadata::RowGroupMeta;
use crate::metadata::column_places;
use crate::metadata::law_places_name_columns;
use crate::metadata::names;
use crate::metadata::spatial_column_indexes;
use crate::outside::plan_groups;
use crate::predicate::FilterExpr;
use crate::predicate::FilterPushDown;
use crate::predicate::PredicateView;
use crate::predicate::QueryError;
use crate::predicate::ScanStep;
use crate::predicate::SpatialPredicate;
use crate::predicate::all_readable;
use crate::predicate::check_filters;
use crate::predicate::inexact_pushdown;
use crate::predicate::is_first_error;
use crate::predicate::predicates_of;
use crate::predicate::scan_step;
use crate::predicate::spatial_predicates;
use crate::predicate::views;
use crate::rect::Extent;
use crate::rect::Rect;
use crate::selection::GroupAccess;

verus! {

/// Whether a row group stores a bounding box for a column that misses the query.
pub open spec fn box_misses(group: RowGroupMeta, column: int, query: Rect) -> bool {
    group.boxes@[column] matches Some(stored) && !stored.as_rect().meets(query)
}

/// Whether a row group is left out: some bounding box of a geometry column misses the
/// bounds of some predicate.
pub open spec fn is_pruned(
    group: RowGroupMeta,
    columns: Seq<usize>,
    filters: Seq<PredicateView>,
) -> bool {
    exists|c: int, f: int|
        0 <= c < columns.len() && 0 <= f < filters.len() && box_misses(
            group,
            #[trigger] columns[c] as int,
            (#[trigger] filters[f]).query_bounds,
        )
}

/// Whether a row group has statistics for all of the given columns.
pub open spec fn has_columns(group: RowGroupMeta, columns: Seq<usize>) -> bool {
    forall|c: int| 0 <= c < columns.len() ==> (#[trigger] columns[c]) < group.boxes@.len()
}

/// What is read of each row group of a file.
pub open spec fn pruned_groups(meta: FileMeta, filters: Seq<PredicateView>) -> Seq<GroupAccess> {
    let columns = column_places(names(meta.columns@), filters);
    Seq::new(
        meta.row_groups@.len(),
        |g: int|
            if is_pruned(meta.row_groups@[g], columns, filters) {
                GroupAccess::Skip
            } else {
                GroupAccess::Scan
            },
    )
}

fn misses_some_query(
    group: &RowGroupMeta,
    columns: &Vec<usize>,
    spatial_filters: &Vec<SpatialPredicate>,
) -> (pruned: bool)
    requires
        has_columns(*group, columns@),
    ensures
        pruned == is_pruned(*group, columns@, views(spatial_filters@)),
{
    let ghost filters = views(spatial_filters@);
    for c in 0..columns.len()
        invariant
            has_columns(*group, columns@),
            filters == views(spatial_filters@),
            forall|k: int, f: int|
                0 <= k < c && 0 <= f < filters.len() ==> !box_misses(
                    *group,
                    #[trigger] columns@[k] as int,
                    (#[trigger] filters[f]).query_bounds,
                ),
    {
        let column: usize = columns[c];
        if let Some(stored) = &group.boxes[column] {
            let rect: Rect = stored.to_rect();
            for f in 0..spatial_filters.len()
                invariant
                    c < columns@.len(),
                    column == columns@[c as int],
                    column < group.boxes@.len(),
                    group.boxes@[column as int] == Some(*stored),
                    rect == stored.as_rect(),
                    filters == views(spatial_filters@),
                    forall|k: int|
                        0 <= k < f ==> !box_misses(
                            *group,
                            column as int,
                            (#[trigger] filters[k]).query_bounds,
                        ),
            {
                assert(filters[f as int].query_bounds == spatial_filters@[f as int].query_bounds);
                if !rect.intersects(&spatial_filters[f].query_bounds) {
                    assert(box_misses(
                        *group,
                        columns@[c as int] as int,
                        filters[f as int].query_bounds,
                    ));
                    return true;
                }
            }
        }
    }
    false
}

/// Whether a plan can be made: with a predicate, the file has a row group, and every row
/// group has statistics for the geometry columns.
pub open spec fn can_plan(meta: FileMeta, filters: Seq<PredicateView>) -> bool {
    &&& filters.len() > 0 ==> meta.row_groups@.len() > 0
    &&& forall|g: int|
        0 <= g < meta.row_groups@.len() ==> has_columns(
            #[trigger] meta.row_groups@[g],
            column_places(names(meta.columns@), filters),
        )
}

/// Whether a plan can be made.
pub fn check_plan(meta: &FileMeta, spatial_filters: &Vec<SpatialPredicate>) -> (possible: bool)
    ensures
        possible == can_plan(*meta, views(spatial_filters@)),
{
    if spatial_filters.len() > 0 && meta.row_groups.len() == 0 {
        return false;
    }
    let columns: Vec<usize> = spatial_column_indexes(meta, spatial_filters);
    for g in 0..meta.row_groups.len()
        invariant
            columns@ == column_places(names(meta.columns@), views(spatial_filters@)),
            forall|k: int| 0 <= k < g ==> has_columns(#[trigger] meta.row_groups@[k], columns@),
    {
        for c in 0..columns.len()
            invariant
                g < meta.row_groups@.len(),
                columns@ == column_places(names(meta.columns@), views(spatial_filters@)),
                forall|k: int|
                    0 <= k < c ==> (#[trigger] columns@[k])
                        < meta.row_groups@[g as int].boxes@.len(),
        {
            if columns[c] >= meta.row_groups[g].boxes.len() {
                assert(!has_columns(meta.row_groups@[g as int], columns@));
                return false;
            }
        }
    }
    true
}

/// Plans what to read of a file: row groups that have a bounding box of a geometry column
/// which misses the bounds of a predicate are skipped, all others are read whole.
pub fn geo_access_plan(meta: &FileMeta, spatial_filters: &Vec<SpatialPredicate>) -> (plan:
    ParquetAccessPlan)
    requires
        can_plan(*meta, views(spatial_filters@)),
    ensures
        plan_groups(&plan) == pruned_groups(*meta, views(spatial_filters@)),
{
    let mut plan: ParquetAccessPlan = ParquetAccessPlan::new_all(meta.row_groups.len());
    let columns: Vec<usize> = spatial_column_indexes(meta, spatial_filters);
    let ghost goal = pruned_groups(*meta, views(spatial_filters@));
    for g in 0..meta.row_groups.len()
        invariant
            goal == pruned_groups(*meta, views(spatial_filters@)),
            columns@ == column_places(names(meta.columns@), views(spatial_filters@)),
            forall|k: int|
                0 <= k < meta.row_groups@.len() ==> has_columns(
                    #[trigger] meta.row_groups@[k],
                    columns@,
                ),
            plan_groups(&plan).len() == goal.len(),
            forall|k: int| 0 <= k < g ==> #[trigger] plan_groups(&plan)[k] == goal[k],
            forall|k: int|
                g <= k < goal.len() ==> #[trigger] plan_groups(&plan)[k] == GroupAccess::Scan,
    {
        if misses_some_query(&meta.row_groups[g], &columns, spatial_filters) {
            plan.skip(g);
        }
    }
    assert(plan_groups(&plan) =~= goal);
    plan
}

/// A table over a listing of files that leaves out row groups by their bounding boxes.
#[derive(Debug)]
pub struct ParquetGeoTable {
    inner: Arc<ListingTable>,
}

impl ParquetGeoTable {
    /// The inner table.
    pub closed spec fn listing(self) -> Arc<ListingTable> {
        self.inner
    }

    /// A table around the listing table that does the scanning.
    pub fn new(listing_table: Arc<ListingTable>) -> (table: ParquetGeoTable)
        ensures
            table.listing() == listing_table,
    {
        ParquetGeoTable { inner: listing_table }
    }

    /// The inner table.
    pub fn inner(&self) -> (inner: &Arc<ListingTable>)
        ensures
            *inner == self.listing(),
    {
        &self.inner
    }

    /// Extracts the spatial predicates among filter expressions, in order.
    pub fn extract_spatial_filters(&self, filters: &Vec<FilterExpr>) -> (predicates: Vec<
        SpatialPredicate,
    >)
        requires
            all_readable(filters@),
        ensures
            views(predicates@) == predicates_of(filters@),
            forall|i: int|
                0 <= i < predicates@.len() ==> (#[trigger] predicates@[i]).query_bounds.wf()
                    && predicates@[i].query_bounds.is_valid(),
    {
        spatial_predicates(filters)
    }

    /// Decides how a scan with the given filters proceeds: without a spatial predicate the
    /// inner table scans.
    pub fn scan(&self, filters: &Vec<FilterExpr>) -> (step: ScanStep)
        requires
            all_readable(filters@),
        ensures
            step.follows(predicates_of(filters@)),
    {
        scan_step(self.extract_spatial_filters(filters))
    }

    /// Decides how a scan proceeds, or tells what is wrong with the first query polygon that
    /// has no bounds.
    pub fn checked_scan(&self, filters: &Vec<FilterExpr>) -> (step: Result<ScanStep, QueryError>)
        ensures
            step is Ok <==> all_readable(filters@),
            step matches Ok(s) ==> s.follows(predicates_of(filters@)),
            step matches Err(error) ==> is_first_error(filters@, error),
    {
        match check_filters(filters) {
            Ok(()) => Ok(self.scan(filters)),
            Err(error) => Err(error),
        }
    }

    /// How far each filter is applied by the table.
    pub fn supports_filters_pushdown(&self, filters: &Vec<FilterExpr>) -> (support: Vec<
        FilterPushDown,
    >)
        ensures
            support@ == Seq::new(filters@.len(), |i: int| FilterPushDown::Inexact),
    {
        inexact_pushdown(filters.len())
    }
}

/// Pruning loses nothing where all predicates name one column: a row group is read if every
/// box that it stores for a column of that name encloses a geometry that meets the bounds of
/// every predicate.
pub proof fn law_matching_group_is_read(
    meta: FileMeta,
    filters: Seq<PredicateView>,
    name: Seq<char>,
    group: int,
    geometry: Extent,
)
    requires
        meta.columns@.len() <= usize::MAX,
        0 <= group < meta.row_groups@.len(),
        forall|c: int|
            0 <= c < meta.columns@.len() && (#[trigger] meta.columns@[c])@ == name ==> (
            meta.row_groups@[group].boxes@[c] matches Some(stored) ==> stored.as_rect().encloses(
                geometry.as_rect(),
            )),
        forall|f: int|
            0 <= f < filters.len() ==> {
                &&& (#[trigger] filters[f]).geometry_column == name
                &&& geometry.as_rect().meets(filters[f].query_bounds)
            },
    ensures
        pruned_groups(meta, filters)[group] == GroupAccess::Scan,
{
    let columns = column_places(names(meta.columns@), filters);
    assert forall|c: int, f: int|
        0 <= c < columns.len() && 0 <= f < filters.len() implies !box_misses(
        meta.row_groups@[group],
        #[trigger] columns[c] as int,
        (#[trigger] filters[f]).query_bounds,
    ) by {
        law_places_name_columns(names(meta.columns@), filters, columns[c]);
        assert(columns.contains(columns[c]));
        assert(meta.columns@[columns[c] as int]@ == name);
    }
}

/// A row group is left out only where its stored box and the bounds of some predicate have
/// no point in common, and a row group without a box is always read.
pub proof fn law_pruned_group_misses(
    group: RowGroupMeta,
    columns: Seq<usize>,
    filters: Seq<PredicateView>,
)
    ensures
        is_pruned(group, columns, filters) ==> exists|c: int, f: int|
            {
                &&& 0 <= c < columns.len()
                &&& 0 <= f < filters.len()
                &&& group.boxes@[#[trigger] columns[c] as int] is Some
                &&& !group.boxes@[columns[c] as int]->Some_0.as_rect().meets(
                    (#[trigger] filters[f]).query_bounds,
                )
            },
        (forall|c: int|
            0 <= c < columns.len() ==> group.boxes@[#[trigger] columns[c] as int] is None)
            ==> !is_pruned(group, columns, filters),
{
    if is_pruned(group, columns, filters) {
        let (c, f) = choose|c: int, f: int|
            0 <= c < columns.len() && 0 <= f < filters.len() && box_misses(
                group,
                #[trigger] columns[c] as int,
                (#[trigger] filters[f]).query_bounds,
            );
        assert(group.boxes@[columns[c] as int] is Some);
    }
}

} // verus!
