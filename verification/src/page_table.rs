//! Pruning of single pages by an index over their bounds.
use datafusion::datasource::listing::ListingTable;
use datafusion_datasource_parquet::ParquetAccessPlan;
use std::sync::Arc;
use vstd::prelude::*;
use crate::metadata::FileMeta;
use crate::outside::PageTree;
use crate::outside::plan_groups;
use crate::outside::select_rows;
use crate::outside::tree_pages;
use crate::page::PageBounds;
use crate::page::PageInfo;
use crate::page::PageSet;
use crate::page_index::PageRead;
use crate::page_index::build_geo_index;
use crate::page_index::can_index;
use crate::page_index::can_index_values;
use crate::page_index::check_pages;
use crate::page_index::distances_fit;
use crate::page_index::entries;
use crate::page_index::flat_pages;
use crate::page_index::has_pages;
use crate::page_index::hit_pages;
use crate::page_index::index_values;
use crate::page_index::is_layout;
use crate::page_index::law_list_and_tree_agree;
use crate::page_index::law_page_of_a_match_is_found;
use crate::page_index::law_pages_follow_one_another;
use crate::page_index::located_pages;
use crate::page_index::overlapping_pages;
use crate::page_index::page_rows;
use crate::page_index::page_starts;
use crate::page_index::rows_before;
use crate::page_index::rows_in_page;
use crate::page_index::value_entries;
use crate::predicate::FilterExpr;
use crate::predicate::FilterPushDown;
use crate::predicate::QueryError;
use crate::predicate::ScanStep;
use crate::predicate::SpatialPredicate;
use crate::predicate::all_readable;
use crate::predicate::check_filters;
use crate::predicate::inexact_pushdown;
use crate::predicate::is_first_error;
use crate::predicate::predicates_of;
use crate::predicate::scan_step;
use crate::predicate::spatial_predicates;
use crate::predicate::views;
use crate::rect::Extent;
use crate::rect::Rect;
use crate::selection::GroupAccess;
use crate::selection::Run;
use crate::selection::can_count;
use crate::selection::law_row_follows_its_run;
use crate::selection::law_rows_are_counted;
use crate::selection::lemma_total_fits;
use crate::selection::rows_of;
use crate::selection::runs_fit;
use crate::selection::total_rows;

verus! {

/// The leaf column whose pages a plan selects: the geometry column of the data set.
pub const GEOMETRY_COLUMN: usize = 33;

/// The runs of a row group: a page's rows are read where the page is in the set.
pub open spec fn group_runs(
    first_rows: Seq<i64>,
    num_rows: i64,
    group: int,
    pages: Set<PageInfo>,
) -> Seq<Run> {
    Seq::new(
        first_rows.len(),
        |p: int|
            Run {
                row_count: page_rows(first_rows, num_rows, p),
                skip: !pages.contains(
                    PageInfo { row_group_id: group as usize, page_id: p as usize },
                ),
            },
    )
}

/// The runs of row group `group` of a file.
pub open spec fn file_runs(meta: FileMeta, pages: Set<PageInfo>, group: int) -> Seq<Run> {
    group_runs(
        page_starts(meta, group, GEOMETRY_COLUMN as int),
        meta.row_groups@[group].num_rows,
        group,
        pages,
    )
}

/// What is read of each row group of a file: the rows of the pages in the set, or
/// everything where the set is empty.
pub open spec fn selected_groups(meta: FileMeta, pages: Set<PageInfo>) -> Seq<GroupAccess> {
    Seq::new(
        meta.row_groups@.len(),
        |g: int|
            if pages == Set::<PageInfo>::empty() {
                GroupAccess::Scan
            } else {
                GroupAccess::Selection(rows_of(file_runs(meta, pages, g)))
            },
    )
}

/// Whether a plan can be made: with a page to select, the file has page offsets for the
/// geometry column, and the rows of neighbouring pages that are treated alike can be counted.
pub open spec fn can_plan(meta: FileMeta, pages: Set<PageInfo>) -> bool {
    pages != Set::<PageInfo>::empty() ==> {
        &&& has_pages(meta, GEOMETRY_COLUMN as int)
        &&& forall|g: int|
            0 <= g < meta.row_groups@.len() ==> runs_fit(#[trigger] file_runs(meta, pages, g))
    }
}

/// The runs of row group `group`.
fn runs_of_group(first_rows: &Vec<i64>, num_rows: i64, group: usize, scan_pages: &PageSet) -> (runs:
    Vec<Run>)
    requires
        scan_pages.wf(),
        distances_fit(first_rows@, num_rows),
    ensures
        runs@ == group_runs(first_rows@, num_rows, group as int, scan_pages@),
{
    let mut runs: Vec<Run> = Vec::new();
    let ghost wanted = group_runs(first_rows@, num_rows, group as int, scan_pages@);
    for p in 0..first_rows.len()
        invariant
            scan_pages.wf(),
            distances_fit(first_rows@, num_rows),
            wanted == group_runs(first_rows@, num_rows, group as int, scan_pages@),
            runs@ == wanted.take(p as int),
    {
        let rows: usize = rows_in_page(first_rows, num_rows, p);
        let page = PageInfo { row_group_id: group, page_id: p };
        if scan_pages.contains(&page) {
            runs.push(Run { row_count: rows, skip: false });
        } else {
            runs.push(Run { row_count: rows, skip: true });
        }
        assert(runs@ =~= wanted.take(p + 1));
    }
    assert(runs@ =~= wanted);
    runs
}

/// Whether a plan can be made.
pub fn check_plan(meta: &FileMeta, scan_pages: &PageSet) -> (possible: bool)
    requires
        scan_pages.wf(),
    ensures
        possible == can_plan(*meta, scan_pages@),
{
    if scan_pages.is_empty() {
        return true;
    }
    if !check_pages(meta, GEOMETRY_COLUMN) {
        return false;
    }
    if let Some(offset_index) = &meta.offset_index {
        for g in 0..meta.row_groups.len()
            invariant
                scan_pages.wf(),
                scan_pages@ != Set::<PageInfo>::empty(),
                has_pages(*meta, GEOMETRY_COLUMN as int),
                meta.offset_index == Some(*offset_index),
                forall|k: int|
                    0 <= k < g ==> runs_fit(#[trigger] file_runs(*meta, scan_pages@, k)),
        {
            assert(GEOMETRY_COLUMN < offset_index@[g as int]@.len());
            let first_rows: &Vec<i64> = &offset_index[g][GEOMETRY_COLUMN];
            let num_rows: i64 = meta.row_groups[g].num_rows;
            let runs: Vec<Run> = runs_of_group(first_rows, num_rows, g, scan_pages);
            assert(runs@ == file_runs(*meta, scan_pages@, g as int));
            if !can_count(&runs) {
                return false;
            }
        }
    }
    true
}

/// Plans what to read of a file: the rows of the given pages, or everything where no page
/// is given.
pub fn geo_access_plan(meta: &FileMeta, scan_pages: &PageSet) -> (plan: ParquetAccessPlan)
    requires
        scan_pages.wf(),
        can_plan(*meta, scan_pages@),
    ensures
        plan_groups(&plan) == selected_groups(*meta, scan_pages@),
{
    let mut plan: ParquetAccessPlan = ParquetAccessPlan::new_all(meta.row_groups.len());
    let ghost goal = selected_groups(*meta, scan_pages@);
    if scan_pages.is_empty() {
        assert(plan_groups(&plan) =~= goal);
        return plan;
    }
    if let Some(offset_index) = &meta.offset_index {
        for g in 0..meta.row_groups.len()
            invariant
                scan_pages.wf(),
                scan_pages@ != Set::<PageInfo>::empty(),
                can_plan(*meta, scan_pages@),
                meta.offset_index == Some(*offset_index),
                goal == selected_groups(*meta, scan_pages@),
                plan_groups(&plan).len() == goal.len(),
                forall|k: int| 0 <= k < g ==> #[trigger] plan_groups(&plan)[k] == goal[k],
                forall|k: int|
                    g <= k < goal.len() ==> #[trigger] plan_groups(&plan)[k] == GroupAccess::Scan,
        {
            assert(GEOMETRY_COLUMN < offset_index@[g as int]@.len());
            let first_rows: &Vec<i64> = &offset_index[g][GEOMETRY_COLUMN];
            let num_rows: i64 = meta.row_groups[g].num_rows;
            let runs: Vec<Run> = runs_of_group(first_rows, num_rows, g, scan_pages);
            assert(runs@ == file_runs(*meta, scan_pages@, g as int));
            plan.scan_selection(g, select_rows(runs));
        }
    }
    assert(plan_groups(&plan) =~= goal);
    plan
}

/// A table over a listing of files that reads only pages whose bounds fit the query.
pub struct GeoParquetNextTable {
    inner: Arc<ListingTable>,
    index: PageTree,
    flat_index: Vec<PageBounds>,
    use_flat: bool,
}

impl GeoParquetNextTable {
    /// The inner table.
    pub closed spec fn listing(self) -> Arc<ListingTable> {
        self.inner
    }

    /// The indexed pages, in file order.
    pub closed spec fn pages(self) -> Seq<PageBounds> {
        self.flat_index@
    }

    /// Whether the list is asked, and not the tree.
    pub closed spec fn asks_list(self) -> bool {
        self.use_flat
    }

    /// Tree and list hold the same pages, and all bounds are in order.
    pub closed spec fn wf(self) -> bool {
        &&& tree_pages(&self.index) == self.flat_index@.to_multiset()
        &&& forall|i: int|
            0 <= i < self.flat_index@.len() ==> (#[trigger] self.flat_index@[i]).bounds.wf()
    }

    /// A table around the listing table that does the scanning, with an index over the
    /// pages of its file: the reads of every page, and the bounds of the geometries that
    /// each gave.
    pub fn new(
        listing_table: Arc<ListingTable>,
        reads: &Vec<PageRead>,
        page_rects: &Vec<Vec<Rect>>,
        use_flat: bool,
    ) -> (table: GeoParquetNextTable)
        requires
            can_index(reads@, page_rects@),
        ensures
            table.wf(),
            table.listing() == listing_table,
            table.pages() == entries(reads@, page_rects@),
            table.asks_list() == use_flat,
    {
        let (index, flat_index): (PageTree, Vec<PageBounds>) = build_geo_index(reads, page_rects);
        GeoParquetNextTable { inner: listing_table, index, flat_index, use_flat }
    }

    /// A table around the listing table that does the scanning, with an index over the
    /// pages of its file: the reads of every page, and the values of the geometry column
    /// that each gave. There is none where a value is no geometry with bounds that can be
    /// joined.
    pub fn from_values(
        listing_table: Arc<ListingTable>,
        reads: &Vec<PageRead>,
        page_values: &Vec<Vec<Vec<u8>>>,
        use_flat: bool,
    ) -> (table: Option<GeoParquetNextTable>)
        ensures
            table is Some <==> can_index_values(reads@, page_values@),
            table matches Some(t) ==> {
                &&& t.wf()
                &&& t.listing() == listing_table
                &&& t.pages() == value_entries(reads@, page_values@)
                &&& t.asks_list() == use_flat
                &&& forall|i: int|
                    0 <= i < t.pages().len() ==> (#[trigger] t.pages()[i]).bounds.is_valid()
            },
    {
        match index_values(reads, page_values) {
            Some((index, flat_index)) => Some(
                GeoParquetNextTable { inner: listing_table, index, flat_index, use_flat },
            ),
            None => None,
        }
    }

    /// The inner table.
    pub fn inner(&self) -> (inner: &Arc<ListingTable>)
        ensures
            *inner == self.listing(),
    {
        &self.inner
    }

    /// The indexed pages, in file order.
    pub fn flat_index(&self) -> (pages: &Vec<PageBounds>)
        ensures
            pages@ == self.pages(),
    {
        &self.flat_index
    }

    /// Whether the list is asked, and not the tree.
    pub fn use_flat(&self) -> (flat: bool)
        ensures
            flat == self.asks_list(),
    {
        self.use_flat
    }

    /// Extracts the spatial predicates among filter expressions, in order.
    pub fn extract_spatial_filters(&self, filters: &Vec<FilterExpr>) -> (predicates: Vec<
        SpatialPredicate,
    >)
        requires
            all_readable(filters@),
        ensures
            views(predicates@) == predicates_of(filters@),
            forall|i: int|
                0 <= i < predicates@.len() ==> (#[trigger] predicates@[i]).query_bounds.wf()
                    && predicates@[i].query_bounds.is_valid(),
    {
        spatial_predicates(filters)
    }

    /// Decides how a scan with the given filters proceeds: without a spatial predicate the
    /// inner table scans.
    pub fn scan(&self, filters: &Vec<FilterExpr>) -> (step: ScanStep)
        requires
            all_readable(filters@),
        ensures
            step.follows(predicates_of(filters@)),
    {
        scan_step(self.extract_spatial_filters(filters))
    }

    /// Decides how a scan proceeds, or tells what is wrong with the first query polygon that
    /// has no bounds.
    pub fn checked_scan(&self, filters: &Vec<FilterExpr>) -> (step: Result<ScanStep, QueryError>)
        ensures
            step is Ok <==> all_readable(filters@),
            step matches Ok(s) ==> s.follows(predicates_of(filters@)),
            step matches Err(error) ==> is_first_error(filters@, error),
    {
        match check_filters(filters) {
            Ok(()) => Ok(self.scan(filters)),
            Err(error) => Err(error),
        }
    }

    /// The pages that a query needs. The list is asked by `flat_hits`, which tells of each
    /// indexed page whether its polygon intersects the query; the tree is asked by the
    /// bounds.
    pub open spec fn needed_pages(self, query: Rect, flat_hits: Seq<bool>) -> Set<PageInfo> {
        if self.asks_list() {
            hit_pages(self.pages(), flat_hits)
        } else {
            overlapping_pages(self.pages().to_multiset(), query)
        }
    }

    /// Finds the pages that the first of the predicates needs.
    pub fn scan_pages(
        &self,
        spatial_filters: &Vec<SpatialPredicate>,
        flat_hits: &Vec<bool>,
    ) -> (found: PageSet)
        requires
            self.wf(),
            spatial_filters@.len() > 0,
            spatial_filters@[0].query_bounds.wf(),
            self.asks_list() ==> flat_hits@.len() == self.pages().len(),
        ensures
            found.wf(),
            found@ == self.needed_pages(spatial_filters@[0].query_bounds, flat_hits@),
    {
        let filter: &SpatialPredicate = &spatial_filters[0];
        if self.use_flat {
            flat_pages(&self.flat_index, flat_hits)
        } else {
            located_pages(&self.index, &filter.query_bounds)
        }
    }

    /// How far each filter is applied by the table.
    pub fn supports_filters_pushdown(&self, filters: &Vec<FilterExpr>) -> (support: Vec<
        FilterPushDown,
    >)
        ensures
            support@ == Seq::new(filters@.len(), |i: int| FilterPushDown::Inexact),
    {
        inexact_pushdown(filters.len())
    }
}

pub(crate) proof fn lemma_runs_before(
    first_rows: Seq<i64>,
    num_rows: i64,
    group: int,
    pages: Set<PageInfo>,
    page: int,
)
    requires
        0 <= page <= first_rows.len(),
    ensures
        total_rows(group_runs(first_rows, num_rows, group, pages).take(page)) == rows_before(
            first_rows,
            num_rows,
            page,
        ),
    decreases page,
{
    let runs = group_runs(first_rows, num_rows, group, pages);
    if page > 0 {
        lemma_runs_before(first_rows, num_rows, group, pages, page - 1);
        assert(runs.take(page).drop_last() =~= runs.take(page - 1));
    }
}

/// With a page to select, a row is read exactly where the page that it lies in is in the
/// set: row `row` of page `page` comes after the rows of the pages before it.
pub proof fn law_row_is_read_with_its_page(
    meta: FileMeta,
    pages: Set<PageInfo>,
    group: int,
    page: int,
    row: int,
)
    requires
        pages != Set::<PageInfo>::empty(),
        0 <= group < meta.row_groups@.len(),
        0 <= page < page_starts(meta, group, GEOMETRY_COLUMN as int).len(),
        0 <= row < page_rows(
            page_starts(meta, group, GEOMETRY_COLUMN as int),
            meta.row_groups@[group].num_rows,
            page,
        ),
    ensures
        selected_groups(meta, pages)[group] matches GroupAccess::Selection(rows) && rows[rows_before(
            page_starts(meta, group, GEOMETRY_COLUMN as int),
            meta.row_groups@[group].num_rows,
            page,
        ) + row] == pages.contains(
            PageInfo { row_group_id: group as usize, page_id: page as usize },
        ),
{
    let starts = page_starts(meta, group, GEOMETRY_COLUMN as int);
    let num_rows = meta.row_groups@[group].num_rows;
    lemma_runs_before(starts, num_rows, group, pages, page);
    law_row_follows_its_run(file_runs(meta, pages, group), page, row);
}

/// With a page to select, the selection of a row group whose pages follow one another can
/// be made and covers exactly the row group's rows.
pub proof fn law_selection_covers_the_group(
    first_rows: Seq<i64>,
    num_rows: i64,
    group: int,
    pages: Set<PageInfo>,
)
    requires
        is_layout(first_rows, num_rows),
    ensures
        distances_fit(first_rows, num_rows),
        runs_fit(group_runs(first_rows, num_rows, group, pages)),
        rows_of(group_runs(first_rows, num_rows, group, pages)).len() == num_rows,
{
    let runs = group_runs(first_rows, num_rows, group, pages);
    law_pages_follow_one_another(first_rows, num_rows, first_rows.len() as int);
    lemma_runs_before(first_rows, num_rows, group, pages, first_rows.len() as int);
    assert(runs.take(first_rows.len() as int) =~= runs);
    law_rows_are_counted(runs);
    lemma_total_fits(runs);
}

/// Where no page is found, every row group is read whole.
pub proof fn law_nothing_found_reads_all(meta: FileMeta, group: int)
    requires
        0 <= group < meta.row_groups@.len(),
    ensures
        selected_groups(meta, Set::<PageInfo>::empty())[group] == GroupAccess::Scan,
{
}

/// Pruning loses no match: every row of a page is read if the list is asked and marks the
/// page as a hit, or if the tree is asked and the page's indexed bounds cover a geometry that
/// overlaps the query.
pub proof fn law_matching_page_is_read(
    table: GeoParquetNextTable,
    at: int,
    geometry: Extent,
    query: Rect,
    flat_hits: Seq<bool>,
    meta: FileMeta,
    row: int,
)
    requires
        0 <= at < table.pages().len(),
        table.asks_list() ==> flat_hits[at],
        !table.asks_list() ==> {
            &&& table.pages()[at].bounds.covers(geometry)
            &&& query.is_numeric()
            &&& geometry.overlaps(query.as_extent())
        },
        table.pages()[at].data.row_group_id < meta.row_groups@.len(),
        table.pages()[at].data.page_id < page_starts(
            meta,
            table.pages()[at].data.row_group_id as int,
            GEOMETRY_COLUMN as int,
        ).len(),
        0 <= row < page_rows(
            page_starts(
                meta,
                table.pages()[at].data.row_group_id as int,
                GEOMETRY_COLUMN as int,
            ),
            meta.row_groups@[table.pages()[at].data.row_group_id as int].num_rows,
            table.pages()[at].data.page_id as int,
        ),
    ensures
        ({
            let data = table.pages()[at].data;
            let group = data.row_group_id as int;
            selected_groups(meta, table.needed_pages(query, flat_hits))[group]
                matches GroupAccess::Selection(rows) && rows[rows_before(
                page_starts(meta, group, GEOMETRY_COLUMN as int),
                meta.row_groups@[group].num_rows,
                data.page_id as int,
            ) + row]
        }),
{
    let data = table.pages()[at].data;
    if !table.asks_list() {
        law_page_of_a_match_is_found(table.pages(), at, geometry, query);
    }
    assert(table.needed_pages(query, flat_hits).contains(data));
    law_row_is_read_with_its_page(
        meta,
        table.needed_pages(query, flat_hits),
        data.row_group_id as int,
        data.page_id as int,
        row,
    );
}

/// Whether the list or the tree is asked makes no difference to what is read, where the list
/// is asked by the overlap of bounds.
pub proof fn law_search_does_not_change_the_plan(
    by_list: GeoParquetNextTable,
    by_tree: GeoParquetNextTable,
    query: Rect,
    list_hits: Seq<bool>,
    tree_hits: Seq<bool>,
    meta: FileMeta,
)
    requires
        by_list.asks_list(),
        !by_tree.asks_list(),
        by_list.pages() == by_tree.pages(),
        list_hits.len() == by_list.pages().len(),
        forall|i: int|
            0 <= i < list_hits.len() ==> list_hits[i] == (query.is_numeric() && (
            #[trigger] by_list.pages()[i]).bounds.overlaps(query.as_extent())),
    ensures
        by_list.needed_pages(query, list_hits) == by_tree.needed_pages(query, tree_hits),
        selected_groups(meta, by_list.needed_pages(query, list_hits)) == selected_groups(
            meta,
            by_tree.needed_pages(query, tree_hits),
        ),
{
    let pages = by_list.pages();
    assert forall|i: int| 0 <= i < pages.len() implies #[trigger] list_hits[i] == (
    query.is_numeric() && pages[i].bounds.overlaps(query.as_extent())) by {
        assert(by_list.pages()[i] == pages[i]);
    }
    law_list_and_tree_agree(pages, list_hits, query);
}

} // verus!
