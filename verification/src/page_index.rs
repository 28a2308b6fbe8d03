//! The index over the bounds of a file's pages: what to read for it, how it is built, and
//! how it is asked.
use parquet::arrow::arrow_reader::RowSelection;
use vstd::multiset::Multiset;
use vstd::prelude::*;
use crate::geometry::all_have_rects;
use crate::geometry::rects_of;
use crate::geometry::rects_of_values;
use crate::metadata::FileMeta;
use crate::outside::PageTree;
use crate::outside::load_tree;
use crate::outside::locate_pages;
use crate::outside::select_rows;
use crate::outside::selection_rows;
use crate::outside::tree_pages;
use crate::page::PageBounds;
use crate::page::PageInfo;
use crate::page::PageSet;
use crate::rect::Extent;
use crate::rect::OverallBounds;
use crate::rect::Rect;
use crate::rect::can_push_all;
use crate::rect::law_overall_is_valid;
use crate::rect::overall;
use crate::selection::Run;
use crate::selection::is_uniform;
use crate::selection::rows_of;
use crate::selection::runs_fit;
use crate::selection::total_rows;

verus! {

/// The row that page `page` ends before: the first row of the next page, or the end of the
/// row group.
pub open spec fn page_end(first_rows: Seq<i64>, num_rows: i64, page: int) -> i64 {
    if page + 1 < first_rows.len() {
        first_rows[page + 1]
    } else {
        num_rows
    }
}

/// The number of rows in page `page`, as an unsigned number.
pub open spec fn page_rows(first_rows: Seq<i64>, num_rows: i64, page: int) -> usize {
    ((page_end(first_rows, num_rows, page) - first_rows[page]) as i64) as usize
}

/// Whether the distance between the first rows of neighbouring pages is an `i64`.
pub open spec fn distances_fit(first_rows: Seq<i64>, num_rows: i64) -> bool {
    forall|p: int|
        0 <= p < first_rows.len() ==> i64::MIN <= page_end(first_rows, num_rows, p) - (
        #[trigger] first_rows[p]) <= i64::MAX
}

/// The number of rows in the pages before page `page`.
pub open spec fn rows_before(first_rows: Seq<i64>, num_rows: i64, page: int) -> nat
    decreases page,
{
    if page <= 0 {
        0
    } else {
        rows_before(first_rows, num_rows, page - 1) + page_rows(
            first_rows,
            num_rows,
            page - 1,
        ) as nat
    }
}

/// The number of rows in page `page` of a row group.
pub fn rows_in_page(first_rows: &Vec<i64>, num_rows: i64, page: usize) -> (rows: usize)
    requires
        page < first_rows@.len(),
        distances_fit(first_rows@, num_rows),
    ensures
        rows == page_rows(first_rows@, num_rows, page as int),
{
    let pages: usize = first_rows.len();
    let first: i64 = first_rows[page];
    assert(first_rows@[page as int] == first);
    let rows: i64 = if page + 1 < pages {
        first_rows[page + 1] - first
    } else {
        num_rows - first
    };
    rows as usize
}

/// A page to be read on its own: rows `skip` to `skip + select` of its row group.
#[derive(Clone, Copy, Debug, PartialEq, Eq, Structural)]
pub struct PageRead {
    pub data: PageInfo,
    pub skip: usize,
    pub select: usize,
}

/// The runs of a page that is read on its own.
pub open spec fn read_runs(read: PageRead) -> Seq<Run> {
    seq![Run { row_count: read.skip, skip: true }, Run { row_count: read.select, skip: false }]
}

proof fn lemma_read_runs_fit(read: PageRead)
    ensures
        runs_fit(read_runs(read)),
{
    let runs = read_runs(read);
    assert forall|i: int, j: int, skip: bool|
        0 <= i <= j <= runs.len() && #[trigger] is_uniform(
            runs.subrange(i, j),
            skip,
        ) implies total_rows(runs.subrange(i, j)) <= usize::MAX by {
        let part = runs.subrange(i, j);
        reveal_with_fuel(total_rows, 3);
        if part.len() == 2 {
            assert(part[0] == runs[0] && part[1] == runs[1]);
            assert(part.drop_last()[0] == runs[0]);
            assert(part.last() == runs[1]);
        } else if part.len() == 1 {
            assert(part.drop_last().len() == 0);
        }
    }
}

impl PageRead {
    /// The selection of the page's rows.
    pub fn row_selection(&self) -> (selection: RowSelection)
        ensures
            selection_rows(&selection) == Seq::new(
                (self.skip + self.select) as nat,
                |row: int| row >= self.skip,
            ),
    {
        let mut runs: Vec<Run> = Vec::new();
        runs.push(Run { row_count: self.skip, skip: true });
        runs.push(Run { row_count: self.select, skip: false });
        proof {
            assert(runs@ =~= read_runs(*self));
            lemma_read_runs_fit(*self);
            reveal_with_fuel(rows_of, 3);
            assert(runs@.drop_last().last() == runs@[0]);
            assert(rows_of(runs@.drop_last().drop_last()) =~= Seq::<bool>::empty());
            assert(rows_of(runs@) =~= Seq::new(
                (self.skip + self.select) as nat,
                |row: int| row >= self.skip,
            ));
        }
        select_rows(runs)
    }
}

/// The first rows of the pages of a column in a row group.
pub open spec fn page_starts(meta: FileMeta, group: int, column: int) -> Seq<i64> {
    meta.offset_index->Some_0@[group]@[column]@
}

/// Whether the file has page offsets for the column in every row group.
pub open spec fn has_pages(meta: FileMeta, column: int) -> bool {
    &&& meta.offset_index is Some
    &&& meta.offset_index->Some_0@.len() >= meta.row_groups@.len()
    &&& forall|g: int|
        0 <= g < meta.row_groups@.len() ==> column < (
        #[trigger] meta.offset_index->Some_0@[g])@.len()
    &&& forall|g: int|
        0 <= g < meta.row_groups@.len() ==> distances_fit(
            page_starts(meta, g, column),
            (#[trigger] meta.row_groups@[g]).num_rows,
        )
}

/// Whether the rows of every row group's pages can be counted in a `usize`.
pub open spec fn rows_fit(meta: FileMeta, column: int) -> bool {
    forall|g: int|
        0 <= g < meta.row_groups@.len() ==> rows_before(
            page_starts(meta, g, column),
            (#[trigger] meta.row_groups@[g]).num_rows,
            page_starts(meta, g, column).len() as int,
        ) <= usize::MAX
}

/// The reads of the first `pages` pages of a row group: each skips the rows of the pages
/// before it.
pub open spec fn group_reads(
    first_rows: Seq<i64>,
    num_rows: i64,
    group: int,
    pages: int,
) -> Seq<PageRead> {
    Seq::new(
        pages as nat,
        |p: int|
            PageRead {
                data: PageInfo { row_group_id: group as usize, page_id: p as usize },
                skip: rows_before(first_rows, num_rows, p) as usize,
                select: page_rows(first_rows, num_rows, p),
            },
    )
}

/// The reads of every page of the first `groups` row groups, in file order.
pub open spec fn file_reads(meta: FileMeta, column: int, groups: int) -> Seq<PageRead>
    decreases groups,
{
    if groups <= 0 {
        Seq::empty()
    } else {
        let first_rows = page_starts(meta, groups - 1, column);
        file_reads(meta, column, groups - 1) + group_reads(
            first_rows,
            meta.row_groups@[groups - 1].num_rows,
            groups - 1,
            first_rows.len() as int,
        )
    }
}

pub(crate) proof fn lemma_rows_before_grows(first_rows: Seq<i64>, num_rows: i64, page: int, end: int)
    requires
        0 <= page <= end,
    ensures
        rows_before(first_rows, num_rows, page) <= rows_before(first_rows, num_rows, end),
    decreases end - page,
{
    if page < end {
        lemma_rows_before_grows(first_rows, num_rows, page, end - 1);
    }
}

/// Whether the distances between the first rows of neighbouring pages are `i64` numbers.
fn check_distances(first_rows: &Vec<i64>, num_rows: i64) -> (fit: bool)
    ensures
        fit == distances_fit(first_rows@, num_rows),
{
    let pages: usize = first_rows.len();
    for p in 0..pages
        invariant
            pages == first_rows@.len(),
            forall|k: int|
                0 <= k < p ==> i64::MIN <= page_end(first_rows@, num_rows, k) - (
                #[trigger] first_rows@[k]) <= i64::MAX,
    {
        let end: i64 = if p + 1 < pages {
            first_rows[p + 1]
        } else {
            num_rows
        };
        assert(end == page_end(first_rows@, num_rows, p as int));
        if end.checked_sub(first_rows[p]).is_none() {
            assert(!(i64::MIN <= page_end(first_rows@, num_rows, p as int) - first_rows@[p as int]
                <= i64::MAX));
            return false;
        }
    }
    true
}

/// Whether a file has page offsets for a column in every row group.
pub fn check_pages(meta: &FileMeta, column: usize) -> (present: bool)
    ensures
        present == has_pages(*meta, column as int),
{
    match &meta.offset_index {
        Some(offset_index) => {
            if offset_index.len() < meta.row_groups.len() {
                return false;
            }
            for g in 0..meta.row_groups.len()
                invariant
                    meta.offset_index == Some(*offset_index),
                    offset_index@.len() >= meta.row_groups@.len(),
                    forall|k: int| 0 <= k < g ==> column < (#[trigger] offset_index@[k])@.len(),
                    forall|k: int|
                        0 <= k < g ==> distances_fit(
                            page_starts(*meta, k, column as int),
                            (#[trigger] meta.row_groups@[k]).num_rows,
                        ),
            {
                if offset_index[g].len() <= column {
                    assert(!(column < offset_index@[g as int]@.len()));
                    return false;
                }
                if !check_distances(&offset_index[g][column], meta.row_groups[g].num_rows) {
                    assert(!distances_fit(
                        page_starts(*meta, g as int, column as int),
                        meta.row_groups@[g as int].num_rows,
                    ));
                    return false;
                }
            }
            true
        },
        None => false,
    }
}

/// Whether the rows of every row group's pages can be counted in a `usize`.
pub fn check_rows(meta: &FileMeta, column: usize) -> (fit: bool)
    requires
        has_pages(*meta, column as int),
    ensures
        fit == rows_fit(*meta, column as int),
{
    if let Some(offset_index) = &meta.offset_index {
        for g in 0..meta.row_groups.len()
            invariant
                has_pages(*meta, column as int),
                meta.offset_index == Some(*offset_index),
                forall|k: int|
                    0 <= k < g ==> rows_before(
                        page_starts(*meta, k, column as int),
                        (#[trigger] meta.row_groups@[k]).num_rows,
                        page_starts(*meta, k, column as int).len() as int,
                    ) <= usize::MAX,
        {
            let ghost starts = page_starts(*meta, g as int, column as int);
            assert(column < offset_index@[g as int]@.len());
            let first_rows: &Vec<i64> = &offset_index[g][column];
            let num_rows: i64 = meta.row_groups[g].num_rows;
            let mut count: usize = 0;
            for p in 0..first_rows.len()
                invariant
                    g < meta.row_groups@.len(),
                    num_rows == meta.row_groups@[g as int].num_rows,
                    starts == first_rows@,
                    starts == page_starts(*meta, g as int, column as int),
                    distances_fit(starts, num_rows),
                    count == rows_before(starts, num_rows, p as int),
            {
                match count.checked_add(rows_in_page(first_rows, num_rows, p)) {
                    Some(more) => {
                        count = more;
                    },
                    None => {
                        proof {
                            lemma_rows_before_grows(starts, num_rows, p + 1, starts.len() as int);
                            assert(!(rows_before(
                                page_starts(*meta, g as int, column as int),
                                meta.row_groups@[g as int].num_rows,
                                page_starts(*meta, g as int, column as int).len() as int,
                            ) <= usize::MAX));
                        }
                        return false;
                    },
                }
            }
        }
    }
    true
}

/// Lists the reads of every page of a column, so that the bounds of each page's geometries
/// can be computed.
pub fn page_reads(meta: &FileMeta, column: usize) -> (reads: Vec<PageRead>)
    requires
        has_pages(*meta, column as int),
        rows_fit(*meta, column as int),
    ensures
        reads@ == file_reads(*meta, column as int, meta.row_groups@.len() as int),
{
    let mut reads: Vec<PageRead> = Vec::new();
    if let Some(offset_index) = &meta.offset_index {
        for g in 0..meta.row_groups.len()
            invariant
                has_pages(*meta, column as int),
                rows_fit(*meta, column as int),
                meta.offset_index == Some(*offset_index),
                reads@ == file_reads(*meta, column as int, g as int),
        {
            let ghost before = reads@;
            let ghost starts = page_starts(*meta, g as int, column as int);
            assert(column < offset_index@[g as int]@.len());
            let first_rows: &Vec<i64> = &offset_index[g][column];
            let num_rows: i64 = meta.row_groups[g].num_rows;
            let mut num_read: usize = 0;
            assert(before + group_reads(starts, num_rows, g as int, 0) =~= before);
            for p in 0..first_rows.len()
                invariant
                    g < meta.row_groups@.len(),
                    starts == first_rows@,
                    distances_fit(starts, num_rows),
                    rows_before(starts, num_rows, starts.len() as int) <= usize::MAX,
                    num_read == rows_before(starts, num_rows, p as int),
                    reads@ == before + group_reads(starts, num_rows, g as int, p as int),
            {
                let ghost now = reads@;
                let rows: usize = rows_in_page(first_rows, num_rows, p);
                let read = PageRead {
                    data: PageInfo { row_group_id: g, page_id: p },
                    skip: num_read,
                    select: rows,
                };
                proof {
                    lemma_rows_before_grows(starts, num_rows, p + 1, starts.len() as int);
                }
                num_read = num_read + rows;
                reads.push(read);
                assert(reads@ =~= before + group_reads(starts, num_rows, g as int, p + 1));
            }
        }
    }
    reads
}

/// The index entries for a list of pages and the bounds of the geometries in each.
pub open spec fn entries(reads: Seq<PageRead>, page_rects: Seq<Vec<Rect>>) -> Seq<PageBounds> {
    Seq::new(
        reads.len(),
        |i: int| PageBounds { bounds: overall(page_rects[i]@), data: reads[i].data },
    )
}

/// Whether the geometries of every page have bounds that can be joined.
pub open spec fn can_index(reads: Seq<PageRead>, page_rects: Seq<Vec<Rect>>) -> bool {
    &&& reads.len() == page_rects.len()
    &&& forall|i: int| 0 <= i < page_rects.len() ==> can_push_all((#[trigger] page_rects[i])@)
}

/// Builds the index over a file's pages from the bounds of the geometries in each: as a tree
/// and as a list in file order.
pub fn build_geo_index(reads: &Vec<PageRead>, page_rects: &Vec<Vec<Rect>>) -> (index: (
    PageTree,
    Vec<PageBounds>,
))
    requires
        can_index(reads@, page_rects@),
    ensures
        index.1@ == entries(reads@, page_rects@),
        tree_pages(&index.0) == index.1@.to_multiset(),
        forall|i: int| 0 <= i < index.1@.len() ==> (#[trigger] index.1@[i]).bounds.wf(),
{
    let mut pages: Vec<PageBounds> = Vec::new();
    for i in 0..reads.len()
        invariant
            can_index(reads@, page_rects@),
            pages@ == entries(reads@, page_rects@).take(i as int),
            forall|k: int| 0 <= k < pages@.len() ==> (#[trigger] pages@[k]).bounds.wf(),
    {
        assert(can_push_all(page_rects@[i as int]@));
        let overall_bounds: OverallBounds = OverallBounds::of(&page_rects[i]);
        pages.push(PageBounds { bounds: overall_bounds.inner, data: reads[i].data });
        assert(pages@ =~= entries(reads@, page_rects@).take(i + 1));
    }
    assert(pages@ =~= entries(reads@, page_rects@));
    let tree: PageTree = load_tree(&pages);
    (tree, pages)
}

/// The index entries for a list of pages and the values that each holds.
pub open spec fn value_entries(
    reads: Seq<PageRead>,
    page_values: Seq<Vec<Vec<u8>>>,
) -> Seq<PageBounds> {
    Seq::new(
        reads.len(),
        |i: int| PageBounds { bounds: overall(rects_of(page_values[i]@)), data: reads[i].data },
    )
}

/// Whether the values of every page are geometries whose bounds can be joined.
pub open spec fn can_index_values(
    reads: Seq<PageRead>,
    page_values: Seq<Vec<Vec<u8>>>,
) -> bool {
    &&& reads.len() == page_values.len()
    &&& forall|i: int|
        0 <= i < page_values.len() ==> all_have_rects((#[trigger] page_values[i])@)
            && can_push_all(rects_of(page_values[i]@))
}

/// The bounds of the geometries in each page, where the values of every page are geometries
/// whose bounds can be joined.
fn rects_of_pages(page_values: &Vec<Vec<Vec<u8>>>) -> (page_rects: Option<Vec<Vec<Rect>>>)
    ensures
        page_rects is Some <==> forall|i: int|
            0 <= i < page_values@.len() ==> all_have_rects((#[trigger] page_values@[i])@)
                && can_push_all(rects_of(page_values@[i]@)),
        page_rects matches Some(rects) ==> {
            &&& rects@.len() == page_values@.len()
            &&& forall|i: int|
                0 <= i < rects@.len() ==> (#[trigger] rects@[i])@ == rects_of(page_values@[i]@)
                    && overall(rects@[i]@).is_valid()
        },
{
    let mut page_rects: Vec<Vec<Rect>> = Vec::new();
    for i in 0..page_values.len()
        invariant
            forall|k: int|
                0 <= k < i ==> all_have_rects((#[trigger] page_values@[k])@) && can_push_all(
                    rects_of(page_values@[k]@),
                ),
            page_rects@.len() == i,
            forall|k: int|
                0 <= k < i ==> (#[trigger] page_rects@[k])@ == rects_of(page_values@[k]@)
                    && overall(page_rects@[k]@).is_valid(),
    {
        let ghost values = page_values@[i as int]@;
        match rects_of_values(&page_values[i]) {
            Some(rects) => {
                if !OverallBounds::accepts_all(&rects) {
                    assert(!can_push_all(rects_of(values)));
                    return None;
                }
                proof {
                    law_overall_is_valid(rects@);
                }
                page_rects.push(rects);
            },
            None => {
                assert(!all_have_rects(values));
                return None;
            },
        }
    }
    Some(page_rects)
}

/// Builds the index over a file's pages from the values of the geometry column in each.
pub fn index_values(reads: &Vec<PageRead>, page_values: &Vec<Vec<Vec<u8>>>) -> (index: Option<
    (PageTree, Vec<PageBounds>),
>)
    ensures
        index is Some <==> can_index_values(reads@, page_values@),
        index matches Some(parts) ==> {
            &&& parts.1@ == value_entries(reads@, page_values@)
            &&& tree_pages(&parts.0) == parts.1@.to_multiset()
            &&& forall|i: int|
                0 <= i < parts.1@.len() ==> (#[trigger] parts.1@[i]).bounds.wf()
                    && parts.1@[i].bounds.is_valid()
        },
{
    if reads.len() != page_values.len() {
        return None;
    }
    match rects_of_pages(page_values) {
        Some(page_rects) => {
            proof {
                assert forall|i: int| 0 <= i < page_rects@.len() implies can_push_all(
                    (#[trigger] page_rects@[i])@,
                ) by {
                    assert(can_push_all(rects_of(page_values@[i]@)));
                }
                assert(entries(reads@, page_rects@) =~= value_entries(reads@, page_values@));
            }
            let (tree, pages): (PageTree, Vec<PageBounds>) = build_geo_index(reads, &page_rects);
            assert(forall|i: int| 0 <= i < pages@.len() ==> (#[trigger] pages@[i]).bounds == overall(
                page_rects@[i]@,
            ));
            Some((tree, pages))
        },
        None => None,
    }
}

/// The pages of a list that are marked as hits.
pub open spec fn hit_pages(pages: Seq<PageBounds>, hits: Seq<bool>) -> Set<PageInfo> {
    Set::new(
        |page: PageInfo|
            exists|i: int|
                0 <= i < pages.len() && hits[i] && (#[trigger] pages[i]).data == page,
    )
}

/// The pages of a tree whose bounds overlap the query. Bounds that are not numbers overlap
/// nothing.
pub open spec fn overlapping_pages(pages: Multiset<PageBounds>, query: Rect) -> Set<PageInfo> {
    Set::new(
        |page: PageInfo|
            exists|entry: PageBounds|
                {
                    &&& #[trigger] pages.contains(entry)
                    &&& entry.data == page
                    &&& query.is_numeric()
                    &&& entry.bounds.overlaps(query.as_extent())
                },
    )
}

/// Asks the list: the pages whose polygons intersect the query, as `hits` tells of each.
pub fn flat_pages(pages: &Vec<PageBounds>, hits: &Vec<bool>) -> (found: PageSet)
    requires
        hits@.len() == pages@.len(),
    ensures
        found.wf(),
        found@ == hit_pages(pages@, hits@),
{
    let mut found: PageSet = PageSet::new();
    assert(found@ =~= hit_pages(pages@.take(0), hits@));
    for i in 0..pages.len()
        invariant
            hits@.len() == pages@.len(),
            found.wf(),
            found@ == hit_pages(pages@.take(i as int), hits@),
    {
        let ghost before = found@;
        let ghost head = pages@.take(i as int);
        let ghost longer = pages@.take(i + 1);
        if hits[i] {
            found.insert(pages[i].data);
        }
        assert(found@ =~= hit_pages(longer, hits@)) by {
            assert forall|page: PageInfo| found@.contains(page) == hit_pages(
                longer,
                hits@,
            ).contains(page) by {
                if before.contains(page) {
                    let k = choose|k: int|
                        0 <= k < head.len() && hits@[k] && (#[trigger] head[k]).data == page;
                    assert(longer[k] == head[k]);
                }
                if hits@[i as int] && page == pages@[i as int].data {
                    assert(longer[i as int].data == page);
                }
                if hit_pages(longer, hits@).contains(page) {
                    let k = choose|k: int|
                        0 <= k < longer.len() && hits@[k] && (#[trigger] longer[k]).data == page;
                    if k < i {
                        assert(head[k] == longer[k]);
                    }
                }
            }
        }
    }
    assert(pages@.take(pages@.len() as int) =~= pages@);
    found
}

/// Asks the tree: the pages whose bounds overlap the query.
pub fn located_pages(tree: &PageTree, query: &Rect) -> (found: PageSet)
    requires
        query.wf(),
    ensures
        found.wf(),
        found@ == overlapping_pages(tree_pages(tree), *query),
{
    let mut found: PageSet = PageSet::new();
    match query.extent() {
        Some(extent) => {
            let entries: Vec<PageBounds> = locate_pages(tree, &extent);
            for i in 0..entries.len()
                invariant
                    found.wf(),
                    forall|page: PageInfo| #[trigger]
                        found@.contains(page) <==> exists|k: int|
                            0 <= k < i && (#[trigger] entries@[k]).data == page,
            {
                found.insert(entries[i].data);
            }
            proof {
                let held = tree_pages(tree);
                let overlap = |page: PageBounds| page.bounds.overlaps(extent);
                broadcast use vstd::seq_lib::group_to_multiset_ensures;

                assert forall|page: PageInfo| found@.contains(page) == overlapping_pages(
                    held,
                    *query,
                ).contains(page) by {
                    if found@.contains(page) {
                        let k = choose|k: int|
                            0 <= k < entries@.len() && (#[trigger] entries@[k]).data == page;
                        assert(entries@.contains(entries@[k]));
                        assert(entries@.to_multiset().count(entries@[k]) > 0);
                        assert(held.filter(overlap).count(entries@[k]) > 0);
                        assert(held.contains(entries@[k]));
                    }
                    if overlapping_pages(held, *query).contains(page) {
                        let entry = choose|entry: PageBounds|
                            {
                                &&& #[trigger] held.contains(entry)
                                &&& entry.data == page
                                &&& query.is_numeric()
                                &&& entry.bounds.overlaps(query.as_extent())
                            };
                        assert(overlap(entry));
                        assert(held.filter(overlap).count(entry) > 0);
                        assert(entries@.to_multiset().count(entry) > 0);
                        assert(entries@.contains(entry));
                        let k = choose|k: int| 0 <= k < entries@.len() && entries@[k] == entry;
                        assert(entries@[k].data == page);
                    }
                }
                assert(found@ =~= overlapping_pages(held, *query));
            }
        },
        None => {
            assert(found@ =~= overlapping_pages(tree_pages(tree), *query));
        },
    }
    found
}

/// Whether the pages of a row group start at its first row, follow one another and end
/// within it.
pub open spec fn is_layout(first_rows: Seq<i64>, num_rows: i64) -> bool {
    &&& first_rows.len() > 0
    &&& first_rows[0] == 0
    &&& forall|i: int, j: int|
        0 <= i <= j < first_rows.len() ==> #[trigger] first_rows[i] <= #[trigger] first_rows[j]
    &&& first_rows.last() <= num_rows <= usize::MAX
}

/// In a row group whose pages follow one another, the rows before a page are the rows up to
/// its first row, and all pages together have the row group's rows.
pub proof fn law_pages_follow_one_another(first_rows: Seq<i64>, num_rows: i64, page: int)
    requires
        is_layout(first_rows, num_rows),
        0 <= page <= first_rows.len(),
    ensures
        distances_fit(first_rows, num_rows),
        page < first_rows.len() ==> {
            &&& rows_before(first_rows, num_rows, page) == first_rows[page]
            &&& page_rows(first_rows, num_rows, page) == page_end(first_rows, num_rows, page)
                - first_rows[page]
        },
        page == first_rows.len() ==> rows_before(first_rows, num_rows, page) == num_rows,
    decreases page,
{
    assert forall|p: int| 0 <= p < first_rows.len() implies 0 <= page_end(first_rows, num_rows, p)
        - (#[trigger] first_rows[p]) <= usize::MAX by {
        if p + 1 < first_rows.len() {
            assert(first_rows[p] <= first_rows[p + 1]);
            assert(first_rows[p + 1] <= first_rows[first_rows.len() - 1]);
        }
        assert(first_rows[0] <= first_rows[p]);
    }
    if page > 0 {
        law_pages_follow_one_another(first_rows, num_rows, page - 1);
        assert(first_rows[page - 1] == first_rows[page - 1]);
    }
}

/// In a row group whose pages follow one another, the read of a page takes exactly the rows
/// from its first row up to the first row of the next.
pub proof fn law_reads_tile_the_group(first_rows: Seq<i64>, num_rows: i64, group: int, page: int)
    requires
        is_layout(first_rows, num_rows),
        0 <= page < first_rows.len(),
    ensures
        ({
            let read = group_reads(first_rows, num_rows, group, first_rows.len() as int)[page];
            &&& read.skip == first_rows[page]
            &&& read.skip + read.select == page_end(first_rows, num_rows, page)
        }),
{
    law_pages_follow_one_another(first_rows, num_rows, page);
    assert(first_rows[page] <= first_rows[first_rows.len() - 1]);
}

/// The reads of a file are in file order, so no page is read twice.
pub proof fn law_reads_are_in_file_order(meta: FileMeta, column: int, groups: int)
    requires
        0 <= groups <= meta.row_groups@.len(),
        meta.row_groups@.len() <= usize::MAX,
        forall|g: int|
            0 <= g < groups ==> (#[trigger] page_starts(meta, g, column)).len() <= usize::MAX,
    ensures
        forall|i: int, j: int|
            0 <= i < j < file_reads(meta, column, groups).len() ==> (#[trigger] file_reads(
                meta,
                column,
                groups,
            )[i]).data.precedes((#[trigger] file_reads(meta, column, groups)[j]).data),
        forall|i: int|
            0 <= i < file_reads(meta, column, groups).len() ==> (#[trigger] file_reads(
                meta,
                column,
                groups,
            )[i]).data.row_group_id < groups,
    decreases groups,
{
    if groups > 0 {
        law_reads_are_in_file_order(meta, column, groups - 1);
        let starts = page_starts(meta, groups - 1, column);
        let head = file_reads(meta, column, groups - 1);
        let tail = group_reads(
            starts,
            meta.row_groups@[groups - 1].num_rows,
            groups - 1,
            starts.len() as int,
        );
        let all = file_reads(meta, column, groups);
        assert(all == head + tail);
        assert(forall|i: int| 0 <= i < head.len() ==> #[trigger] all[i] == head[i]);
        assert forall|i: int, j: int| 0 <= i < j < all.len() implies (
        #[trigger] all[i]).data.precedes((#[trigger] all[j]).data) by {
            if j < head.len() {
                assert(head[i].data.precedes(head[j].data));
            } else {
                assert(all[j] == tail[j - head.len()]);
                if i < head.len() {
                    assert(head[i].data.row_group_id < groups - 1);
                } else {
                    assert(all[i] == tail[i - head.len()]);
                }
            }
        }
        assert forall|i: int| 0 <= i < all.len() implies (#[trigger] all[i]).data.row_group_id
            < groups by {
            if i < head.len() {
                assert(head[i].data.row_group_id < groups - 1);
            } else {
                assert(all[i] == tail[i - head.len()]);
            }
        }
    }
}

/// Every page of the column is among the reads of a file.
pub proof fn law_every_page_is_read(meta: FileMeta, column: int, groups: int, group: int, page: int)
    requires
        0 <= group < groups <= meta.row_groups@.len(),
        0 <= page < page_starts(meta, group, column).len(),
    ensures
        exists|i: int|
            0 <= i < file_reads(meta, column, groups).len() && (#[trigger] file_reads(
                meta,
                column,
                groups,
            )[i]).data == (PageInfo { row_group_id: group as usize, page_id: page as usize }),
    decreases groups,
{
    let starts = page_starts(meta, groups - 1, column);
    let head = file_reads(meta, column, groups - 1);
    let tail = group_reads(
        starts,
        meta.row_groups@[groups - 1].num_rows,
        groups - 1,
        starts.len() as int,
    );
    let all = file_reads(meta, column, groups);
    let data = PageInfo { row_group_id: group as usize, page_id: page as usize };
    assert(all == head + tail);
    if group < groups - 1 {
        law_every_page_is_read(meta, column, groups - 1, group, page);
        let i = choose|i: int| 0 <= i < head.len() && (#[trigger] head[i]).data == data;
        assert(all[i] == head[i]);
    } else {
        assert(tail[page].data == data);
        assert(all[head.len() + page] == tail[page]);
    }
}

/// List and tree find the same pages where the list is asked by the overlap of bounds.
pub proof fn law_list_and_tree_agree(pages: Seq<PageBounds>, hits: Seq<bool>, query: Rect)
    requires
        hits.len() == pages.len(),
        forall|i: int|
            0 <= i < pages.len() ==> hits[i] == (query.is_numeric() && (
            #[trigger] pages[i]).bounds.overlaps(query.as_extent())),
    ensures
        hit_pages(pages, hits) == overlapping_pages(pages.to_multiset(), query),
{
    broadcast use vstd::seq_lib::group_to_multiset_ensures;

    let held = pages.to_multiset();
    assert forall|page: PageInfo| hit_pages(pages, hits).contains(page) == overlapping_pages(
        held,
        query,
    ).contains(page) by {
        if hit_pages(pages, hits).contains(page) {
            let i = choose|i: int|
                0 <= i < pages.len() && hits[i] && (#[trigger] pages[i]).data == page;
            assert(pages.contains(pages[i]));
            assert(held.contains(pages[i]));
        }
        if overlapping_pages(held, query).contains(page) {
            let entry = choose|entry: PageBounds|
                {
                    &&& #[trigger] held.contains(entry)
                    &&& entry.data == page
                    &&& query.is_numeric()
                    &&& entry.bounds.overlaps(query.as_extent())
                };
            assert(pages.contains(entry));
            let i = choose|i: int| 0 <= i < pages.len() && pages[i] == entry;
            assert(pages[i].data == page);
        }
    }
    assert(hit_pages(pages, hits) =~= overlapping_pages(held, query));
}

/// A page is found in the tree if its bounds cover a geometry that overlaps the query.
pub proof fn law_page_of_a_match_is_found(
    pages: Seq<PageBounds>,
    at: int,
    geometry: Extent,
    query: Rect,
)
    requires
        0 <= at < pages.len(),
        pages[at].bounds.covers(geometry),
        query.is_numeric(),
        geometry.overlaps(query.as_extent()),
    ensures
        overlapping_pages(pages.to_multiset(), query).contains(pages[at].data),
{
    broadcast use vstd::seq_lib::group_to_multiset_ensures;

    assert(pages.contains(pages[at]));
    assert(pages.to_multiset().contains(pages[at]));
}

} // verus!
