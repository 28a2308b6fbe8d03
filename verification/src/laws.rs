//! What the library promises, in terms of what it is given: bit patterns, the fields of
//! rectangles and boxes, the texts of filters, the first rows of pages.
use std::cmp::Ordering;
use vstd::multiset::Multiset;
use vstd::prelude::*;
use crate::geometry::all_have_rects;
use crate::geometry::points_are_plain;
use crate::geometry::rects_of;
use crate::geometry::value_rect;
use crate::metadata::BoundingBox;
use crate::metadata::FileMeta;
use crate::metadata::column_places;
use crate::metadata::law_places_name_columns;
use crate::metadata::names;
use crate::metadata::places_of;
use crate::ordinate::Ordinate;
use crate::ordinate::ordinate_of_bits;
use crate::outside::wkb_bounds;
use crate::outside::wkb_members;
use crate::outside::wkt_exterior;
use crate::page::PageBounds;
use crate::page::PageInfo;
use crate::page::page_order;
use crate::page_index::PageRead;
use crate::page_index::can_index;
use crate::page_index::can_index_values;
use crate::page_index::entries;
use crate::page_index::file_reads;
use crate::page_index::group_reads;
use crate::page_index::has_pages;
use crate::page_index::hit_pages;
use crate::page_index::is_layout;
use crate::page_index::law_pages_follow_one_another;
use crate::page_index::lemma_rows_before_grows;
use crate::page_index::overlapping_pages;
use crate::page_index::page_rows;
use crate::page_index::page_starts;
use crate::page_index::rows_before;
use crate::page_index::rows_fit;
use crate::page_index::value_entries;
use crate::page_table::GeoParquetNextTable;
use crate::page_table::file_runs;
use crate::page_table::law_row_is_read_with_its_page;
use crate::page_table::law_selection_covers_the_group;
use crate::page_table::lemma_runs_before;
use crate::page_table::selected_groups;
use crate::predicate::FilterExpr;
use crate::predicate::PredicateView;
use crate::predicate::QueryError;
use crate::predicate::ScanStep;
use crate::predicate::SpatialPredicate;
use crate::predicate::all_readable;
use crate::predicate::expr_error;
use crate::predicate::is_first_error;
use crate::predicate::predicate_of;
use crate::predicate::predicates_of;
use crate::predicate::views;
use crate::rect::Extent;
use crate::rect::Rect;
use crate::rect::bounds_of;
use crate::rect::can_push;
use crate::rect::can_push_all;
use crate::rect::high_side;
use crate::rect::lemma_range;
use crate::rect::low_side;
use crate::rect::overall;
use crate::rect::point_of_bits;
use crate::rect::pushed;
use crate::row_group::box_misses;
use crate::row_group::is_pruned;
use crate::row_group::pruned_groups;
use crate::selection::GroupAccess;
use crate::selection::Run;
use crate::selection::is_uniform;
use crate::selection::law_rows_are_counted;
use crate::selection::rows_of;
use crate::selection::runs_fit;
use crate::selection::total_rows;

verus! {

/// `a` and `b` are numbers, and `a` is the lesser.
pub open spec fn is_below(a: Ordinate, b: Ordinate) -> bool {
    a is Number && b is Number && a->Number_0 < b->Number_0
}

/// All four sides of a rectangle are numbers, and no side lies above its opposite.
pub open spec fn is_in_order(rect: Rect) -> bool {
    &&& rect.min_x is Number && rect.max_x is Number && rect.min_x->Number_0 <= rect.max_x->Number_0
    &&& rect.min_y is Number && rect.max_y is Number && rect.min_y->Number_0 <= rect.max_y->Number_0
}

/// Every number lies within the bounds.
pub open spec fn is_whole_plane(bounds: Extent) -> bool {
    &&& bounds.min_x == -0x7ff0_0000_0000_0000 && bounds.max_x == 0x7ff0_0000_0000_0000
    &&& bounds.min_y == -0x7ff0_0000_0000_0000 && bounds.max_y == 0x7ff0_0000_0000_0000
}

/// `low` and `high` are the least and the greatest number among `values`, or both "not a
/// number" where the first value is.
pub open spec fn spans(low: Ordinate, high: Ordinate, values: Seq<Ordinate>) -> bool {
    &&& values[0] is Nan ==> low is Nan && high is Nan
    &&& values[0] is Number ==> {
        &&& low is Number
        &&& high is Number
        &&& values.contains(low)
        &&& values.contains(high)
        &&& forall|i: int|
            0 <= i < values.len() && (#[trigger] values[i]) is Number ==> low->Number_0
                <= values[i]->Number_0 <= high->Number_0
    }
}

/// A range of ordinates that a stored box has for its corners `from` and `to` lies beyond the
/// range from `low` to `high`.
pub open spec fn is_apart(from: Ordinate, to: Ordinate, low: Ordinate, high: Ordinate) -> bool {
    if is_below(from, to) {
        is_below(to, low) || is_below(high, from)
    } else {
        is_below(from, low) || is_below(high, to)
    }
}

/// A stored box lies beyond the query on some axis.
pub open spec fn box_is_apart(stored: BoundingBox, query: Rect) -> bool {
    ||| is_apart(stored.x_min, stored.x_max, query.min_x, query.max_x)
    ||| is_apart(stored.y_min, stored.y_max, query.min_y, query.max_y)
}

/// A point of the plane lies in a stored box and in the query.
pub open spec fn box_has_point(stored: BoundingBox, query: Rect, x: int, y: int) -> bool {
    &&& stored.x_min is Number && stored.x_min->Number_0 <= x
    &&& stored.x_max is Number && x <= stored.x_max->Number_0
    &&& stored.y_min is Number && stored.y_min->Number_0 <= y
    &&& stored.y_max is Number && y <= stored.y_max->Number_0
    &&& query.min_x is Number && query.min_x->Number_0 <= x
    &&& query.max_x is Number && x <= query.max_x->Number_0
    &&& query.min_y is Number && query.min_y->Number_0 <= y
    &&& query.max_y is Number && y <= query.max_y->Number_0
}

/// A row group stores a box for a column, and it lies beyond the query.
pub open spec fn stores_apart(meta: FileMeta, group: int, column: int, query: Rect) -> bool {
    &&& meta.row_groups@[group].boxes@[column] is Some
    &&& box_is_apart(meta.row_groups@[group].boxes@[column]->Some_0, query)
}

/// An expression is `st_intersects(<text>, <column>) IS TRUE`.
pub open spec fn asks_for(expr: FilterExpr, text: Seq<char>, column: Seq<char>) -> bool {
    match expr {
        FilterExpr::IsTrue(inner) => match *inner {
            FilterExpr::ScalarFunction(call) => {
                &&& call.name@ == "st_intersects"@
                &&& call.args@.len() == 2
                &&& call.args@[0] matches FilterExpr::Literal(first) && first@ == text
                &&& call.args@[1] matches FilterExpr::Column(second) && second@ == column
            },
            _ => false,
        },
        _ => false,
    }
}

/// The text's first character that is not a blank, a line break or a tab is a `G`.
pub open spec fn begins_with_g(text: Seq<char>, at: int) -> bool {
    &&& 0 <= at < text.len()
    &&& text[at] == 'G' || text[at] == 'g'
    &&& forall|k: int|
        0 <= k < at ==> #[trigger] text[k] == ' ' || text[k] == '\n' || text[k] == '\r' || text[k]
            == '\t'
}

/// The bounds of a page overlap a query whose sides are numbers.
pub open spec fn touches(bounds: Extent, query: Rect) -> bool {
    &&& query.min_x is Number && query.min_x->Number_0 <= bounds.max_x
    &&& query.max_x is Number && bounds.min_x <= query.max_x->Number_0
    &&& query.min_y is Number && query.min_y->Number_0 <= bounds.max_y
    &&& query.max_y is Number && bounds.min_y <= query.max_y->Number_0
}

/// The first rows of the pages of a column in a row group.
pub open spec fn first_rows_of(meta: FileMeta, group: int, column: int) -> Seq<i64> {
    meta.offset_index->Some_0@[group]@[column]@
}

/// The row that a page ends before.
pub open spec fn end_of(first_rows: Seq<i64>, num_rows: i64, page: int) -> int {
    if page == first_rows.len() - 1 {
        num_rows as int
    } else {
        first_rows[page + 1] as int
    }
}

/// Runs `from` to `to` that have rows are all skipped, or all read.
pub open spec fn are_alike(runs: Seq<Run>, from: int, to: int, skip: bool) -> bool {
    forall|k: int|
        from <= k < to ==> (#[trigger] runs[k]).row_count == 0 || runs[k].skip == skip
}

/// A bit pattern is "not a number" beyond the infinities; any other names its magnitude with
/// its sign. A point's two patterns keep their places.
pub proof fn law_bits_name_numbers(bits: u64, other: u64)
    ensures
        ordinate_of_bits(bits) is Nan <==> 0x7ff0_0000_0000_0000 < bits < 0x8000_0000_0000_0000
            || 0xfff0_0000_0000_0000 < bits,
        bits <= 0x7ff0_0000_0000_0000 ==> ordinate_of_bits(bits)->Number_0 == bits,
        0x8000_0000_0000_0000 <= bits <= 0xfff0_0000_0000_0000 ==> ordinate_of_bits(
            bits,
        )->Number_0 == 0x8000_0000_0000_0000 - bits,
        point_of_bits((bits, other)) == (ordinate_of_bits(bits), ordinate_of_bits(other)),
        ordinate_of_bits(bits).is_valid(),
{
}

/// The ordinates of binary64 numbers are those that some bit pattern gives.
pub proof fn law_valid_ordinates_have_bits(ordinate: Ordinate)
    ensures
        ordinate.is_valid() <==> exists|bits: u64| #[trigger] ordinate_of_bits(bits) == ordinate,
{
    match ordinate {
        Ordinate::Nan => {
            assert(ordinate_of_bits(0x7ff8_0000_0000_0000) == ordinate);
        },
        Ordinate::Number(key) => {
            if 0 <= key <= 0x7ff0_0000_0000_0000 {
                assert(ordinate_of_bits(key as u64) == ordinate);
            } else if -0x7ff0_0000_0000_0000 <= key < 0 {
                assert(ordinate_of_bits((0x8000_0000_0000_0000 - key) as u64) == ordinate);
            }
        },
    }
}

/// Comparing ordinates compares the numbers; raising and lowering pick the greater and the
/// lesser, and "not a number" changes nothing.
pub proof fn law_ordinates_compare(a: Ordinate, b: Ordinate, key: i64)
    ensures
        a.lt(b) <==> is_below(a, b),
        a is Nan ==> a.raise(key) == key && a.lower(key) == key,
        a is Number && a->Number_0 >= key ==> a.raise(key) == a->Number_0 && a.lower(key) == key,
        a is Number && a->Number_0 <= key ==> a.raise(key) == key && a.lower(key) == a->Number_0,
{
}

/// Of two corners that are numbers, the lesser is the low side and the greater the high side.
/// Beside "not a number" the second corner is the low side.
pub proof fn law_sides_are_in_order(a: Ordinate, b: Ordinate)
    ensures
        is_below(a, b) ==> low_side(a, b) == a && high_side(a, b) == b,
        !is_below(a, b) ==> low_side(a, b) == b && high_side(a, b) == a,
{
}

/// Bounds keep their sides, each in its place, when they change between numbers and ordinates.
pub proof fn law_sides_keep_their_places(rect: Rect, extent: Extent)
    ensures
        extent.as_rect().min_x == Ordinate::Number(extent.min_x),
        extent.as_rect().min_y == Ordinate::Number(extent.min_y),
        extent.as_rect().max_x == Ordinate::Number(extent.max_x),
        extent.as_rect().max_y == Ordinate::Number(extent.max_y),
        rect.is_numeric() <==> rect.min_x is Number && rect.min_y is Number && rect.max_x is Number
            && rect.max_y is Number,
        rect.is_numeric() ==> {
            &&& rect.as_extent().min_x == rect.min_x->Number_0
            &&& rect.as_extent().min_y == rect.min_y->Number_0
            &&& rect.as_extent().max_x == rect.max_x->Number_0
            &&& rect.as_extent().max_y == rect.max_y->Number_0
        },
        rect.min_x is Number && rect.max_x is Number && rect.min_y is Number && rect.max_y is Number
            ==> (rect.wf() <==> is_in_order(rect)),
        extent.wf() <==> extent.min_x <= extent.max_x && extent.min_y <= extent.max_y,
{
}

/// Two rectangles meet unless one ends before the other begins; where all sides are numbers
/// in order, they meet exactly where they have a point in common.
pub proof fn law_rectangles_meet(a: Rect, b: Rect)
    ensures
        a.meets(b) <==> !(is_below(a.max_x, b.min_x) || is_below(b.max_x, a.min_x) || is_below(
            a.max_y,
            b.min_y,
        ) || is_below(b.max_y, a.min_y)),
        is_in_order(a) && is_in_order(b) ==> (a.meets(b) <==> exists|x: int, y: int|
            #![trigger is_common_point(a, b, x, y)]
            is_common_point(a, b, x, y)),
{
    if is_in_order(a) && is_in_order(b) && a.meets(b) {
        let x: int = if a.min_x->Number_0 >= b.min_x->Number_0 {
            a.min_x->Number_0 as int
        } else {
            b.min_x->Number_0 as int
        };
        let y: int = if a.min_y->Number_0 >= b.min_y->Number_0 {
            a.min_y->Number_0 as int
        } else {
            b.min_y->Number_0 as int
        };
        assert(is_common_point(a, b, x, y));
    }
}

/// A point lies in both of two rectangles whose sides are numbers.
pub open spec fn is_common_point(a: Rect, b: Rect, x: int, y: int) -> bool {
    &&& a.min_x->Number_0 <= x <= a.max_x->Number_0
    &&& a.min_y->Number_0 <= y <= a.max_y->Number_0
    &&& b.min_x->Number_0 <= x <= b.max_x->Number_0
    &&& b.min_y->Number_0 <= y <= b.max_y->Number_0
}

/// Pushing on bounds of the whole plane takes over the rectangle. On any other bounds it
/// raises the upper corner to the rectangle's upper corner and lowers the lower corner to it;
/// "not a number" changes nothing. Rectangles whose sides are numbers in order can always be
/// pushed.
pub proof fn law_push(inner: Extent, rect: Rect)
    ensures
        is_in_order(rect) ==> can_push(inner, rect),
        !is_whole_plane(inner) ==> can_push(inner, rect),
        is_whole_plane(inner) && can_push(inner, rect) ==> is_in_order(rect),
        is_whole_plane(inner) && is_in_order(rect) ==> {
            &&& pushed(inner, rect).min_x == rect.min_x->Number_0
            &&& pushed(inner, rect).min_y == rect.min_y->Number_0
            &&& pushed(inner, rect).max_x == rect.max_x->Number_0
            &&& pushed(inner, rect).max_y == rect.max_y->Number_0
        },
        !is_whole_plane(inner) ==> {
            let new = pushed(inner, rect);
            &&& is_joined(inner.min_x, inner.max_x, rect.max_x, new.min_x, new.max_x)
            &&& is_joined(inner.min_y, inner.max_y, rect.max_y, new.min_y, new.max_y)
        },
{
}

/// The range from `low` to `high`, widened to take in `next`, is that from `new_low` to
/// `new_high`.
pub open spec fn is_joined(low: i64, high: i64, next: Ordinate, new_low: i64, new_high: i64) -> bool {
    match next {
        Ordinate::Nan => new_low == low && new_high == high,
        Ordinate::Number(x) => {
            &&& new_high >= high && new_high >= x && (new_high == high || new_high == x)
            &&& new_low <= low && new_low <= x && (new_low == low || new_low == x)
        },
    }
}

/// The bounds of no rectangle are the whole plane, and one more rectangle is pushed on the
/// bounds of those before it.
pub proof fn law_overall_is_pushed_one_by_one(rects: Seq<Rect>, rect: Rect)
    ensures
        is_whole_plane(overall(Seq::<Rect>::empty())),
        overall(rects.push(rect)) == pushed(overall(rects), rect),
        (forall|i: int| 0 <= i < rects.len() ==> is_in_order(#[trigger] rects[i])) ==> can_push_all(
            rects,
        ),
        can_push_all(rects) && rects.len() > 0 ==> is_in_order(rects[0]),
{
    assert(rects.push(rect).drop_last() =~= rects);
    if forall|i: int| 0 <= i < rects.len() ==> is_in_order(#[trigger] rects[i]) {
        assert forall|i: int| 0 <= i < rects.len() implies can_push(
            overall(rects.take(i)),
            #[trigger] rects[i],
        ) by {
            law_push(overall(rects.take(i)), rects[i]);
        }
    }
    if can_push_all(rects) && rects.len() > 0 {
        assert(rects.take(0) =~= Seq::<Rect>::empty());
        assert(can_push(overall(rects.take(0)), rects[0]));
        law_push(overall(rects.take(0)), rects[0]);
    }
}

/// Each side of the bounds of points is the least or the greatest ordinate of the points on
/// its axis.
pub proof fn law_bounds_span_the_points(points: Seq<(Ordinate, Ordinate)>)
    requires
        points.len() > 0,
    ensures
        spans(
            bounds_of(points).min_x,
            bounds_of(points).max_x,
            Seq::new(points.len(), |i: int| points[i].0),
        ),
        spans(
            bounds_of(points).min_y,
            bounds_of(points).max_y,
            Seq::new(points.len(), |i: int| points[i].1),
        ),
{
    let xs = Seq::new(points.len(), |i: int| points[i].0);
    let ys = Seq::new(points.len(), |i: int| points[i].1);
    assert(points.map_values(|p: (Ordinate, Ordinate)| p.0) =~= xs);
    assert(points.map_values(|p: (Ordinate, Ordinate)| p.1) =~= ys);
    lemma_range(xs);
    lemma_range(ys);
}

/// Pages compare by row group, and by page within a row group.
pub proof fn law_pages_compare_by_group_first(a: PageInfo, b: PageInfo)
    ensures
        a.row_group_id < b.row_group_id ==> page_order(a, b) == Ordering::Less && a.precedes(b),
        a.row_group_id > b.row_group_id ==> page_order(a, b) == Ordering::Greater && !a.precedes(b),
        a.row_group_id == b.row_group_id && a.page_id < b.page_id ==> page_order(a, b)
            == Ordering::Less && a.precedes(b),
        a.row_group_id == b.row_group_id && a.page_id > b.page_id ==> page_order(a, b)
            == Ordering::Greater && !a.precedes(b),
        a.row_group_id == b.row_group_id && a.page_id == b.page_id ==> page_order(a, b)
            == Ordering::Equal && !a.precedes(b),
{
}

/// The rows of one run are as many as it counts, all read or all skipped; the rows of runs
/// after others come after theirs.
pub proof fn law_rows_of_runs(run: Run, first: Seq<Run>, second: Seq<Run>)
    ensures
        rows_of(Seq::<Run>::empty()).len() == 0,
        rows_of(seq![run]).len() == run.row_count,
        forall|i: int|
            0 <= i < run.row_count ==> #[trigger] rows_of(seq![run])[i] == !run.skip,
        rows_of(first + second) == rows_of(first) + rows_of(second),
    decreases second.len(),
{
    reveal_with_fuel(rows_of, 2);
    assert(seq![run].drop_last() =~= Seq::<Run>::empty());
    assert(seq![run].last() == run);
    if second.len() == 0 {
        assert(first + second =~= first);
        assert(rows_of(first) + rows_of(second) =~= rows_of(first));
    } else {
        law_rows_of_runs(run, first, second.drop_last());
        assert((first + second).drop_last() =~= first + second.drop_last());
        assert((first + second).last() == second.last());
        assert(rows_of(first + second) =~= rows_of(first) + rows_of(second));
    }
}

/// Runs can be counted exactly where the rows of no stretch that is treated alike are more
/// than a `usize` holds.
pub proof fn law_runs_fit(runs: Seq<Run>)
    ensures
        runs_fit(runs) <==> forall|i: int, j: int, skip: bool|
            0 <= i <= j <= runs.len() && #[trigger] are_alike(runs, i, j, skip) ==> rows_of(
                runs.subrange(i, j),
            ).len() <= usize::MAX,
{
    assert forall|i: int, j: int, skip: bool| 0 <= i <= j <= runs.len() implies (
    #[trigger] are_alike(runs, i, j, skip) <==> is_uniform(runs.subrange(i, j), skip)) && rows_of(
        runs.subrange(i, j),
    ).len() == total_rows(runs.subrange(i, j)) by {
        let part = runs.subrange(i, j);
        law_rows_are_counted(part);
        if is_uniform(part, skip) {
            assert forall|k: int| i <= k < j implies (#[trigger] runs[k]).row_count == 0
                || runs[k].skip == skip by {
                assert(part[k - i] == runs[k]);
            }
        }
        if are_alike(runs, i, j, skip) {
            assert forall|k: int| 0 <= k < part.len() implies (#[trigger] part[k]).row_count == 0
                || part[k].skip == skip by {
                assert(part[k] == runs[k + i]);
            }
        }
    }
    if runs_fit(runs) {
        assert forall|i: int, j: int, skip: bool|
            0 <= i <= j <= runs.len() && #[trigger] are_alike(runs, i, j, skip) implies rows_of(
            runs.subrange(i, j),
        ).len() <= usize::MAX by {
            assert(is_uniform(runs.subrange(i, j), skip));
        }
    }
    if forall|i: int, j: int, skip: bool|
        0 <= i <= j <= runs.len() && #[trigger] are_alike(runs, i, j, skip) ==> rows_of(
            runs.subrange(i, j),
        ).len() <= usize::MAX {
        assert forall|i: int, j: int, skip: bool|
            0 <= i <= j <= runs.len() && #[trigger] is_uniform(
                runs.subrange(i, j),
                skip,
            ) implies total_rows(runs.subrange(i, j)) <= usize::MAX by {
            assert(are_alike(runs, i, j, skip));
        }
    }
}

/// The rectangle of a stored box has the box's own sides, each on its axis, where they are
/// numbers in order. Sides that are numbers out of order change places.
pub proof fn law_box_is_its_rectangle(stored: BoundingBox)
    ensures
        stored.x_min is Number && stored.x_max is Number && stored.x_min->Number_0
            <= stored.x_max->Number_0 ==> stored.as_rect().min_x == stored.x_min
            && stored.as_rect().max_x == stored.x_max,
        stored.y_min is Number && stored.y_max is Number && stored.y_min->Number_0
            <= stored.y_max->Number_0 ==> stored.as_rect().min_y == stored.y_min
            && stored.as_rect().max_y == stored.y_max,
        is_below(stored.x_max, stored.x_min) ==> stored.as_rect().min_x == stored.x_max
            && stored.as_rect().max_x == stored.x_min,
        is_below(stored.y_max, stored.y_min) ==> stored.as_rect().min_y == stored.y_max
            && stored.as_rect().max_y == stored.y_min,
{
}

/// A row group is skipped exactly where a column that some predicate names stores a box that
/// lies beyond the bounds of some predicate, and read whole otherwise.
#[verifier::spinoff_prover]
pub proof fn law_row_group_is_skipped(meta: FileMeta, filters: Seq<PredicateView>, group: int)
    requires
        meta.columns@.len() <= usize::MAX,
        0 <= group < meta.row_groups@.len(),
    ensures
        pruned_groups(meta, filters).len() == meta.row_groups@.len(),
        pruned_groups(meta, filters)[group] == GroupAccess::Skip || pruned_groups(
            meta,
            filters,
        )[group] == GroupAccess::Scan,
        pruned_groups(meta, filters)[group] == GroupAccess::Skip <==> exists|
            c: int,
            f: int,
            h: int,
        |
            {
                &&& 0 <= c < meta.columns@.len()
                &&& 0 <= f < filters.len()
                &&& 0 <= h < filters.len()
                &&& meta.columns@[c]@ == (#[trigger] filters[f]).geometry_column
                &&& #[trigger] stores_apart(meta, group, c, filters[h].query_bounds)
            },
{
    let columns = column_places(names(meta.columns@), filters);
    let stored = meta.row_groups@[group];
    assert forall|c: int, query: Rect| #[trigger]
        stores_apart(meta, group, c, query) == box_misses(stored, c, query) by {}
    if is_pruned(stored, columns, filters) {
        let (k, h) = choose|k: int, h: int|
            0 <= k < columns.len() && 0 <= h < filters.len() && box_misses(
                stored,
                #[trigger] columns[k] as int,
                (#[trigger] filters[h]).query_bounds,
            );
        assert(columns.contains(columns[k]));
        law_places_name_columns(names(meta.columns@), filters, columns[k]);
        let place = columns[k];
        let f = choose|f: int|
            0 <= f < filters.len() && place < names(meta.columns@).len() && names(
                meta.columns@,
            )[place as int] == (#[trigger] filters[f]).geometry_column;
        assert(stores_apart(meta, group, place as int, filters[h].query_bounds));
        assert(meta.columns@[place as int]@ == filters[f].geometry_column);
    }
    if exists|c: int, f: int, h: int|
        {
            &&& 0 <= c < meta.columns@.len()
            &&& 0 <= f < filters.len()
            &&& 0 <= h < filters.len()
            &&& meta.columns@[c]@ == (#[trigger] filters[f]).geometry_column
            &&& #[trigger] stores_apart(meta, group, c, filters[h].query_bounds)
        } {
        let (c, f, h) = choose|c: int, f: int, h: int|
            {
                &&& 0 <= c < meta.columns@.len()
                &&& 0 <= f < filters.len()
                &&& 0 <= h < filters.len()
                &&& meta.columns@[c]@ == (#[trigger] filters[f]).geometry_column
                &&& #[trigger] stores_apart(meta, group, c, filters[h].query_bounds)
            };
        law_places_name_columns(names(meta.columns@), filters, c as usize);
        assert(names(meta.columns@)[c] == filters[f].geometry_column);
        assert(columns.contains(c as usize));
        let k = choose|k: int| 0 <= k < columns.len() && columns[k] == c as usize;
        assert(box_misses(stored, columns[k] as int, filters[h].query_bounds));
    }
}

/// A row group is read where each box of a column that a predicate names has, for every
/// predicate, a point in common with the predicate's bounds.
pub proof fn law_row_group_with_common_points_is_read(
    meta: FileMeta,
    filters: Seq<PredicateView>,
    group: int,
)
    requires
        meta.columns@.len() <= usize::MAX,
        0 <= group < meta.row_groups@.len(),
        forall|c: int, f: int, h: int|
            #![trigger meta.row_groups@[group].boxes@[c], filters[f], filters[h]]
            {
                &&& 0 <= c < meta.columns@.len()
                &&& 0 <= f < filters.len()
                &&& 0 <= h < filters.len()
                &&& meta.columns@[c]@ == filters[f].geometry_column
                &&& meta.row_groups@[group].boxes@[c] is Some
            } ==> exists|x: int, y: int|
                box_has_point(
                    meta.row_groups@[group].boxes@[c]->Some_0,
                    filters[h].query_bounds,
                    x,
                    y,
                ),
    ensures
        pruned_groups(meta, filters)[group] == GroupAccess::Scan,
{
    law_row_group_is_skipped(meta, filters, group);
    if pruned_groups(meta, filters)[group] == GroupAccess::Skip {
        let (c, f, h) = choose|c: int, f: int, h: int|
            {
                &&& 0 <= c < meta.columns@.len()
                &&& 0 <= f < filters.len()
                &&& 0 <= h < filters.len()
                &&& meta.columns@[c]@ == (#[trigger] filters[f]).geometry_column
                &&& #[trigger] stores_apart(meta, group, c, filters[h].query_bounds)
            };
        let stored = meta.row_groups@[group].boxes@[c]->Some_0;
        let (x, y) = choose|x: int, y: int|
            box_has_point(stored, filters[h].query_bounds, x, y);
        assert(box_has_point(stored, filters[h].query_bounds, x, y));
    }
}

/// A plan of row groups can be made exactly where a file that is asked with a predicate has a
/// row group, and every row group has an entry for every column that a predicate names.
pub proof fn law_row_group_plan_can_be_made(meta: FileMeta, filters: Seq<PredicateView>)
    requires
        meta.columns@.len() <= usize::MAX,
    ensures
        crate::row_group::can_plan(meta, filters) <==> {
            &&& filters.len() == 0 || meta.row_groups@.len() > 0
            &&& forall|g: int, c: int, f: int|
                0 <= g < meta.row_groups@.len() && 0 <= c < meta.columns@.len() && 0 <= f
                    < filters.len() && (#[trigger] meta.columns@[c])@ == (
                #[trigger] filters[f]).geometry_column ==> c < (
                #[trigger] meta.row_groups@[g]).boxes@.len()
        },
{
    let columns = column_places(names(meta.columns@), filters);
    if crate::row_group::can_plan(meta, filters) {
        assert forall|g: int, c: int, f: int|
            0 <= g < meta.row_groups@.len() && 0 <= c < meta.columns@.len() && 0 <= f
                < filters.len() && (#[trigger] meta.columns@[c])@ == (
            #[trigger] filters[f]).geometry_column implies c < (
        #[trigger] meta.row_groups@[g]).boxes@.len() by {
            law_places_name_columns(names(meta.columns@), filters, c as usize);
            assert(names(meta.columns@)[c] == filters[f].geometry_column);
            let k = choose|k: int| 0 <= k < columns.len() && columns[k] == c as usize;
            assert(columns[k] < meta.row_groups@[g].boxes@.len());
        }
    }
    if forall|g: int, c: int, f: int|
        0 <= g < meta.row_groups@.len() && 0 <= c < meta.columns@.len() && 0 <= f < filters.len()
            && (#[trigger] meta.columns@[c])@ == (#[trigger] filters[f]).geometry_column ==> c < (
        #[trigger] meta.row_groups@[g]).boxes@.len() {
        assert forall|g: int| 0 <= g < meta.row_groups@.len() implies crate::row_group::has_columns(
            #[trigger] meta.row_groups@[g],
            columns,
        ) by {
            assert forall|k: int| 0 <= k < columns.len() implies (#[trigger] columns[k])
                < meta.row_groups@[g].boxes@.len() by {
                assert(columns.contains(columns[k]));
                law_places_name_columns(names(meta.columns@), filters, columns[k]);
                let place = columns[k];
                let f = choose|f: int|
                    0 <= f < filters.len() && place < names(meta.columns@).len() && names(
                        meta.columns@,
                    )[place as int] == (#[trigger] filters[f]).geometry_column;
                assert(meta.columns@[place as int]@ == filters[f].geometry_column);
            }
        }
    }
}

/// The places of one predicate's column are all places of that name, in ascending order; the
/// places of predicates after others come after theirs.
pub proof fn law_places_are_in_order(
    columns: Seq<Seq<char>>,
    filter: PredicateView,
    first: Seq<PredicateView>,
    second: Seq<PredicateView>,
)
    requires
        columns.len() <= usize::MAX,
    ensures
        column_places(columns, first + second) == column_places(columns, first) + column_places(
            columns,
            second,
        ),
        forall|i: int, j: int|
            0 <= i < j < column_places(columns, seq![filter]).len() ==> #[trigger] column_places(
                columns,
                seq![filter],
            )[i] < #[trigger] column_places(columns, seq![filter])[j],
        forall|place: usize|
            column_places(columns, seq![filter]).contains(place) <==> place < columns.len()
                && columns[place as int] == filter.geometry_column,
    decreases second.len(),
{
    let own = column_places(columns, seq![filter]);
    reveal_with_fuel(column_places, 2);
    assert(seq![filter].drop_last() =~= Seq::<PredicateView>::empty());
    assert(own =~= places_of(columns, filter.geometry_column, columns.len() as int));
    lemma_places_ascend(columns, filter.geometry_column, columns.len() as int);
    assert forall|place: usize|
        own.contains(place) <==> place < columns.len() && columns[place as int]
            == filter.geometry_column by {
        law_places_name_columns(columns, seq![filter], place);
        assert(seq![filter][0] == filter);
    }
    if second.len() == 0 {
        assert(first + second =~= first);
        assert(column_places(columns, first) + column_places(columns, second) =~= column_places(
            columns,
            first,
        ));
    } else {
        law_places_are_in_order(columns, filter, first, second.drop_last());
        assert((first + second).drop_last() =~= first + second.drop_last());
        assert((first + second).last() == second.last());
        assert(column_places(columns, first + second) =~= column_places(columns, first)
            + column_places(columns, second));
    }
}

proof fn lemma_places_ascend(columns: Seq<Seq<char>>, name: Seq<char>, end: int)
    requires
        0 <= end <= columns.len() <= usize::MAX,
    ensures
        forall|i: int|
            0 <= i < places_of(columns, name, end).len() ==> (#[trigger] places_of(
                columns,
                name,
                end,
            )[i]) < end,
        forall|i: int, j: int|
            0 <= i < j < places_of(columns, name, end).len() ==> #[trigger] places_of(
                columns,
                name,
                end,
            )[i] < #[trigger] places_of(columns, name, end)[j],
    decreases end,
{
    if end > 0 {
        lemma_places_ascend(columns, name, end - 1);
        let rest = places_of(columns, name, end - 1);
        let all = places_of(columns, name, end);
        assert(forall|i: int| 0 <= i < rest.len() ==> #[trigger] all[i] == rest[i]);
    }
}

/// A filter is a spatial predicate exactly where it is `st_intersects(<text>, <column>) IS
/// TRUE`; the predicate is on that column.
pub proof fn law_predicate_has_the_form(expr: FilterExpr)
    ensures
        predicate_of(expr) is Some <==> exists|text: Seq<char>, column: Seq<char>|
            asks_for(expr, text, column),
        forall|text: Seq<char>, column: Seq<char>| #[trigger]
            asks_for(expr, text, column) ==> predicate_of(expr)->Some_0.geometry_column == column,
{
    match expr {
        FilterExpr::IsTrue(inner) => match *inner {
            FilterExpr::ScalarFunction(call) => {
                if predicate_of(expr) is Some {
                    assert(asks_for(
                        expr,
                        call.args@[0]->Literal_0@,
                        call.args@[1]->Column_0@,
                    ));
                }
            },
            _ => {},
        },
        _ => {},
    }
}

/// The query bounds of a predicate are the least that hold every point of the polygon's
/// exterior ring.
pub proof fn law_query_bounds_span_the_ring(
    expr: FilterExpr,
    text: Seq<char>,
    column: Seq<char>,
    ring: Seq<(Ordinate, Ordinate)>,
)
    requires
        asks_for(expr, text, column),
        wkt_exterior(text) == Some(ring),
        ring.len() > 0,
    ensures
        predicate_of(expr) is Some,
        spans(
            predicate_of(expr)->Some_0.query_bounds.min_x,
            predicate_of(expr)->Some_0.query_bounds.max_x,
            Seq::new(ring.len(), |i: int| ring[i].0),
        ),
        spans(
            predicate_of(expr)->Some_0.query_bounds.min_y,
            predicate_of(expr)->Some_0.query_bounds.max_y,
            Seq::new(ring.len(), |i: int| ring[i].1),
        ),
{
    law_bounds_span_the_points(ring);
}

/// A filter is refused exactly where it is a spatial predicate whose text is no polygon with
/// points: a text that begins as a geometry collection does, or that is not read as a polygon,
/// is no polygon.
pub proof fn law_filter_is_refused(expr: FilterExpr, text: Seq<char>, column: Seq<char>)
    ensures
        asks_for(expr, text, column) && (exists|at: int| begins_with_g(text, at)) ==> expr_error(
            expr,
        ) == Some(QueryError::NotAPolygon),
        asks_for(expr, text, column) && wkt_exterior(text) is None ==> expr_error(expr) == Some(
            QueryError::NotAPolygon,
        ),
        asks_for(expr, text, column) && !(exists|at: int| begins_with_g(text, at)) && wkt_exterior(
            text,
        ) is Some ==> {
            &&& wkt_exterior(text)->Some_0.len() == 0 ==> expr_error(expr) == Some(
                QueryError::EmptyPolygon,
            )
            &&& wkt_exterior(text)->Some_0.len() > 0 ==> expr_error(expr) is None
        },
        predicate_of(expr) is None ==> expr_error(expr) is None,
{
    if crate::predicate::opens_collection(text) {
        let at = choose|at: int|
            {
                &&& 0 <= at < text.len()
                &&& #[trigger] text[at] == 'G' || text[at] == 'g'
                &&& forall|k: int|
                    0 <= k < at ==> crate::predicate::is_blank(#[trigger] text[k])
            };
        assert(begins_with_g(text, at));
    }
    if exists|at: int| begins_with_g(text, at) {
        let at = choose|at: int| begins_with_g(text, at);
        assert(text[at] == 'G' || text[at] == 'g');
        assert(crate::predicate::opens_collection(text));
    }
}

/// Filters are read where none of them is refused; otherwise the answer is that of the first
/// refused one, and of no other.
pub proof fn law_first_refused_filter_answers(filters: Seq<FilterExpr>, at: int, error: QueryError)
    ensures
        all_readable(filters) <==> forall|i: int|
            0 <= i < filters.len() ==> expr_error(#[trigger] filters[i]) is None,
        0 <= at < filters.len() && expr_error(filters[at]) is Some && (forall|i: int|
            0 <= i < at ==> expr_error(#[trigger] filters[i]) is None) ==> (is_first_error(
            filters,
            error,
        ) <==> expr_error(filters[at]) == Some(error)),
        all_readable(filters) ==> !is_first_error(filters, error),
{
    if 0 <= at < filters.len() && expr_error(filters[at]) is Some && (forall|i: int|
        0 <= i < at ==> expr_error(#[trigger] filters[i]) is None) {
        assert(all_readable(filters.take(at)));
        if is_first_error(filters, error) {
            let k = choose|k: int|
                {
                    &&& 0 <= k < filters.len()
                    &&& expr_error(#[trigger] filters[k]) == Some(error)
                    &&& all_readable(filters.take(k))
                };
            if at < k {
                assert(filters.take(k)[at] == filters[at]);
            }
        }
    }
}

/// One filter gives its own predicate or none; no filters give none.
pub proof fn law_filter_gives_its_predicate(filter: FilterExpr)
    ensures
        predicates_of(Seq::<FilterExpr>::empty()).len() == 0,
        predicate_of(filter) is None ==> predicates_of(seq![filter]).len() == 0,
        predicate_of(filter) is Some ==> predicates_of(seq![filter]).len() == 1 && predicates_of(
            seq![filter],
        )[0] == predicate_of(filter)->Some_0,
{
    reveal_with_fuel(predicates_of, 2);
    assert(seq![filter].drop_last() =~= Seq::<FilterExpr>::empty());
    assert(seq![filter].last() == filter);
}

/// A scan is left to the inner table exactly where there is no predicate; otherwise it goes on
/// with all predicates in order, each with its bounds and its column.
pub proof fn law_scan_keeps_every_predicate(
    step: ScanStep,
    predicates: Seq<PredicateView>,
    kept: Seq<SpatialPredicate>,
)
    ensures
        step.follows(predicates) ==> (step is Inner <==> predicates.len() == 0),
        step.follows(predicates) && step is Pruned ==> {
            let found = step->Pruned_0@;
            &&& found.len() == predicates.len()
            &&& forall|i: int|
                0 <= i < found.len() ==> (#[trigger] found[i]).query_bounds
                    == predicates[i].query_bounds && found[i].geometry_column@
                    == predicates[i].geometry_column
        },
        views(kept).len() == kept.len(),
        forall|i: int|
            0 <= i < kept.len() ==> (#[trigger] views(kept)[i]).query_bounds
                == kept[i].query_bounds && views(kept)[i].geometry_column
                == kept[i].geometry_column@,
{
    if step.follows(predicates) && step is Pruned {
        let found = step->Pruned_0@;
        assert forall|i: int| 0 <= i < found.len() implies (#[trigger] found[i]).query_bounds
            == predicates[i].query_bounds && found[i].geometry_column@
            == predicates[i].geometry_column by {
            assert(views(found)[i] == found[i]@);
        }
    }
}

/// A page has the rows from its first row up to the first row of the next page, or up to the
/// end of the row group; the rows before a page are those of the pages before it.
pub proof fn law_page_has_its_rows(first_rows: Seq<i64>, num_rows: i64, page: int)
    requires
        0 <= page < first_rows.len(),
    ensures
        page_rows(first_rows, num_rows, page) == ((end_of(first_rows, num_rows, page)
            - first_rows[page]) as i64) as usize,
        0 <= end_of(first_rows, num_rows, page) - first_rows[page] <= i64::MAX && end_of(
            first_rows,
            num_rows,
            page,
        ) - first_rows[page] <= usize::MAX ==> page_rows(first_rows, num_rows, page) == end_of(
            first_rows,
            num_rows,
            page,
        ) - first_rows[page],
        rows_before(first_rows, num_rows, 0) == 0,
        rows_before(first_rows, num_rows, page + 1) == rows_before(first_rows, num_rows, page)
            + page_rows(first_rows, num_rows, page),
{
}

/// A page is read from its first row up to the first row of the next page, in whichever row
/// group it lies, where the row group's pages follow one another. In any row group the read of
/// the first page skips nothing, and each later page is read from where the page before it ends.
#[verifier::spinoff_prover]
pub proof fn law_page_is_read_on_its_own(meta: FileMeta, column: int, groups: int, i: int)
    requires
        0 <= groups <= meta.row_groups@.len() <= usize::MAX,
        forall|g: int|
            0 <= g < groups ==> (#[trigger] first_rows_of(meta, g, column)).len() <= usize::MAX,
        0 <= i < file_reads(meta, column, groups).len(),
    ensures
        ({
            let read = file_reads(meta, column, groups)[i];
            let group = read.data.row_group_id as int;
            let page = read.data.page_id as int;
            let first_rows = first_rows_of(meta, group, column);
            let num_rows = meta.row_groups@[group].num_rows;
            &&& group < groups
            &&& page < first_rows.len()
            &&& is_layout(first_rows, num_rows) ==> read.skip == first_rows[page] && read.skip
                + read.select == end_of(first_rows, num_rows, page)
            &&& page == 0 ==> read.skip == 0
            &&& read.select == ((end_of(first_rows, num_rows, page) - first_rows[page]) as i64) as usize
            &&& i + 1 < file_reads(meta, column, groups).len() ==> {
                let next = file_reads(meta, column, groups)[i + 1];
                &&& page + 1 < first_rows.len() ==> next.data.row_group_id == group
                    && next.data.page_id == page + 1
                &&& page + 1 == first_rows.len() ==> next.data.row_group_id > group
                    && next.data.page_id == 0
                &&& next.data.row_group_id == group && rows_before(
                    first_rows,
                    num_rows,
                    first_rows.len() as int,
                ) <= usize::MAX ==> next.skip == read.skip + read.select
            }
            &&& i == 0 ==> page == 0
            &&& i + 1 == file_reads(meta, column, groups).len() ==> page + 1 == first_rows.len()
        }),
    decreases groups,
{
    let starts = page_starts(meta, groups - 1, column);
    let num_rows = meta.row_groups@[groups - 1].num_rows;
    let head = file_reads(meta, column, groups - 1);
    let tail = group_reads(starts, num_rows, groups - 1, starts.len() as int);
    let all = file_reads(meta, column, groups);
    assert(all == head + tail);
    assert(starts == first_rows_of(meta, groups - 1, column));
    assert(forall|k: int| 0 <= k < head.len() ==> #[trigger] all[k] == head[k]);
    assert(forall|k: int| 0 <= k < tail.len() ==> all[head.len() + k] == #[trigger] tail[k]);
    if i < head.len() {
        law_page_is_read_on_its_own(meta, column, groups - 1, i);
        if i + 1 == head.len() && i + 1 < all.len() {
            assert(all[i + 1] == tail[0]);
        }
    } else {
        let page = i - head.len();
        assert(all[i] == tail[page]);
        law_page_has_its_rows(starts, num_rows, page);
        lemma_rows_before_grows(starts, num_rows, page, starts.len() as int);
        if i + 1 < all.len() {
            assert(all[i + 1] == tail[page + 1]);
            lemma_rows_before_grows(starts, num_rows, page + 1, starts.len() as int);
        }
        if is_layout(starts, num_rows) {
            assert(rows_before(starts, num_rows, page) == starts[page] && page_rows(
                starts,
                num_rows,
                page,
            ) == end_of(starts, num_rows, page) - starts[page]) by {
                law_pages_follow_one_another(starts, num_rows, page);
            }
            assert(starts[page] <= starts[starts.len() - 1]);
        }
    }
}

/// A file whose pages follow one another in every row group can be indexed and planned.
#[verifier::spinoff_prover]
pub proof fn law_orderly_file_can_be_read(meta: FileMeta, column: int, pages: Set<PageInfo>)
    requires
        0 <= column,
        meta.offset_index is Some,
        meta.offset_index->Some_0@.len() >= meta.row_groups@.len(),
        forall|g: int|
            0 <= g < meta.row_groups@.len() ==> column < (
            #[trigger] meta.offset_index->Some_0@[g])@.len() && is_layout(
                first_rows_of(meta, g, column),
                meta.row_groups@[g].num_rows,
            ),
    ensures
        has_pages(meta, column),
        rows_fit(meta, column),
        column == 33 ==> crate::page_table::can_plan(meta, pages),
{
    assert forall|g: int| 0 <= g < meta.row_groups@.len() implies {
        let starts = page_starts(meta, g, column);
        let num_rows = (#[trigger] meta.row_groups@[g]).num_rows;
        &&& crate::page_index::distances_fit(starts, num_rows)
        &&& rows_before(starts, num_rows, starts.len() as int) <= usize::MAX
        &&& column == 33 ==> runs_fit(file_runs(meta, pages, g))
    } by {
        assert(column < meta.offset_index->Some_0@[g]@.len());
        let starts = page_starts(meta, g, column);
        assert(starts == first_rows_of(meta, g, column));
        let num_rows = meta.row_groups@[g].num_rows;
        assert(rows_before(starts, num_rows, starts.len() as int) == num_rows) by {
            law_pages_follow_one_another(starts, num_rows, starts.len() as int);
        }
        law_selection_covers_the_group(starts, num_rows, g, pages);
    }
    if column == 33 {
        assert forall|g: int| 0 <= g < meta.row_groups@.len() implies runs_fit(
            #[trigger] file_runs(meta, pages, g),
        ) by {
            assert(meta.row_groups@[g].num_rows == meta.row_groups@[g].num_rows);
        }
    }
}

/// A file has pages where its offsets name the column in every row group and no two first rows
/// that follow one another are further apart than an `i64` holds. A plan can always be made
/// without a page; with one, exactly where the file has pages and the runs of every row group,
/// one for each page, can be counted.
#[verifier::spinoff_prover]
pub proof fn law_page_plan_can_be_made(meta: FileMeta, pages: Set<PageInfo>, column: int)
    requires
        0 <= column,
    ensures
        has_pages(meta, column) <==> {
            &&& meta.offset_index is Some
            &&& meta.offset_index->Some_0@.len() >= meta.row_groups@.len()
            &&& forall|g: int|
                0 <= g < meta.row_groups@.len() ==> column < (
                #[trigger] meta.offset_index->Some_0@[g])@.len()
            &&& forall|g: int, p: int|
                0 <= g < meta.row_groups@.len() && 0 <= p < first_rows_of(meta, g, column).len()
                    ==> i64::MIN <= end_of(
                    first_rows_of(meta, g, column),
                    meta.row_groups@[g].num_rows,
                    p,
                ) - (#[trigger] first_rows_of(meta, g, column)[p]) <= i64::MAX
        },
        rows_fit(meta, column) <==> forall|g: int|
            0 <= g < meta.row_groups@.len() ==> rows_before(
                #[trigger] first_rows_of(meta, g, column),
                meta.row_groups@[g].num_rows,
                first_rows_of(meta, g, column).len() as int,
            ) <= usize::MAX,
        pages == Set::<PageInfo>::empty() ==> crate::page_table::can_plan(meta, pages),
        pages != Set::<PageInfo>::empty() ==> (crate::page_table::can_plan(meta, pages) <==> {
            &&& has_pages(meta, 33)
            &&& forall|g: int|
                0 <= g < meta.row_groups@.len() ==> runs_fit(#[trigger] file_runs(meta, pages, g))
        }),
        forall|g: int|
            #![trigger file_runs(meta, pages, g)]
            file_runs(meta, pages, g).len() == first_rows_of(meta, g, 33).len(),
        forall|g: int, p: int|
            0 <= p < file_runs(meta, pages, g).len() ==> (#[trigger] file_runs(
                meta,
                pages,
                g,
            )[p]).row_count == page_rows(
                first_rows_of(meta, g, 33),
                meta.row_groups@[g].num_rows,
                p,
            ) && file_runs(meta, pages, g)[p].skip == !pages.contains(
                PageInfo { row_group_id: g as usize, page_id: p as usize },
            ),
{
    if has_pages(meta, column) {
        assert forall|g: int, p: int|
            0 <= g < meta.row_groups@.len() && 0 <= p < first_rows_of(
                meta,
                g,
                column,
            ).len() implies i64::MIN <= end_of(
            first_rows_of(meta, g, column),
            meta.row_groups@[g].num_rows,
            p,
        ) - (#[trigger] first_rows_of(meta, g, column)[p]) <= i64::MAX by {
            assert(crate::page_index::distances_fit(
                page_starts(meta, g, column),
                meta.row_groups@[g].num_rows,
            ));
            assert(page_starts(meta, g, column)[p] == first_rows_of(meta, g, column)[p]);
        }
    }
    if forall|g: int, p: int|
        0 <= g < meta.row_groups@.len() && 0 <= p < first_rows_of(meta, g, column).len()
            ==> i64::MIN <= end_of(
            first_rows_of(meta, g, column),
            meta.row_groups@[g].num_rows,
            p,
        ) - (#[trigger] first_rows_of(meta, g, column)[p]) <= i64::MAX {
        assert forall|g: int|
            0 <= g < meta.row_groups@.len() implies crate::page_index::distances_fit(
            page_starts(meta, g, column),
            (#[trigger] meta.row_groups@[g]).num_rows,
        ) by {
            let starts = page_starts(meta, g, column);
            assert forall|p: int| 0 <= p < starts.len() implies i64::MIN
                <= crate::page_index::page_end(starts, meta.row_groups@[g].num_rows, p) - (
            #[trigger] starts[p]) <= i64::MAX by {
                assert(first_rows_of(meta, g, column)[p] == starts[p]);
            }
        }
    }
    if rows_fit(meta, column) {
        assert forall|g: int| 0 <= g < meta.row_groups@.len() implies rows_before(
            #[trigger] first_rows_of(meta, g, column),
            meta.row_groups@[g].num_rows,
            first_rows_of(meta, g, column).len() as int,
        ) <= usize::MAX by {
            assert(page_starts(meta, g, column) == first_rows_of(meta, g, column));
        }
    }
    if forall|g: int|
        0 <= g < meta.row_groups@.len() ==> rows_before(
            #[trigger] first_rows_of(meta, g, column),
            meta.row_groups@[g].num_rows,
            first_rows_of(meta, g, column).len() as int,
        ) <= usize::MAX {
        assert forall|g: int| 0 <= g < meta.row_groups@.len() implies rows_before(
            page_starts(meta, g, column),
            (#[trigger] meta.row_groups@[g]).num_rows,
            page_starts(meta, g, column).len() as int,
        ) <= usize::MAX by {
            assert(page_starts(meta, g, column) == first_rows_of(meta, g, column));
        }
    }
}

/// The plan for a set of pages selects, of a row group whose pages follow one another, exactly
/// the row group's rows, and reads a row exactly where the page that it lies in is in the set.
/// Without a page it reads every row group whole.
#[verifier::spinoff_prover]
pub proof fn law_plan_reads_the_pages(
    meta: FileMeta,
    pages: Set<PageInfo>,
    group: int,
    page: int,
    row: int,
)
    requires
        0 <= group < meta.row_groups@.len(),
        is_layout(first_rows_of(meta, group, 33), meta.row_groups@[group].num_rows),
    ensures
        selected_groups(meta, pages).len() == meta.row_groups@.len(),
        pages == Set::<PageInfo>::empty() ==> selected_groups(meta, pages)[group]
            == GroupAccess::Scan,
        pages != Set::<PageInfo>::empty() ==> {
            &&& selected_groups(meta, pages)[group] is Selection
            &&& selected_groups(meta, pages)[group]->Selection_0.len()
                == meta.row_groups@[group].num_rows
            &&& 0 <= page < first_rows_of(meta, group, 33).len() && first_rows_of(
                meta,
                group,
                33,
            )[page] <= row < end_of(
                first_rows_of(meta, group, 33),
                meta.row_groups@[group].num_rows,
                page,
            ) ==> selected_groups(meta, pages)[group]->Selection_0[row] == pages.contains(
                PageInfo { row_group_id: group as usize, page_id: page as usize },
            )
        },
{
    let starts = page_starts(meta, group, 33);
    let num_rows = meta.row_groups@[group].num_rows;
    let rows = rows_of(file_runs(meta, pages, group));
    assert(starts == first_rows_of(meta, group, 33));
    assert(rows.len() == num_rows) by {
        law_selection_covers_the_group(starts, num_rows, group, pages);
    }
    if pages != Set::<PageInfo>::empty() {
        assert(selected_groups(meta, pages)[group] == GroupAccess::Selection(rows));
        if 0 <= page < starts.len() && starts[page] <= row < end_of(starts, num_rows, page) {
            assert(rows_before(starts, num_rows, page) == starts[page] && page_rows(
                starts,
                num_rows,
                page,
            ) == end_of(starts, num_rows, page) - starts[page]) by {
                law_pages_follow_one_another(starts, num_rows, page);
            }
            law_row_is_read_with_its_page(meta, pages, group, page, row - starts[page]);
        }
    }
}

/// The plan for a set of pages selects as many rows of any row group as its pages have.
pub proof fn law_plan_selects_the_rows_of_all_pages(meta: FileMeta, pages: Set<PageInfo>, group: int)
    requires
        0 <= group < meta.row_groups@.len(),
        pages != Set::<PageInfo>::empty(),
    ensures
        selected_groups(meta, pages)[group] is Selection,
        selected_groups(meta, pages)[group]->Selection_0.len() == rows_before(
            first_rows_of(meta, group, 33),
            meta.row_groups@[group].num_rows,
            first_rows_of(meta, group, 33).len() as int,
        ),
{
    let starts = page_starts(meta, group, 33);
    let num_rows = meta.row_groups@[group].num_rows;
    let runs = file_runs(meta, pages, group);
    lemma_runs_before(starts, num_rows, group, pages, starts.len() as int);
    assert(runs.take(starts.len() as int) =~= runs);
    law_rows_are_counted(runs);
}

/// A value's rectangle has the corners that the value is read with.
pub proof fn law_value_has_its_corners(bytes: Seq<u8>)
    requires
        points_are_plain(bytes),
    ensures
        value_rect(bytes) is Some <==> wkb_bounds(bytes) is Some,
        wkb_bounds(bytes) is Some ==> {
            let corners = wkb_bounds(bytes)->Some_0;
            let rect = value_rect(bytes)->Some_0;
            &&& rect.min_x == corners.0.0 && rect.min_y == corners.0.1
            &&& rect.max_x == corners.1.0 && rect.max_y == corners.1.1
        },
{
}

/// The four bytes from `at` on are `number`, first byte first where the byte order is 0 and
/// last byte first otherwise.
pub open spec fn encodes(bytes: Seq<u8>, at: int, number: nat) -> bool {
    if bytes[0] == 0 {
        number == bytes[at + 3] + 0x100 * bytes[at + 2] + 0x1_0000 * bytes[at + 1] + 0x100_0000
            * bytes[at]
    } else {
        number == bytes[at] + 0x100 * bytes[at + 1] + 0x1_0000 * bytes[at + 2] + 0x100_0000
            * bytes[at + 3]
    }
}

/// Type codes of multipoints whose points have `width` ordinates.
pub open spec fn is_multipoint_code(code: nat, width: nat) -> bool {
    ||| width == 2 && code == 4
    ||| width == 3 && (code == 1004 || code == 2004 || code == 0x8000_0004 || code == 0x4000_0004)
    ||| width == 4 && (code == 3004 || code == 0xc000_0004)
}

/// The same type codes, marked as followed by a spatial reference.
pub open spec fn is_marked_multipoint_code(code: nat, width: nat) -> bool {
    ||| width == 2 && code == 0x2000_0004
    ||| width == 3 && (code == 0xa000_0004 || code == 0x6000_0004)
    ||| width == 4 && code == 0xe000_0004
}

/// Only multipoints, and collections that hold one, are kept from being read: a value that is
/// no multipoint is plain where its members are, and the members of a plain value are plain.
pub proof fn law_plain_values(bytes: Seq<u8>)
    requires
        bytes.len() > 0,
    ensures
        (bytes.len() < 9 || (if bytes[0] == 0 {
            bytes[4]
        } else {
            bytes[1]
        }) % 8 != 4) && (forall|i: int|
            0 <= i < wkb_members(bytes).len() ==> points_are_plain(
                #[trigger] wkb_members(bytes)[i],
            )) ==> points_are_plain(bytes),
        points_are_plain(bytes) ==> forall|i: int|
            0 <= i < wkb_members(bytes).len() && (#[trigger] wkb_members(bytes)[i]).len()
                < bytes.len() ==> points_are_plain(wkb_members(bytes)[i]),
{
}

/// A multipoint is plain exactly where the type code of its last point is not marked as
/// followed by a spatial reference; the multipoint's own may be. One without points is plain.
pub proof fn law_plain_multipoints(bytes: Seq<u8>, code: nat, width: nat, count: nat)
    requires
        is_multipoint_code(code, width) || is_marked_multipoint_code(code, width),
        is_multipoint_code(code, width) ==> bytes.len() >= 9 && encodes(bytes, 1, code) && encodes(
            bytes,
            5,
            count,
        ) && bytes.len() >= 9 + count * (5 + 8 * width),
        !is_multipoint_code(code, width) ==> bytes.len() >= 13 && encodes(bytes, 1, code)
            && encodes(bytes, 9, count) && bytes.len() >= 13 + count * (5 + 8 * width),
        wkb_members(bytes).len() == 0,
    ensures
        count == 0 ==> points_are_plain(bytes),
        count > 0 ==> ({
            let start: int = if is_multipoint_code(code, width) {
                9
            } else {
                13
            };
            let last = start + (count - 1) * (5 + 8 * width);
            let mark = if bytes[0] == 0 {
                bytes[last + 1]
            } else {
                bytes[last + 4]
            };
            points_are_plain(bytes) <==> mark % 0x40 < 0x20
        }),
{
    let start: int = if is_multipoint_code(code, width) {
        9
    } else {
        13
    };
    let size: int = 5 + 8 * (width as int);
    assert(crate::geometry::word(bytes, 1) == code);
    assert(crate::geometry::points_start(bytes) == start);
    assert(crate::geometry::word(bytes, start - 4) == count);
    assert(crate::geometry::dimensions(code) == width);
    assert(crate::geometry::point_size(bytes) == size);
    assert(5 + 8 * width == size);
    assert(count * size == (count - 1) * size + size) by (nonlinear_arith);
    if count > 0 {
        let last = start + (count - 1) * size;
        assert(0 <= (count - 1) * size) by (nonlinear_arith)
            requires
                count > 0,
                size >= 0,
        ;
        assert(crate::geometry::last_point(bytes) == last);
    }
}

/// Every value of a page counts toward its bounds, and the index has one entry for each page,
/// in order.
#[verifier::spinoff_prover]
pub proof fn law_every_value_counts(
    reads: Seq<PageRead>,
    page_values: Seq<Vec<Vec<u8>>>,
    page: int,
    i: int,
)
    requires
        0 <= page < reads.len(),
        can_index_values(reads, page_values),
        0 <= i < page_values[page]@.len(),
    ensures
        page_values.len() == reads.len(),
        value_entries(reads, page_values).len() == reads.len(),
        value_entries(reads, page_values)[page].data == reads[page].data,
        value_rect(page_values[page]@[i]@) is Some,
        rects_of(page_values[page]@).len() == page_values[page]@.len(),
        rects_of(page_values[page]@)[i] == value_rect(page_values[page]@[i]@)->Some_0,
        value_entries(reads, page_values)[page].bounds == overall(rects_of(page_values[page]@)),
        (forall|n: int|
            1 <= n < page_values[page]@.len() ==> !is_whole_plane(
                overall(#[trigger] rects_of(page_values[page]@).take(n)),
            )) ==> reaches(
            value_entries(reads, page_values)[page].bounds,
            value_rect(page_values[page]@[i]@)->Some_0,
        ),
        (forall|n: int|
            1 <= n < page_values[page]@.len() ==> !is_whole_plane(
                overall(#[trigger] rects_of(page_values[page]@).take(n)),
            )) ==> reaches_corner(
            value_entries(reads, page_values)[page].bounds,
            value_rect(page_values[page]@[0]@)->Some_0,
        ),
{
    let values = page_values[page]@;
    let rects = rects_of(values);
    assert(all_have_rects(values));
    if forall|n: int| 1 <= n < values.len() ==> !is_whole_plane(overall(#[trigger] rects.take(n))) {
        assert(crate::rect::keeps_all(rects)) by {
            assert forall|n: int| 1 <= n < rects.len() implies overall(#[trigger] rects.take(n))
                != crate::rect::everywhere() by {
                assert(!is_whole_plane(overall(rects.take(n))));
            }
        }
        crate::rect::law_overall_reaches(rects, i);
        law_overall_is_pushed_one_by_one(rects, rects[0]);
    }
}

/// The upper corner of a rectangle, as far as it is numbers, lies within the bounds.
pub open spec fn reaches(bounds: Extent, rect: Rect) -> bool {
    &&& rect.max_x is Number ==> bounds.min_x <= rect.max_x->Number_0 <= bounds.max_x
    &&& rect.max_y is Number ==> bounds.min_y <= rect.max_y->Number_0 <= bounds.max_y
}

/// Both corners of a rectangle whose sides are numbers lie within the bounds.
pub open spec fn reaches_corner(bounds: Extent, rect: Rect) -> bool {
    &&& is_in_order(rect)
    &&& bounds.min_x <= rect.min_x->Number_0 && rect.max_x->Number_0 <= bounds.max_x
    &&& bounds.min_y <= rect.min_y->Number_0 && rect.max_y->Number_0 <= bounds.max_y
}

/// Pages can be indexed where each has its list of values, or of rectangles, and the sides of
/// all rectangles are numbers in order; entries keep the pages in order.
pub proof fn law_orderly_pages_can_be_indexed(
    reads: Seq<PageRead>,
    page_values: Seq<Vec<Vec<u8>>>,
    page_rects: Seq<Vec<Rect>>,
)
    ensures
        reads.len() == page_values.len() && (forall|p: int, i: int|
            0 <= p < page_values.len() && 0 <= i < page_values[p]@.len() ==> value_rect(
                (#[trigger] page_values[p]@[i])@,
            ) is Some && is_in_order(value_rect(page_values[p]@[i]@)->Some_0))
            ==> can_index_values(reads, page_values),
        can_index_values(reads, page_values) ==> reads.len() == page_values.len(),
        reads.len() == page_rects.len() && (forall|p: int, i: int|
            0 <= p < page_rects.len() && 0 <= i < page_rects[p]@.len() ==> is_in_order(
                #[trigger] page_rects[p]@[i],
            )) ==> can_index(reads, page_rects),
        entries(reads, page_rects).len() == reads.len(),
        forall|p: int|
            0 <= p < reads.len() ==> (#[trigger] entries(reads, page_rects)[p]).data
                == reads[p].data && entries(reads, page_rects)[p].bounds == overall(page_rects[p]@),
{
    if forall|p: int, i: int|
        0 <= p < page_values.len() && 0 <= i < page_values[p]@.len() ==> value_rect(
            (#[trigger] page_values[p]@[i])@,
        ) is Some && is_in_order(value_rect(page_values[p]@[i]@)->Some_0) {
        assert forall|p: int| 0 <= p < page_values.len() implies all_have_rects(
            (#[trigger] page_values[p])@,
        ) && can_push_all(rects_of(page_values[p]@)) by {
            let values = page_values[p]@;
            let rects = rects_of(values);
            assert forall|i: int| 0 <= i < values.len() implies value_rect(
                (#[trigger] values[i])@,
            ) is Some by {
                assert(page_values[p]@[i] == values[i]);
            }
            assert forall|i: int| 0 <= i < rects.len() implies is_in_order(#[trigger] rects[i]) by {
                assert(page_values[p]@[i] == values[i]);
            }
            law_overall_is_pushed_one_by_one(rects, rects[0]);
        }
    }
    if forall|p: int, i: int|
        0 <= p < page_rects.len() && 0 <= i < page_rects[p]@.len() ==> is_in_order(
            #[trigger] page_rects[p]@[i],
        ) {
        assert forall|p: int| 0 <= p < page_rects.len() implies can_push_all(
            (#[trigger] page_rects[p])@,
        ) by {
            let rects = page_rects[p]@;
            assert forall|i: int| 0 <= i < rects.len() implies is_in_order(#[trigger] rects[i]) by {
                assert(page_rects[p]@[i] == rects[i]);
            }
            law_overall_is_pushed_one_by_one(rects, rects[0]);
        }
    }
}

/// The list gives the pages that are marked, and no others; the tree gives the pages that it
/// holds with bounds that overlap a query of numbers, and no others.
pub proof fn law_pages_are_found(
    pages: Seq<PageBounds>,
    hits: Seq<bool>,
    held: Multiset<PageBounds>,
    query: Rect,
    page: PageInfo,
)
    ensures
        hit_pages(pages, hits).contains(page) <==> exists|i: int|
            0 <= i < pages.len() && hits[i] && (#[trigger] pages[i]).data == page,
        overlapping_pages(held, query).contains(page) <==> exists|entry: PageBounds|
            #[trigger] held.contains(entry) && entry.data == page && touches(entry.bounds, query),
{
    if overlapping_pages(held, query).contains(page) {
        let entry = choose|entry: PageBounds|
            {
                &&& #[trigger] held.contains(entry)
                &&& entry.data == page
                &&& query.is_numeric()
                &&& entry.bounds.overlaps(query.as_extent())
            };
        assert(held.contains(entry) && touches(entry.bounds, query));
    }
    if exists|entry: PageBounds|
        #[trigger] held.contains(entry) && entry.data == page && touches(entry.bounds, query) {
        let entry = choose|entry: PageBounds|
            #[trigger] held.contains(entry) && entry.data == page && touches(entry.bounds, query);
        assert(entry.bounds.overlaps(query.as_extent()));
    }
}

/// A table needs a page exactly where an entry for it is marked, if the list is asked, or
/// overlaps the query, if the tree is asked.
pub proof fn law_table_needs_the_pages(
    table: GeoParquetNextTable,
    query: Rect,
    flat_hits: Seq<bool>,
    page: PageInfo,
)
    ensures
        table.asks_list() ==> (table.needed_pages(query, flat_hits).contains(page) <==> exists|
            i: int,
        |
            0 <= i < table.pages().len() && flat_hits[i] && (#[trigger] table.pages()[i]).data
                == page),
        !table.asks_list() ==> (table.needed_pages(query, flat_hits).contains(page) <==> exists|
            i: int,
        |
            0 <= i < table.pages().len() && (#[trigger] table.pages()[i]).data == page && touches(
                table.pages()[i].bounds,
                query,
            )),
{
    broadcast use vstd::seq_lib::group_to_multiset_ensures;

    let pages = table.pages();
    let held = pages.to_multiset();
    law_pages_are_found(pages, flat_hits, held, query, page);
    if !table.asks_list() {
        if table.needed_pages(query, flat_hits).contains(page) {
            let entry = choose|entry: PageBounds|
                #[trigger] held.contains(entry) && entry.data == page && touches(
                    entry.bounds,
                    query,
                );
            assert(pages.contains(entry));
            let i = choose|i: int| 0 <= i < pages.len() && pages[i] == entry;
            assert(table.pages()[i].data == page);
        }
        if exists|i: int|
            0 <= i < pages.len() && (#[trigger] pages[i]).data == page && touches(
                pages[i].bounds,
                query,
            ) {
            let i = choose|i: int|
                0 <= i < pages.len() && (#[trigger] pages[i]).data == page && touches(
                    pages[i].bounds,
                    query,
                );
            assert(pages.contains(pages[i]));
            assert(held.contains(pages[i]));
        }
    }
}

} // verus!
