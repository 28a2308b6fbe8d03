//! What the pruning rules read of a Parquet file's metadata.
use vstd::prelude::*;
use crate::ordinate::Ordinate;
use crate::predicate::PredicateView;
use crate::predicate::SpatialPredicate;
use crate::predicate::views;
use crate::rect::Rect;
use crate::rect::high_side;
use crate::rect::low_side;

verus! {

/// The bounding box in a column's geospatial statistics, as it is stored.
#[derive(Clone, Copy, Debug, PartialEq, Eq, Structural)]
pub struct BoundingBox {
    pub x_min: Ordinate,
    pub y_min: Ordinate,
    pub x_max: Ordinate,
    pub y_max: Ordinate,
}

/// A row group.
#[derive(Debug)]
pub struct RowGroupMeta {
    /// The number of rows.
    pub num_rows: i64,
    /// For each leaf column, the bounding box in its geospatial statistics.
    pub boxes: Vec<Option<BoundingBox>>,
}

/// The metadata of a file.
#[derive(Debug)]
pub struct FileMeta {
    /// The names of the leaf columns of the first row group; empty without row groups.
    pub columns: Vec<String>,
    /// The row groups.
    pub row_groups: Vec<RowGroupMeta>,
    /// For each row group, leaf column and page, the row group's row that the page starts
    /// with.
    pub offset_index: Option<Vec<Vec<Vec<i64>>>>,
}

impl BoundingBox {
    /// The rectangle between the box's corners. A box whose lower side lies above its upper
    /// side is turned over.
    pub open spec fn as_rect(self) -> Rect {
        Rect {
            min_x: low_side(self.x_min, self.x_max),
            min_y: low_side(self.y_min, self.y_max),
            max_x: high_side(self.x_min, self.x_max),
            max_y: high_side(self.y_min, self.y_max),
        }
    }

    /// The rectangle between the box's corners.
    pub fn to_rect(&self) -> (rect: Rect)
        ensures
            rect == self.as_rect(),
            rect.wf(),
    {
        Rect::new(self.x_min, self.y_min, self.x_max, self.y_max)
    }
}

/// The names in a list of strings.
pub open spec fn names(strings: Seq<String>) -> Seq<Seq<char>> {
    strings.map_values(|s: String| s@)
}

/// The places below `end` at which `names` holds `name`, in ascending order.
pub open spec fn places_of(names: Seq<Seq<char>>, name: Seq<char>, end: int) -> Seq<usize>
    decreases end,
{
    if end <= 0 {
        Seq::empty()
    } else {
        let rest = places_of(names, name, end - 1);
        if names[end - 1] == name {
            rest.push((end - 1) as usize)
        } else {
            rest
        }
    }
}

/// For each predicate in turn, the places of its geometry column among `columns`.
pub open spec fn column_places(columns: Seq<Seq<char>>, filters: Seq<PredicateView>) -> Seq<usize>
    decreases filters.len(),
{
    if filters.len() == 0 {
        Seq::empty()
    } else {
        column_places(columns, filters.drop_last()) + places_of(
            columns,
            filters.last().geometry_column,
            columns.len() as int,
        )
    }
}

/// The place of the last column with the given name.
pub fn column_index(columns: &Vec<String>, name: &String) -> (place: Option<usize>)
    ensures
        place is None <==> forall|i: int|
            0 <= i < columns@.len() ==> (#[trigger] columns@[i])@ != name@,
        place matches Some(p) ==> {
            &&& p < columns@.len()
            &&& columns@[p as int]@ == name@
            &&& forall|i: int| p < i < columns@.len() ==> (#[trigger] columns@[i])@ != name@
        },
{
    let mut place: Option<usize> = None;
    for i in 0..columns.len()
        invariant
            place is None <==> forall|k: int| 0 <= k < i ==> (#[trigger] columns@[k])@ != name@,
            place matches Some(p) ==> {
                &&& p < i
                &&& columns@[p as int]@ == name@
                &&& forall|k: int| p < k < i ==> (#[trigger] columns@[k])@ != name@
            },
    {
        if columns[i] == *name {
            place = Some(i);
            assert(columns@[i as int]@ == name@);
        }
    }
    place
}

/// The places of the geometry columns of the predicates: for each predicate in turn, every
/// leaf column that has its column's name.
pub fn spatial_column_indexes(
    meta: &FileMeta,
    spatial_filters: &Vec<SpatialPredicate>,
) -> (places: Vec<usize>)
    requires
        spatial_filters@.len() > 0 ==> meta.row_groups@.len() > 0,
    ensures
        places@ == column_places(names(meta.columns@), views(spatial_filters@)),
        forall|k: int| 0 <= k < places@.len() ==> (#[trigger] places@[k]) < meta.columns@.len(),
{
    let mut places: Vec<usize> = Vec::new();
    let ghost columns = names(meta.columns@);
    let ghost filters = views(spatial_filters@);
    for f in 0..spatial_filters.len()
        invariant
            columns == names(meta.columns@),
            filters == views(spatial_filters@),
            places@ == column_places(columns, filters.take(f as int)),
            forall|k: int| 0 <= k < places@.len() ==> (#[trigger] places@[k]) < meta.columns@.len(),
    {
        let ghost before = places@;
        let ghost name = filters[f as int].geometry_column;
        assert(before + places_of(columns, name, 0) =~= before);
        for i in 0..meta.columns.len()
            invariant
                f < spatial_filters@.len(),
                columns == names(meta.columns@),
                filters == views(spatial_filters@),
                name == filters[f as int].geometry_column,
                places@ == before + places_of(columns, name, i as int),
                forall|k: int|
                    0 <= k < places@.len() ==> (#[trigger] places@[k]) < meta.columns@.len(),
        {
            let ghost now = places@;
            if meta.columns[i] == spatial_filters[f].geometry_column {
                places.push(i);
                assert(now.push(i) =~= before + places_of(columns, name, i as int).push(i));
            }
        }
        assert(filters.take(f + 1).drop_last() =~= filters.take(f as int));
    }
    assert(filters.take(filters.len() as int) =~= filters);
    places
}

proof fn lemma_places(names: Seq<Seq<char>>, name: Seq<char>, end: int, place: usize)
    requires
        0 <= end <= names.len() <= usize::MAX,
    ensures
        places_of(names, name, end).contains(place) <==> place < end && names[place as int] == name,
    decreases end,
{
    if end > 0 {
        lemma_places(names, name, end - 1, place);
        let rest = places_of(names, name, end - 1);
        let all = places_of(names, name, end);
        if names[end - 1] == name {
            assert(all[all.len() - 1] == (end - 1) as usize);
            if rest.contains(place) {
                let k = choose|k: int| 0 <= k < rest.len() && rest[k] == place;
                assert(all[k] == place);
            }
            if all.contains(place) {
                let k = choose|k: int| 0 <= k < all.len() && all[k] == place;
                if k < rest.len() {
                    assert(rest[k] == place);
                }
            }
        }
    }
}

/// A column is among the places exactly where some predicate names it.
pub proof fn law_places_name_columns(
    columns: Seq<Seq<char>>,
    filters: Seq<PredicateView>,
    place: usize,
)
    requires
        columns.len() <= usize::MAX,
    ensures
        column_places(columns, filters).contains(place) <==> exists|f: int|
            0 <= f < filters.len() && place < columns.len() && columns[place as int] == (
            #[trigger] filters[f]).geometry_column,
    decreases filters.len(),
{
    if filters.len() > 0 {
        let rest = filters.drop_last();
        let last = filters.last();
        law_places_name_columns(columns, rest, place);
        lemma_places(columns, last.geometry_column, columns.len() as int, place);
        let head = column_places(columns, rest);
        let tail = places_of(columns, last.geometry_column, columns.len() as int);
        let all = column_places(columns, filters);
        assert(all == head + tail);
        if all.contains(place) {
            let k = choose|k: int| 0 <= k < all.len() && all[k] == place;
            if k < head.len() {
                assert(head[k] == place);
                let f = choose|f: int|
                    0 <= f < rest.len() && place < columns.len() && columns[place as int] == (
                    #[trigger] rest[f]).geometry_column;
                assert(filters[f] == rest[f]);
            } else {
                assert(tail[k - head.len()] == place);
                assert(filters[filters.len() - 1] == last);
            }
        }
        if exists|f: int|
            0 <= f < filters.len() && place < columns.len() && columns[place as int] == (
            #[trigger] filters[f]).geometry_column {
            let f = choose|f: int|
                0 <= f < filters.len() && place < columns.len() && columns[place as int] == (
                #[trigger] filters[f]).geometry_column;
            if f < rest.len() {
                assert(rest[f] == filters[f]);
                let k = choose|k: int| 0 <= k < head.len() && head[k] == place;
                assert(all[k] == place);
            } else {
                let k = choose|k: int| 0 <= k < tail.len() && tail[k] == place;
                assert(all[head.len() + k] == place);
            }
        }
    }
}

} // verus!
