//! The calls into other crates, each with the contract that the rest of the library rests on.
use datafusion::arrow::array::LargeBinaryArray;
use datafusion::datasource::listing::ListingTable;
use datafusion_datasource_parquet::ParquetAccessPlan;
use geo::BoundingRect;
use geo_traits::GeometryCollectionTrait;
use geo_traits::GeometryTrait;
use geo_traits::GeometryType;
use geo_traits::to_geo::ToGeoGeometry;
use geoarrow_array::GeoArrowArrayAccessor;
use geoarrow_array::array::LargeWkbArray;
use parquet::arrow::arrow_reader::RowSelection;
use parquet::arrow::arrow_reader::RowSelector;
use rstar::primitives::GeomWithData;
use rstar::primitives::Rectangle;
use rstar::RTree;
use rstar::AABB;
use vstd::multiset::Multiset;
use vstd::prelude::*;
use wkt::TryFromWkt;
use crate::geometry::points_are_plain;
use crate::ordinate::Ordinate;
use crate::page::PageBounds;
use crate::page::PageInfo;
use crate::predicate::opens_collection;
use crate::rect::Extent;
use crate::rect::point_of_bits;
use crate::selection::GroupAccess;
use crate::selection::Run;
use crate::selection::rows_of;
use crate::selection::runs_fit;

verus! {

/// `datafusion`'s table over a listing of files. The library only carries it.
#[verifier::external_type_specification]
#[verifier::external_body]
pub struct ExListingTable(ListingTable);

/// `parquet`'s selection of rows within a row group.
#[verifier::external_type_specification]
#[verifier::external_body]
pub struct ExRowSelection(RowSelection);

/// `datafusion`'s plan of what to read of a file's row groups.
#[verifier::external_type_specification]
#[verifier::external_body]
pub struct ExParquetAccessPlan(ParquetAccessPlan);

/// The exterior ring of the polygon that `geo::Polygon::try_from_wkt_str` of the `wkt` crate
/// reads from a text; `None` where it reads none.
pub uninterp spec fn wkt_exterior(text: Seq<char>) -> Option<Seq<(Ordinate, Ordinate)>>;

/// Calls `geo::Polygon::try_from_wkt_str` and hands out the bit patterns of the coordinates
/// of the polygon's exterior ring, in order.
///
/// Claimed: whether the text is read as a polygon, and the points of its exterior ring,
/// depend on the text alone. Which bit pattern stands for "not a number" is left open, and
/// so is which texts are polygons. The parser recurses into geometry collections without a
/// bound, and one that is nested too deep overflows the stack, so a text that may open a
/// collection must not be handed over; none of those is a polygon.
#[verifier::external_body]
pub(crate) fn read_wkt_exterior(text: &String) -> (ring: Option<Vec<(u64, u64)>>)
    requires
        !opens_collection(text@),
    ensures
        ring is Some <==> wkt_exterior(text@) is Some,
        ring matches Some(points) ==> wkt_exterior(text@) == Some(
            points@.map_values(|p: (u64, u64)| point_of_bits(p)),
        ),
{
    let polygon: Result<geo::Polygon, _> = geo::Polygon::try_from_wkt_str(text);
    match polygon {
        Ok(read) => Some(
            read.exterior().coords().map(|c| (c.x.to_bits(), c.y.to_bits())).collect(),
        ),
        Err(_) => None,
    }
}

/// The members of the geometry collection that a value in well-known binary is; empty for
/// any other value.
pub uninterp spec fn wkb_members(bytes: Seq<u8>) -> Seq<Seq<u8>>;

/// Calls `LargeWkbArray::value` on an array of one value and hands out the bytes of the
/// members of the geometry collection that it reads.
///
/// Claimed: the members depend on the bytes alone, and each is shorter than the value, being
/// a part of it that comes after its header. Values that are no collection, or that cannot
/// be read, have none.
#[verifier::external_body]
pub(crate) fn read_wkb_members(bytes: &Vec<u8>) -> (members: Vec<Vec<u8>>)
    ensures
        members@.map_values(|m: Vec<u8>| m@) == wkb_members(bytes@),
        forall|i: int| 0 <= i < members@.len() ==> (#[trigger] members@[i])@.len() < bytes@.len(),
{
    let values = LargeBinaryArray::from_vec(vec![bytes.as_slice()]);
    let array = LargeWkbArray::new(values, Default::default());
    match array.value(0) {
        Ok(geometry) => match geometry.as_type() {
            GeometryType::GeometryCollection(collection) => collection.geometries().map(
                |member| member.buf().to_vec(),
            ).collect(),
            _ => Vec::new(),
        },
        Err(_) => Vec::new(),
    }
}

/// The lower and the upper corner of the bounding rectangle of the geometry that a value in
/// well-known binary is; `None` where it cannot be read or has no bounds.
pub uninterp spec fn wkb_bounds(bytes: Seq<u8>) -> Option<
    ((Ordinate, Ordinate), (Ordinate, Ordinate)),
>;

/// Calls `LargeWkbArray::value` on an array of one value, `try_to_geometry` on what it reads
/// and `bounding_rect` on that geometry, and hands out the bit patterns of the rectangle's
/// corners. The array's offsets hold a value of any length.
///
/// Claimed: whether there is a rectangle, and its corners, depend on the bytes alone. Which
/// bit pattern stands for "not a number" is left open. `try_to_geometry` panics on a
/// multipoint whose last point is marked as carrying a spatial reference, for which the reader
/// has counted no bytes, so no such multipoint may be in the value.
#[verifier::external_body]
pub(crate) fn read_wkb_bounds(bytes: &Vec<u8>) -> (bounds: Option<((u64, u64), (u64, u64))>)
    requires
        points_are_plain(bytes@),
    ensures
        bounds is Some <==> wkb_bounds(bytes@) is Some,
        bounds matches Some(corners) ==> wkb_bounds(bytes@) == Some(
            (point_of_bits(corners.0), point_of_bits(corners.1)),
        ),
{
    let values = LargeBinaryArray::from_vec(vec![bytes.as_slice()]);
    let array = LargeWkbArray::new(values, Default::default());
    let rect = array.value(0).ok()?.try_to_geometry()?.bounding_rect()?;
    let (low, high) = (rect.min(), rect.max());
    Some(((low.x.to_bits(), low.y.to_bits()), (high.x.to_bits(), high.y.to_bits())))
}

/// The rows that a selection covers; a row is marked where it is read.
pub uninterp spec fn selection_rows(selection: &RowSelection) -> Seq<bool>;

/// Calls `RowSelection::from` on one `RowSelector` for each run.
///
/// Claimed: the selection covers the rows of the runs in order. It joins neighbouring runs
/// that are treated alike, and panics where their rows cannot be counted in a `usize`.
#[verifier::external_body]
pub(crate) fn select_rows(runs: Vec<Run>) -> (selection: RowSelection)
    requires
        runs_fit(runs@),
    ensures
        selection_rows(&selection) == rows_of(runs@),
{
    let selectors: Vec<RowSelector> = runs
        .iter()
        .map(|run| RowSelector { row_count: run.row_count, skip: run.skip })
        .collect();
    RowSelection::from(selectors)
}

/// What a plan reads of each row group, in order.
pub uninterp spec fn plan_groups(plan: &ParquetAccessPlan) -> Seq<GroupAccess>;

/// `ParquetAccessPlan::new_all`: a plan that reads every row of `row_group_count` row groups.
pub assume_specification[ ParquetAccessPlan::new_all ](row_group_count: usize) -> (plan:
    ParquetAccessPlan)
    ensures
        plan_groups(&plan) == Seq::new(row_group_count as nat, |i: int| GroupAccess::Scan),
;

/// `ParquetAccessPlan::skip`: nothing is read of row group `idx` any more. It panics where
/// the plan has no such row group.
pub assume_specification[ ParquetAccessPlan::skip ](plan: &mut ParquetAccessPlan, idx: usize)
    requires
        idx < plan_groups(old(plan)).len(),
    ensures
        plan_groups(final(plan)) == plan_groups(old(plan)).update(idx as int, GroupAccess::Skip),
;

/// `ParquetAccessPlan::scan_selection`: of row group `idx`, which was read whole or not at
/// all, only the selected rows are read from now on, or still nothing. It panics where the
/// plan has no such row group.
pub assume_specification[ ParquetAccessPlan::scan_selection ](
    plan: &mut ParquetAccessPlan,
    idx: usize,
    selection: RowSelection,
)
    requires
        idx < plan_groups(old(plan)).len(),
        !(plan_groups(old(plan))[idx as int] is Selection),
    ensures
        plan_groups(old(plan))[idx as int] is Skip ==> plan_groups(final(plan)) == plan_groups(
            old(plan),
        ),
        plan_groups(old(plan))[idx as int] is Scan ==> plan_groups(final(plan)) == plan_groups(
            old(plan),
        ).update(idx as int, GroupAccess::Selection(selection_rows(&selection))),
;

/// `rstar`'s tree over the bounds of pages.
#[verifier::external_body]
pub struct PageTree {
    tree: RTree<GeomWithData<Rectangle<[i64; 2]>, PageInfo>>,
}

/// The pages that a tree holds.
pub uninterp spec fn tree_pages(tree: &PageTree) -> Multiset<PageBounds>;

/// Calls `RTree::bulk_load` on a rectangle for each page.
///
/// Claimed: the tree holds these pages, each as often as it is given. The sides must be in
/// order, because the rectangle would put them in order.
#[verifier::external_body]
pub(crate) fn load_tree(pages: &Vec<PageBounds>) -> (tree: PageTree)
    requires
        forall|i: int| 0 <= i < pages@.len() ==> (#[trigger] pages@[i]).bounds.wf(),
    ensures
        tree_pages(&tree) == pages@.to_multiset(),
{
    let leaves = pages.iter().map(|page| {
        let low = [page.bounds.min_x, page.bounds.min_y];
        let high = [page.bounds.max_x, page.bounds.max_y];
        GeomWithData::new(Rectangle::from_corners(low, high), page.data)
    });
    PageTree { tree: RTree::bulk_load(leaves.collect()) }
}

/// Calls `RTree::locate_in_envelope_intersecting` with the query as the envelope.
///
/// Claimed: it hands out the pages of the tree whose bounds overlap the query, touching
/// sides counted, each as often as the tree holds it. Their order is left open.
#[verifier::external_body]
pub(crate) fn locate_pages(tree: &PageTree, query: &Extent) -> (found: Vec<PageBounds>)
    requires
        query.wf(),
    ensures
        found@.to_multiset() == tree_pages(tree).filter(
            |page: PageBounds| page.bounds.overlaps(*query),
        ),
{
    let envelope = AABB::from_corners([query.min_x, query.min_y], [query.max_x, query.max_y]);
    tree.tree.locate_in_envelope_intersecting(&envelope).map(|leaf| {
        let ([min_x, min_y], [max_x, max_y]) = (leaf.geom().lower(), leaf.geom().upper());
        PageBounds { bounds: Extent { min_x, min_y, max_x, max_y }, data: leaf.data }
    }).collect()
}

} // verus!
