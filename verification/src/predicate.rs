//! Spatial predicates in the filters of a query.
use vstd::prelude::*;
use crate::outside::read_wkt_exterior;
use crate::outside::wkt_exterior;
use crate::rect::Rect;
use crate::rect::bounding_rect;
use crate::rect::bounds_of;
use crate::rect::point_of_bits;

verus! {

/// The parts of a filter expression that decide whether it is a spatial predicate.
#[derive(Debug)]
pub enum FilterExpr {
    /// `<expr> IS TRUE`
    IsTrue(Box<FilterExpr>),
    /// A call of a scalar function.
    ScalarFunction(ScalarCall),
    /// A literal, as it is displayed.
    Literal(String),
    /// A column, by its name.
    Column(String),
    /// Anything else.
    Other,
}

/// A call of a scalar function.
#[derive(Debug)]
pub struct ScalarCall {
    pub name: String,
    pub args: Vec<FilterExpr>,
}

/// A spatial predicate that was extracted from a filter expression: the bounds of the query
/// polygon and the name of the geometry column.
#[derive(Debug, Clone)]
pub struct SpatialPredicate {
    pub query_bounds: Rect,
    pub geometry_column: String,
}

/// A spatial predicate.
pub struct PredicateView {
    pub query_bounds: Rect,
    pub geometry_column: Seq<char>,
}

impl View for SpatialPredicate {
    type V = PredicateView;

    open spec fn view(&self) -> PredicateView {
        PredicateView {
            query_bounds: self.query_bounds,
            geometry_column: self.geometry_column@,
        }
    }
}

/// Why the query polygon of a spatial predicate has no bounds.
#[derive(Clone, Copy, Debug, PartialEq, Eq, Structural)]
pub enum QueryError {
    /// The text is not a polygon in well-known text.
    NotAPolygon,
    /// The polygon has no points.
    EmptyPolygon,
}

/// The polygon text and the column name of an expression of the form
/// `st_intersects(<text>, <column>) IS TRUE`.
pub open spec fn intersects_call(expr: FilterExpr) -> Option<(Seq<char>, Seq<char>)> {
    match expr {
        FilterExpr::IsTrue(inner) => match *inner {
            FilterExpr::ScalarFunction(call) => if call.name@ == "st_intersects"@
                && call.args@.len() == 2 && call.args@[0] is Literal && call.args@[1] is Column {
                Some((call.args@[0]->Literal_0@, call.args@[1]->Column_0@))
            } else {
                None
            },
            _ => None,
        },
        _ => None,
    }
}

/// Whether well-known text skips a character between words.
pub open spec fn is_blank(c: char) -> bool {
    c == ' ' || c == '\n' || c == '\r' || c == '\t'
}

/// Whether the first word of a text begins as `GEOMETRYCOLLECTION` does.
pub open spec fn opens_collection(text: Seq<char>) -> bool {
    exists|i: int|
        {
            &&& 0 <= i < text.len()
            &&& #[trigger] text[i] == 'G' || text[i] == 'g'
            &&& forall|k: int| 0 <= k < i ==> is_blank(#[trigger] text[k])
        }
}

/// What is wrong with the text of a query polygon. A geometry collection is no polygon.
pub open spec fn text_error(text: Seq<char>) -> Option<QueryError> {
    if opens_collection(text) {
        Some(QueryError::NotAPolygon)
    } else {
        match wkt_exterior(text) {
            None => Some(QueryError::NotAPolygon),
            Some(ring) => if ring.len() == 0 {
                Some(QueryError::EmptyPolygon)
            } else {
                None
            },
        }
    }
}

/// What is wrong with the query polygon of an expression, where it is a spatial predicate.
pub open spec fn expr_error(expr: FilterExpr) -> Option<QueryError> {
    match intersects_call(expr) {
        Some(call) => text_error(call.0),
        None => None,
    }
}

/// The spatial predicate that an expression is; `None` where it is none.
pub open spec fn predicate_of(expr: FilterExpr) -> Option<PredicateView> {
    match intersects_call(expr) {
        Some(call) => Some(
            PredicateView {
                query_bounds: bounds_of(wkt_exterior(call.0)->Some_0),
                geometry_column: call.1,
            },
        ),
        None => None,
    }
}

/// The spatial predicates among `filters`, in order.
pub open spec fn predicates_of(filters: Seq<FilterExpr>) -> Seq<PredicateView>
    decreases filters.len(),
{
    if filters.len() == 0 {
        Seq::empty()
    } else {
        let rest = predicates_of(filters.drop_last());
        match predicate_of(filters.last()) {
            Some(predicate) => rest.push(predicate),
            None => rest,
        }
    }
}

/// Whether every spatial predicate among `filters` has a query polygon with points.
pub open spec fn all_readable(filters: Seq<FilterExpr>) -> bool {
    forall|i: int| 0 <= i < filters.len() ==> expr_error(#[trigger] filters[i]) is None
}

/// Whether `error` is what is wrong with the first of `filters` that is wrong.
pub open spec fn is_first_error(filters: Seq<FilterExpr>, error: QueryError) -> bool {
    exists|i: int|
        {
            &&& 0 <= i < filters.len()
            &&& expr_error(#[trigger] filters[i]) == Some(error)
            &&& all_readable(filters.take(i))
        }
}

/// The views of a list of predicates.
pub open spec fn views(predicates: Seq<SpatialPredicate>) -> Seq<PredicateView> {
    predicates.map_values(|p: SpatialPredicate| p@)
}

/// The polygon text and the column name of a spatial predicate.
fn match_intersects_call(expr: &FilterExpr) -> (parts: Option<(&String, &String)>)
    ensures
        parts is Some <==> intersects_call(*expr) is Some,
        parts matches Some(p) ==> intersects_call(*expr) == Some((p.0@, p.1@)),
{
    let name: String = "st_intersects".to_owned();
    if let FilterExpr::IsTrue(inner) = expr {
        if let FilterExpr::ScalarFunction(call) = &**inner {
            if call.name == name && call.args.len() == 2 {
                if let FilterExpr::Literal(text) = &call.args[0] {
                    if let FilterExpr::Column(column) = &call.args[1] {
                        return Some((text, column));
                    }
                }
            }
        }
    }
    None
}

/// Tells whether the first word of a text begins as `GEOMETRYCOLLECTION` does.
fn begins_collection(text: &String) -> (opens: bool)
    ensures
        opens == opens_collection(text@),
{
    for c in it: text.as_str().chars()
        invariant
            it.seq() == text@,
            forall|k: int| 0 <= k < it.index() ==> is_blank(#[trigger] text@[k]),
    {
        assert(c == text@[it.index() as int]);
        if c == 'G' || c == 'g' {
            return true;
        }
        if !(c == ' ' || c == '\n' || c == '\r' || c == '\t') {
            return false;
        }
    }
    false
}

/// Tells what is wrong with the query polygon of an expression.
fn check_expr(expr: &FilterExpr) -> (error: Option<QueryError>)
    ensures
        error == expr_error(*expr),
{
    match match_intersects_call(expr) {
        Some(parts) => if begins_collection(parts.0) {
            Some(QueryError::NotAPolygon)
        } else {
            match read_wkt_exterior(parts.0) {
                Some(ring) => if ring.len() == 0 {
                    Some(QueryError::EmptyPolygon)
                } else {
                    None
                },
                None => Some(QueryError::NotAPolygon),
            }
        },
        None => None,
    }
}

impl SpatialPredicate {
    /// The predicate for a query polygon with the given exterior ring, as the bit patterns
    /// of its coordinates, on the given column. A ring without points makes none.
    pub fn from_exterior(ring: &Vec<(u64, u64)>, column: &String) -> (predicate: Option<
        SpatialPredicate,
    >)
        ensures
            predicate is Some <==> ring@.len() > 0,
            predicate matches Some(p) ==> p@ == (PredicateView {
                query_bounds: bounds_of(ring@.map_values(|b: (u64, u64)| point_of_bits(b))),
                geometry_column: column@,
            }),
            predicate matches Some(p) ==> p.query_bounds.wf() && p.query_bounds.is_valid(),
    {
        match bounding_rect(ring) {
            Some(query_bounds) => Some(
                SpatialPredicate { query_bounds, geometry_column: column.clone() },
            ),
            None => None,
        }
    }

    /// Extracts a spatial predicate from an expression of the form
    /// `st_intersects(<text>, <column>) IS TRUE`; any other expression gives `None`.
    pub fn try_from_expr(expr: &FilterExpr) -> (predicate: Option<SpatialPredicate>)
        requires
            expr_error(*expr) is None,
        ensures
            predicate is Some <==> predicate_of(*expr) is Some,
            predicate matches Some(p) ==> predicate_of(*expr) == Some(p@),
            predicate matches Some(p) ==> p.query_bounds.wf() && p.query_bounds.is_valid(),
    {
        match match_intersects_call(expr) {
            Some(parts) => match read_wkt_exterior(parts.0) {
                Some(ring) => SpatialPredicate::from_exterior(&ring, parts.1),
                None => None,
            },
            None => None,
        }
    }
}

/// Extracts the spatial predicates among filter expressions, in order.
pub fn spatial_predicates(filters: &Vec<FilterExpr>) -> (predicates: Vec<SpatialPredicate>)
    requires
        all_readable(filters@),
    ensures
        views(predicates@) == predicates_of(filters@),
        forall|i: int|
            0 <= i < predicates@.len() ==> (#[trigger] predicates@[i]).query_bounds.wf()
                && predicates@[i].query_bounds.is_valid(),
{
    let mut predicates: Vec<SpatialPredicate> = Vec::new();
    for i in 0..filters.len()
        invariant
            all_readable(filters@),
            views(predicates@) == predicates_of(filters@.take(i as int)),
            forall|k: int|
                0 <= k < predicates@.len() ==> (#[trigger] predicates@[k]).query_bounds.wf()
                    && predicates@[k].query_bounds.is_valid(),
    {
        let ghost before = predicates@;
        proof {
            assert(filters@.take(i + 1).drop_last() =~= filters@.take(i as int));
            assert(expr_error(filters@[i as int]) is None);
        }
        if let Some(predicate) = SpatialPredicate::try_from_expr(&filters[i]) {
            predicates.push(predicate);
            assert(views(predicates@) =~= views(before).push(predicate@));
        }
    }
    assert(filters@.take(filters@.len() as int) =~= filters@);
    predicates
}

/// Checks that every spatial predicate among filter expressions has a query polygon with
/// points, and tells what is wrong with the first that has none.
pub fn check_filters(filters: &Vec<FilterExpr>) -> (checked: Result<(), QueryError>)
    ensures
        checked is Ok <==> all_readable(filters@),
        checked matches Err(error) ==> is_first_error(filters@, error),
{
    for i in 0..filters.len()
        invariant
            all_readable(filters@.take(i as int)),
    {
        if let Some(error) = check_expr(&filters[i]) {
            proof {
                assert(expr_error(filters@[i as int]) == Some(error));
            }
            return Err(error);
        }
        assert forall|k: int| 0 <= k < i + 1 implies expr_error(
            #[trigger] filters@.take(i + 1)[k],
        ) is None by {
            if k < i {
                assert(filters@.take(i as int)[k] == filters@[k]);
            }
        }
    }
    assert(filters@.take(filters@.len() as int) =~= filters@);
    Ok(())
}

/// How a scan proceeds.
#[derive(Debug)]
pub enum ScanStep {
    /// Nothing can be pruned: the inner table scans.
    Inner,
    /// Each file is read as planned for these predicates, of which there is at least one.
    Pruned(Vec<SpatialPredicate>),
}

impl ScanStep {
    /// Whether the step is the one for the given predicates.
    pub open spec fn follows(self, predicates: Seq<PredicateView>) -> bool {
        match self {
            ScanStep::Inner => predicates.len() == 0,
            ScanStep::Pruned(kept) => {
                &&& predicates.len() > 0
                &&& views(kept@) == predicates
                &&& forall|i: int| 0 <= i < kept@.len() ==> (#[trigger] kept@[i]).query_bounds.wf()
                    && kept@[i].query_bounds.is_valid()
            },
        }
    }
}

/// Decides how a scan with the given predicates proceeds.
pub fn scan_step(predicates: Vec<SpatialPredicate>) -> (step: ScanStep)
    requires
        forall|i: int|
            0 <= i < predicates@.len() ==> (#[trigger] predicates@[i]).query_bounds.wf()
                && predicates@[i].query_bounds.is_valid(),
    ensures
        step.follows(views(predicates@)),
{
    if predicates.len() == 0 {
        ScanStep::Inner
    } else {
        ScanStep::Pruned(predicates)
    }
}

/// How far a table applies a filter by itself.
#[derive(Clone, Copy, Debug, PartialEq, Eq, Structural)]
pub enum FilterPushDown {
    /// Not at all.
    Unsupported,
    /// Rows that do not pass may remain, so the filter is applied again.
    Inexact,
    /// Only rows that pass remain.
    Exact,
}

/// Every filter is applied inexactly: pruning leaves out only what it can tell from bounds.
pub fn inexact_pushdown(count: usize) -> (support: Vec<FilterPushDown>)
    ensures
        support@ == Seq::new(count as nat, |i: int| FilterPushDown::Inexact),
{
    let mut support: Vec<FilterPushDown> = Vec::new();
    for i in 0..count
        invariant
            support@ == Seq::new(i as nat, |k: int| FilterPushDown::Inexact),
    {
        support.push(FilterPushDown::Inexact);
        assert(support@ =~= Seq::new((i + 1) as nat, |k: int| FilterPushDown::Inexact));
    }
    support
}

/// The predicates of two lists of filters, one after the other, are the predicates of the
/// first list and then those of the second: none is lost, added or moved.
pub proof fn law_predicates_of_both(first: Seq<FilterExpr>, second: Seq<FilterExpr>)
    ensures
        predicates_of(first + second) == predicates_of(first) + predicates_of(second),
    decreases second.len(),
{
    if second.len() == 0 {
        assert(first + second =~= first);
        assert(predicates_of(first) + predicates_of(second) =~= predicates_of(first));
    } else {
        law_predicates_of_both(first, second.drop_last());
        assert((first + second).drop_last() =~= first + second.drop_last());
        assert((first + second).last() == second.last());
        assert(predicates_of(first + second) =~= predicates_of(first) + predicates_of(second));
    }
}

/// There is no spatial predicate among filters exactly where none of them has the form of one.
pub proof fn law_no_predicate(filters: Seq<FilterExpr>)
    ensures
        predicates_of(filters).len() == 0 <==> forall|i: int|
            0 <= i < filters.len() ==> intersects_call(#[trigger] filters[i]) is None,
    decreases filters.len(),
{
    if filters.len() > 0 {
        let rest = filters.drop_last();
        law_no_predicate(rest);
        assert(forall|i: int| 0 <= i < rest.len() ==> #[trigger] rest[i] == filters[i]);
        if intersects_call(filters.last()) is None {
            assert forall|i: int|
                predicates_of(rest).len() == 0 && 0 <= i < filters.len() implies intersects_call(
                #[trigger] filters[i],
            ) is None by {
                if i < rest.len() {
                    assert(rest[i] == filters[i]);
                }
            }
        } else {
            assert(filters[filters.len() - 1] == filters.last());
        }
    }
}

} // verus!
