//! Rectangles: the bounds of a geometry, of a query and of a page.
use vstd::prelude::*;
use crate::ordinate::Ordinate;
use crate::ordinate::INFINITY_KEY;
use crate::ordinate::ordinate_of_bits;

verus! {

/// The bounds of a geometry or of a query. A side may be "not a number".
#[derive(Clone, Copy, Debug, PartialEq, Eq, Structural)]
pub struct Rect {
    pub min_x: Ordinate,
    pub min_y: Ordinate,
    pub max_x: Ordinate,
    pub max_y: Ordinate,
}

/// Bounds whose four sides are numbers.
#[derive(Clone, Copy, Debug, PartialEq, Eq, Structural)]
pub struct Extent {
    pub min_x: i64,
    pub min_y: i64,
    pub max_x: i64,
    pub max_y: i64,
}

/// The lower of two corner ordinates: the first where it is below the second, else the second.
pub open spec fn low_side(a: Ordinate, b: Ordinate) -> Ordinate {
    if a.lt(b) {
        a
    } else {
        b
    }
}

/// The other one of two corner ordinates.
pub open spec fn high_side(a: Ordinate, b: Ordinate) -> Ordinate {
    if a.lt(b) {
        b
    } else {
        a
    }
}

impl Rect {
    /// No side lies above its opposite.
    pub open spec fn wf(self) -> bool {
        &&& !self.max_x.lt(self.min_x)
        &&& !self.max_y.lt(self.min_y)
    }

    /// Every side is the ordinate of some binary64 number.
    pub open spec fn is_valid(self) -> bool {
        &&& self.min_x.is_valid()
        &&& self.min_y.is_valid()
        &&& self.max_x.is_valid()
        &&& self.max_y.is_valid()
    }

    /// All four sides are numbers.
    pub open spec fn is_numeric(self) -> bool {
        &&& self.min_x is Number
        &&& self.min_y is Number
        &&& self.max_x is Number
        &&& self.max_y is Number
    }

    /// The same bounds as numbers.
    pub open spec fn as_extent(self) -> Extent
        recommends
            self.is_numeric(),
    {
        Extent {
            min_x: self.min_x->Number_0,
            min_y: self.min_y->Number_0,
            max_x: self.max_x->Number_0,
            max_y: self.max_y->Number_0,
        }
    }

    /// Neither rectangle ends before the other begins, on either axis.
    pub open spec fn meets(self, other: Rect) -> bool {
        &&& !self.max_x.lt(other.min_x)
        &&& !self.max_y.lt(other.min_y)
        &&& !other.max_x.lt(self.min_x)
        &&& !other.max_y.lt(self.min_y)
    }

    /// No side of `other` lies beyond the same side of this rectangle.
    pub open spec fn encloses(self, other: Rect) -> bool {
        &&& !other.min_x.lt(self.min_x)
        &&& !other.min_y.lt(self.min_y)
        &&& !self.max_x.lt(other.max_x)
        &&& !self.max_y.lt(other.max_y)
    }

    /// The rectangle between two opposite corners, given in either order.
    pub fn new(x1: Ordinate, y1: Ordinate, x2: Ordinate, y2: Ordinate) -> (rect: Rect)
        ensures
            rect.min_x == low_side(x1, x2),
            rect.max_x == high_side(x1, x2),
            rect.min_y == low_side(y1, y2),
            rect.max_y == high_side(y1, y2),
            rect.wf(),
    {
        let (min_x, max_x): (Ordinate, Ordinate) = if x1.less_than(&x2) {
            (x1, x2)
        } else {
            (x2, x1)
        };
        let (min_y, max_y): (Ordinate, Ordinate) = if y1.less_than(&y2) {
            (y1, y2)
        } else {
            (y2, y1)
        };
        Rect { min_x, min_y, max_x, max_y }
    }

    /// Whether the two rectangles have a point in common, touching sides counted.
    pub fn intersects(&self, other: &Rect) -> (meet: bool)
        ensures
            meet == self.meets(*other),
    {
        if self.max_x.less_than(&other.min_x) {
            return false;
        }
        if self.max_y.less_than(&other.min_y) {
            return false;
        }
        if other.max_x.less_than(&self.min_x) {
            return false;
        }
        if other.max_y.less_than(&self.min_y) {
            return false;
        }
        true
    }

    /// The bounds as numbers, where all of them are.
    pub fn extent(&self) -> (extent: Option<Extent>)
        ensures
            extent == (if self.is_numeric() {
                Some(self.as_extent())
            } else {
                None
            }),
    {
        match (self.min_x, self.min_y, self.max_x, self.max_y) {
            (
                Ordinate::Number(min_x),
                Ordinate::Number(min_y),
                Ordinate::Number(max_x),
                Ordinate::Number(max_y),
            ) => Some(Extent { min_x, min_y, max_x, max_y }),
            _ => None,
        }
    }
}

impl Extent {
    /// No side lies above its opposite.
    pub open spec fn wf(self) -> bool {
        &&& self.min_x <= self.max_x
        &&& self.min_y <= self.max_y
    }

    /// Every side is the ordinate of some binary64 number.
    pub open spec fn is_valid(self) -> bool {
        &&& -INFINITY_KEY <= self.min_x <= INFINITY_KEY
        &&& -INFINITY_KEY <= self.min_y <= INFINITY_KEY
        &&& -INFINITY_KEY <= self.max_x <= INFINITY_KEY
        &&& -INFINITY_KEY <= self.max_y <= INFINITY_KEY
    }

    /// The point lies inside or on a side.
    pub open spec fn holds(self, x: int, y: int) -> bool {
        &&& self.min_x <= x <= self.max_x
        &&& self.min_y <= y <= self.max_y
    }

    /// `other` lies within these bounds.
    pub open spec fn covers(self, other: Extent) -> bool {
        &&& self.min_x <= other.min_x
        &&& self.min_y <= other.min_y
        &&& other.max_x <= self.max_x
        &&& other.max_y <= self.max_y
    }

    /// The two bounds have a point in common, touching sides counted.
    pub open spec fn overlaps(self, other: Extent) -> bool {
        &&& self.min_x <= other.max_x
        &&& self.min_y <= other.max_y
        &&& other.min_x <= self.max_x
        &&& other.min_y <= self.max_y
    }

    /// The same bounds as a rectangle.
    pub open spec fn as_rect(self) -> Rect {
        Rect {
            min_x: Ordinate::Number(self.min_x),
            min_y: Ordinate::Number(self.min_y),
            max_x: Ordinate::Number(self.max_x),
            max_y: Ordinate::Number(self.max_y),
        }
    }

    /// The same bounds as a rectangle.
    pub fn to_rect(&self) -> (rect: Rect)
        ensures
            rect == self.as_rect(),
            rect.is_numeric(),
            rect.as_extent() == *self,
    {
        Rect {
            min_x: Ordinate::Number(self.min_x),
            min_y: Ordinate::Number(self.min_y),
            max_x: Ordinate::Number(self.max_x),
            max_y: Ordinate::Number(self.max_y),
        }
    }
}

/// The extent of the whole plane.
pub open spec fn everywhere() -> Extent {
    Extent {
        min_x: (-INFINITY_KEY) as i64,
        min_y: (-INFINITY_KEY) as i64,
        max_x: INFINITY_KEY,
        max_y: INFINITY_KEY,
    }
}

/// The bounds that replace `inner` when `rect` is pushed.
///
/// Bounds that span the whole plane stand for "nothing pushed yet" and give way to the
/// rectangle. The upper corner then rises to the rectangle's upper corner, and the lower
/// corner falls to the rectangle's upper corner where that lies below it.
pub open spec fn pushed(inner: Extent, rect: Rect) -> Extent {
    let start = if inner == everywhere() {
        rect.as_extent()
    } else {
        inner
    };
    Extent {
        min_x: rect.max_x.lower(start.min_x),
        min_y: rect.max_y.lower(start.min_y),
        max_x: rect.max_x.raise(start.max_x),
        max_y: rect.max_y.raise(start.max_y),
    }
}

/// The bounds after pushing `rects` one after the other.
pub open spec fn overall(rects: Seq<Rect>) -> Extent
    decreases rects.len(),
{
    if rects.len() == 0 {
        everywhere()
    } else {
        pushed(overall(rects.drop_last()), rects.last())
    }
}

/// Whether `rect` can be pushed on `inner`: bounds that span the whole plane take over the
/// rectangle, so its sides must be numbers in order.
pub open spec fn can_push(inner: Extent, rect: Rect) -> bool {
    inner == everywhere() ==> rect.is_numeric() && rect.wf()
}

/// Whether `rects` can be pushed one after the other.
pub open spec fn can_push_all(rects: Seq<Rect>) -> bool {
    forall|i: int| 0 <= i < rects.len() ==> can_push(overall(rects.take(i)), #[trigger] rects[i])
}

proof fn lemma_overall_step(rects: Seq<Rect>, i: int)
    requires
        can_push_all(rects),
        0 <= i < rects.len(),
    ensures
        can_push(overall(rects.take(i)), rects[i]),
        overall(rects.take(i + 1)) == pushed(overall(rects.take(i)), rects[i]),
{
    assert(rects.take(i + 1).drop_last() =~= rects.take(i));
}

/// Bounds that grow as rectangles are pushed.
#[derive(Debug)]
pub struct OverallBounds {
    pub inner: Extent,
}

impl OverallBounds {
    /// The bounds before anything is pushed: the whole plane.
    pub fn new() -> (bounds: OverallBounds)
        ensures
            bounds.inner == everywhere(),
            bounds.inner.wf(),
    {
        OverallBounds {
            inner: Extent {
                min_x: -INFINITY_KEY,
                min_y: -INFINITY_KEY,
                max_x: INFINITY_KEY,
                max_y: INFINITY_KEY,
            },
        }
    }

    /// Takes the bounds of one more geometry into account.
    pub fn push(&mut self, rect: &Rect)
        requires
            old(self).inner.wf(),
            can_push(old(self).inner, *rect),
        ensures
            final(self).inner == pushed(old(self).inner, *rect),
            final(self).inner.wf(),
    {
        if self.inner.max_x == INFINITY_KEY && self.inner.max_y == INFINITY_KEY
            && self.inner.min_x == -INFINITY_KEY && self.inner.min_y == -INFINITY_KEY {
            if let Some(extent) = rect.extent() {
                self.inner = extent;
            }
        }
        let max_x: i64 = rect.max_x.raised(self.inner.max_x);
        let max_y: i64 = rect.max_y.raised(self.inner.max_y);
        let min_x: i64 = rect.max_x.lowered(self.inner.min_x);
        let min_y: i64 = rect.max_y.lowered(self.inner.min_y);
        self.inner = Extent { min_x, min_y, max_x, max_y };
    }

    /// Whether `rect` can be pushed.
    pub fn accepts(&self, rect: &Rect) -> (accepted: bool)
        ensures
            accepted == can_push(self.inner, *rect),
    {
        if self.inner.max_x == INFINITY_KEY && self.inner.max_y == INFINITY_KEY
            && self.inner.min_x == -INFINITY_KEY && self.inner.min_y == -INFINITY_KEY {
            rect.extent().is_some() && !rect.max_x.less_than(&rect.min_x)
                && !rect.max_y.less_than(&rect.min_y)
        } else {
            true
        }
    }

    /// Whether the bounds of a list of geometries can be pushed in order.
    pub fn accepts_all(rects: &Vec<Rect>) -> (accepted: bool)
        ensures
            accepted == can_push_all(rects@),
    {
        let mut bounds = OverallBounds::new();
        for i in 0..rects.len()
            invariant
                can_push_all(rects@.take(i as int)),
                bounds.inner == overall(rects@.take(i as int)),
                bounds.inner.wf(),
        {
            let ghost head = rects@.take(i as int);
            let ghost longer = rects@.take(i + 1);
            if !bounds.accepts(&rects[i]) {
                assert(!can_push(overall(rects@.take(i as int)), rects@[i as int]));
                return false;
            }
            proof {
                assert forall|k: int| 0 <= k < longer.len() implies can_push(
                    overall(longer.take(k)),
                    #[trigger] longer[k],
                ) by {
                    if k < i {
                        assert(longer.take(k) =~= head.take(k));
                        assert(longer[k] == head[k]);
                    } else {
                        assert(longer.take(k) =~= head);
                    }
                }
                assert(can_push_all(longer));
                lemma_overall_step(longer, i as int);
                assert(longer[i as int] == rects@[i as int]);
                assert(longer.take(i as int) =~= head);
                assert(longer.take(i + 1) =~= longer);
            }
            bounds.push(&rects[i]);
        }
        assert(rects@.take(rects@.len() as int) =~= rects@);
        true
    }

    /// The bounds of a list of geometries, pushed in order.
    pub fn of(rects: &Vec<Rect>) -> (bounds: OverallBounds)
        requires
            can_push_all(rects@),
        ensures
            bounds.inner == overall(rects@),
            bounds.inner.wf(),
    {
        let mut bounds = OverallBounds::new();
        for i in 0..rects.len()
            invariant
                can_push_all(rects@),
                bounds.inner == overall(rects@.take(i as int)),
                bounds.inner.wf(),
        {
            proof {
                lemma_overall_step(rects@, i as int);
            }
            bounds.push(&rects[i]);
        }
        assert(rects@.take(rects@.len() as int) =~= rects@);
        bounds
    }
}

/// The ordinates of a point that is given by the bit patterns of its two coordinates.
pub open spec fn point_of_bits(point: (u64, u64)) -> (Ordinate, Ordinate) {
    (ordinate_of_bits(point.0), ordinate_of_bits(point.1))
}

/// A range of ordinates, widened to take in one more.
pub open spec fn widened(range: (Ordinate, Ordinate), next: Ordinate) -> (Ordinate, Ordinate) {
    if range.1.lt(next) {
        (range.0, next)
    } else if next.lt(range.0) {
        (next, range.1)
    } else {
        range
    }
}

/// The range from the least to the greatest of `values`. It is "not a number" where the
/// first value is; a later "not a number" is passed over.
pub open spec fn range_of(values: Seq<Ordinate>) -> (Ordinate, Ordinate)
    decreases values.len(),
{
    if values.len() <= 1 {
        (values[0], values[0])
    } else {
        widened(range_of(values.drop_last()), values.last())
    }
}

/// The bounding rectangle of a non-empty list of points.
pub open spec fn bounds_of(points: Seq<(Ordinate, Ordinate)>) -> Rect {
    let x = range_of(points.map_values(|p: (Ordinate, Ordinate)| p.0));
    let y = range_of(points.map_values(|p: (Ordinate, Ordinate)| p.1));
    Rect { min_x: x.0, min_y: y.0, max_x: x.1, max_y: y.1 }
}

fn widen(range: (Ordinate, Ordinate), next: Ordinate) -> (wider: (Ordinate, Ordinate))
    ensures
        wider == widened(range, next),
{
    if range.1.less_than(&next) {
        (range.0, next)
    } else if next.less_than(&range.0) {
        (next, range.1)
    } else {
        range
    }
}

/// The least and greatest values in a range keep their order.
pub(crate) proof fn lemma_range(values: Seq<Ordinate>)
    requires
        values.len() > 0,
    ensures
        values[0] is Nan ==> range_of(values) == (Ordinate::Nan, Ordinate::Nan),
        values[0] is Number ==> {
            let range = range_of(values);
            &&& range.0 is Number
            &&& range.1 is Number
            &&& values.contains(range.0)
            &&& values.contains(range.1)
            &&& forall|i: int|
                0 <= i < values.len() ==> !(#[trigger] values[i]).lt(range.0) && !range.1.lt(
                    values[i],
                )
        },
    decreases values.len(),
{
    if values.len() > 1 {
        let rest = values.drop_last();
        lemma_range(rest);
        if values[0] is Number {
            let before = range_of(rest);
            let lo = choose|i: int| 0 <= i < rest.len() && rest[i] == before.0;
            let hi = choose|i: int| 0 <= i < rest.len() && rest[i] == before.1;
            assert(values[lo] == before.0);
            assert(values[hi] == before.1);
            assert(values[values.len() - 1] == values.last());
            let range = range_of(values);
            assert forall|i: int| 0 <= i < values.len() implies !(#[trigger] values[i]).lt(range.0)
                && !range.1.lt(values[i]) by {
                if i < values.len() - 1 {
                    assert(rest[i] == values[i]);
                }
            }
        }
    }
}

/// The bounding rectangle of a ring of points, given by the bit patterns of their
/// coordinates. An empty ring has none.
pub fn bounding_rect(ring: &Vec<(u64, u64)>) -> (rect: Option<Rect>)
    ensures
        rect == (if ring@.len() == 0 {
            None
        } else {
            Some(bounds_of(ring@.map_values(|p: (u64, u64)| point_of_bits(p))))
        }),
        rect matches Some(r) ==> r.wf() && r.is_valid(),
{
    if ring.len() == 0 {
        return None;
    }
    let ghost points = ring@.map_values(|p: (u64, u64)| point_of_bits(p));
    let ghost xs = points.map_values(|p: (Ordinate, Ordinate)| p.0);
    let ghost ys = points.map_values(|p: (Ordinate, Ordinate)| p.1);
    let first_x: Ordinate = Ordinate::from_bits(ring[0].0);
    let first_y: Ordinate = Ordinate::from_bits(ring[0].1);
    let mut x: (Ordinate, Ordinate) = (first_x, first_x);
    let mut y: (Ordinate, Ordinate) = (first_y, first_y);
    let mut i: usize = 1;
    while i < ring.len()
        invariant
            1 <= i <= ring.len(),
            points == ring@.map_values(|p: (u64, u64)| point_of_bits(p)),
            xs == points.map_values(|p: (Ordinate, Ordinate)| p.0),
            ys == points.map_values(|p: (Ordinate, Ordinate)| p.1),
            x == range_of(xs.take(i as int)),
            y == range_of(ys.take(i as int)),
            x.0.is_valid() && x.1.is_valid(),
            y.0.is_valid() && y.1.is_valid(),
        decreases ring.len() - i,
    {
        proof {
            assert(xs.take(i + 1).drop_last() =~= xs.take(i as int));
            assert(ys.take(i + 1).drop_last() =~= ys.take(i as int));
        }
        x = widen(x, Ordinate::from_bits(ring[i].0));
        y = widen(y, Ordinate::from_bits(ring[i].1));
        i += 1;
    }
    proof {
        assert(xs.take(xs.len() as int) =~= xs);
        assert(ys.take(ys.len() as int) =~= ys);
        lemma_range(xs);
        lemma_range(ys);
    }
    Some(Rect::new(x.0, y.0, x.1, y.1))
}

/// The order in which two opposite corners are given does not matter where their
/// ordinates are numbers.
pub proof fn law_corners_in_any_order(a: Ordinate, b: Ordinate)
    requires
        a is Number,
        b is Number,
    ensures
        low_side(a, b) == low_side(b, a),
        high_side(a, b) == high_side(b, a),
{
}

/// Meeting is symmetric.
pub proof fn law_meets_is_symmetric(a: Rect, b: Rect)
    ensures
        a.meets(b) == b.meets(a),
{
}

/// Two rectangles meet exactly where some point lies in both.
pub proof fn law_meets_is_a_common_point(a: Extent, b: Extent)
    requires
        a.wf(),
        b.wf(),
    ensures
        a.as_rect().meets(b.as_rect()) == a.overlaps(b),
        a.overlaps(b) <==> exists|x: int, y: int| #[trigger] a.holds(x, y) && b.holds(x, y),
{
    if a.overlaps(b) {
        let x: int = if a.min_x >= b.min_x {
            a.min_x as int
        } else {
            b.min_x as int
        };
        let y: int = if a.min_y >= b.min_y {
            a.min_y as int
        } else {
            b.min_y as int
        };
        assert(a.holds(x, y) && b.holds(x, y));
    }
}

/// The bounding rectangle of points that are numbers is the least rectangle that holds all
/// of them: each lies inside, and each side passes through one.
pub proof fn law_bounds_are_least(points: Seq<(Ordinate, Ordinate)>)
    requires
        points.len() > 0,
        forall|i: int|
            0 <= i < points.len() ==> (#[trigger] points[i]).0 is Number && points[i].1 is Number,
    ensures
        bounds_of(points).is_numeric(),
        bounds_of(points).wf(),
        forall|i: int|
            0 <= i < points.len() ==> bounds_of(points).as_extent().holds(
                (#[trigger] points[i]).0->Number_0 as int,
                points[i].1->Number_0 as int,
            ),
        exists|i: int| 0 <= i < points.len() && (#[trigger] points[i]).0 == bounds_of(points).min_x,
        exists|i: int| 0 <= i < points.len() && (#[trigger] points[i]).0 == bounds_of(points).max_x,
        exists|i: int| 0 <= i < points.len() && (#[trigger] points[i]).1 == bounds_of(points).min_y,
        exists|i: int| 0 <= i < points.len() && (#[trigger] points[i]).1 == bounds_of(points).max_y,
{
    let xs = points.map_values(|p: (Ordinate, Ordinate)| p.0);
    let ys = points.map_values(|p: (Ordinate, Ordinate)| p.1);
    assert(points[0].0 is Number && points[0].1 is Number);
    assert(xs[0] is Number && ys[0] is Number);
    lemma_range(xs);
    lemma_range(ys);
    let rect = bounds_of(points);
    assert forall|i: int| 0 <= i < points.len() implies rect.as_extent().holds(
        (#[trigger] points[i]).0->Number_0 as int,
        points[i].1->Number_0 as int,
    ) by {
        assert(xs[i] == points[i].0);
        assert(ys[i] == points[i].1);
    }
    let a = choose|i: int| 0 <= i < xs.len() && xs[i] == rect.min_x;
    let b = choose|i: int| 0 <= i < xs.len() && xs[i] == rect.max_x;
    let c = choose|i: int| 0 <= i < ys.len() && ys[i] == rect.min_y;
    let d = choose|i: int| 0 <= i < ys.len() && ys[i] == rect.max_y;
    assert(points[a].0 == rect.min_x);
    assert(points[b].0 == rect.max_x);
    assert(points[c].1 == rect.min_y);
    assert(points[d].1 == rect.max_y);
}

/// Bounds that are pushed from the bounds of geometries are bounds of binary64 numbers too.
pub proof fn law_overall_is_valid(rects: Seq<Rect>)
    requires
        can_push_all(rects),
        forall|i: int| 0 <= i < rects.len() ==> (#[trigger] rects[i]).is_valid(),
    ensures
        overall(rects).is_valid(),
    decreases rects.len(),
{
    if rects.len() > 0 {
        let rest = rects.drop_last();
        assert forall|k: int| 0 <= k < rest.len() implies can_push(
            overall(rest.take(k)),
            #[trigger] rest[k],
        ) && rest[k].is_valid() by {
            assert(rest.take(k) =~= rects.take(k));
            assert(rest[k] == rects[k]);
        }
        law_overall_is_valid(rest);
        assert(rects.take(rects.len() - 1) =~= rest);
        assert(rects[rects.len() - 1] == rects.last());
    }
}

/// Whether pushing `rects` never returns to bounds of the whole plane, which the next push
/// would discard.
pub open spec fn keeps_all(rects: Seq<Rect>) -> bool {
    forall|i: int| 1 <= i < rects.len() ==> overall(#[trigger] rects.take(i)) != everywhere()
}

proof fn lemma_keeps_prefix(rects: Seq<Rect>)
    requires
        can_push_all(rects),
        keeps_all(rects),
        rects.len() > 0,
    ensures
        can_push_all(rects.drop_last()),
        keeps_all(rects.drop_last()),
        rects[0].is_numeric(),
        rects[0].wf(),
        rects.len() == 1 ==> overall(rects) == rects[0].as_extent(),
        rects.len() > 1 ==> overall(rects.drop_last()) != everywhere(),
{
    let rest = rects.drop_last();
    assert(rects.take(0) =~= Seq::<Rect>::empty());
    assert(can_push(overall(rects.take(0)), rects[0]));
    assert(rects.take(rects.len() - 1) =~= rest);
    assert forall|k: int| 0 <= k < rest.len() implies can_push(
        overall(rest.take(k)),
        #[trigger] rest[k],
    ) by {
        assert(rest.take(k) =~= rects.take(k));
        assert(rest[k] == rects[k]);
    }
    assert forall|k: int| 1 <= k < rest.len() implies overall(#[trigger] rest.take(k))
        != everywhere() by {
        assert(rest.take(k) =~= rects.take(k));
    }
    if rects.len() == 1 {
        assert(rest =~= Seq::<Rect>::empty());
    }
}

/// Every upper side lies between the overall bounds' sides, and the first rectangle is
/// covered.
pub proof fn law_overall_reaches(rects: Seq<Rect>, i: int)
    requires
        can_push_all(rects),
        keeps_all(rects),
        0 <= i < rects.len(),
    ensures
        overall(rects).wf(),
        overall(rects).covers(rects[0].as_extent()),
        rects[i].max_x matches Ordinate::Number(x) ==> overall(rects).min_x <= x <= overall(
            rects,
        ).max_x,
        rects[i].max_y matches Ordinate::Number(y) ==> overall(rects).min_y <= y <= overall(
            rects,
        ).max_y,
    decreases rects.len(),
{
    lemma_keeps_prefix(rects);
    let rest = rects.drop_last();
    if rects.len() > 1 {
        assert(rest[0] == rects[0]);
        law_overall_reaches(rest, 0);
        if i < rest.len() {
            assert(rest[i] == rects[i]);
            law_overall_reaches(rest, i);
        }
    }
}

/// Some rectangle's upper side is the number `x`.
pub open spec fn has_max_x(rects: Seq<Rect>, x: int) -> bool {
    exists|i: int|
        0 <= i < rects.len() && (#[trigger] rects[i]).max_x is Number && rects[i].max_x->Number_0
            == x
}

/// Some rectangle's upper side is the number `y`.
pub open spec fn has_max_y(rects: Seq<Rect>, y: int) -> bool {
    exists|i: int|
        0 <= i < rects.len() && (#[trigger] rects[i]).max_y is Number && rects[i].max_y->Number_0
            == y
}

/// Each lower side of the overall bounds is the first rectangle's lower side or the upper
/// side of some rectangle.
pub proof fn law_overall_lower_corner(rects: Seq<Rect>)
    requires
        can_push_all(rects),
        keeps_all(rects),
        rects.len() > 0,
    ensures
        overall(rects).min_x == rects[0].as_extent().min_x || has_max_x(
            rects,
            overall(rects).min_x as int,
        ),
        overall(rects).min_y == rects[0].as_extent().min_y || has_max_y(
            rects,
            overall(rects).min_y as int,
        ),
    decreases rects.len(),
{
    lemma_keeps_prefix(rects);
    let rest = rects.drop_last();
    if rects.len() > 1 {
        assert(rest[0] == rects[0]);
        law_overall_lower_corner(rest);
        let before = overall(rest);
        let now = overall(rects);
        assert(rects[rects.len() - 1] == rects.last());
        if now.min_x == before.min_x && has_max_x(rest, before.min_x as int) {
            let i = choose|i: int|
                0 <= i < rest.len() && (#[trigger] rest[i]).max_x is Number
                    && rest[i].max_x->Number_0 == before.min_x as int;
            assert(rects[i] == rest[i]);
        }
        if now.min_y == before.min_y && has_max_y(rest, before.min_y as int) {
            let i = choose|i: int|
                0 <= i < rest.len() && (#[trigger] rest[i]).max_y is Number
                    && rest[i].max_y->Number_0 == before.min_y as int;
            assert(rects[i] == rest[i]);
        }
    }
}

/// The overall bounds cover a pushed rectangle exactly where neither of its lower sides is
/// below both the first rectangle's lower side and every rectangle's upper side.
pub proof fn law_overall_covers(rects: Seq<Rect>, i: int)
    requires
        can_push_all(rects),
        keeps_all(rects),
        0 <= i < rects.len(),
        rects[i].is_numeric(),
    ensures
        overall(rects).covers(rects[i].as_extent()) <==> {
            let own = rects[i].as_extent();
            let first = rects[0].as_extent();
            &&& own.min_x >= first.min_x || exists|x: int| own.min_x >= x && has_max_x(rects, x)
            &&& own.min_y >= first.min_y || exists|y: int| own.min_y >= y && has_max_y(rects, y)
        },
{
    law_overall_reaches(rects, i);
    law_overall_lower_corner(rects);
    let own = rects[i].as_extent();
    if exists|x: int| own.min_x >= x && has_max_x(rects, x) {
        let x = choose|x: int| own.min_x >= x && has_max_x(rects, x);
        let k = choose|k: int|
            0 <= k < rects.len() && (#[trigger] rects[k]).max_x is Number && rects[k].max_x->Number_0
                == x;
        law_overall_reaches(rects, k);
    }
    if exists|y: int| own.min_y >= y && has_max_y(rects, y) {
        let y = choose|y: int| own.min_y >= y && has_max_y(rects, y);
        let k = choose|k: int|
            0 <= k < rects.len() && (#[trigger] rects[k]).max_y is Number && rects[k].max_y->Number_0
                == y;
        law_overall_reaches(rects, k);
    }
}

} // verus!
