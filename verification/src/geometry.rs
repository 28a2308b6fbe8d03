//! Geometries as a column stores them, in well-known binary, and their bounds.
use vstd::prelude::*;
use crate::ordinate::Ordinate;
use crate::outside::read_wkb_bounds;
use crate::outside::read_wkb_members;
use crate::outside::wkb_bounds;
use crate::outside::wkb_members;
use crate::rect::Rect;

verus! {

/// The four bytes from `at` on as a number, in the byte order that the first byte names.
pub open spec fn word(bytes: Seq<u8>, at: int) -> nat {
    if bytes[0] == 0 {
        (bytes[at] * 0x100_0000 + bytes[at + 1] * 0x1_0000 + bytes[at + 2] * 0x100 + bytes[at
            + 3]) as nat
    } else {
        (bytes[at] + bytes[at + 1] * 0x100 + bytes[at + 2] * 0x1_0000 + bytes[at + 3]
            * 0x100_0000) as nat
    }
}

/// Whether a geometry's type code says that a spatial reference follows it.
pub open spec fn is_tagged(code: nat) -> bool {
    (code / 0x2000_0000) % 2 == 1
}

/// The number of ordinates in each coordinate of a geometry, by its type code.
pub open spec fn dimensions(code: nat) -> nat {
    let has_z = (code / 0x8000_0000) % 2 == 1;
    let has_m = (code / 0x4000_0000) % 2 == 1;
    if has_z && has_m {
        4
    } else if has_z || has_m {
        3
    } else if code / 1000 == 1 || code / 1000 == 2 {
        3
    } else if code / 1000 == 3 {
        4
    } else {
        2
    }
}

/// The place at which the points of a multipoint begin: after its byte order, type code,
/// spatial reference and count.
pub open spec fn points_start(bytes: Seq<u8>) -> int {
    if is_tagged(word(bytes, 1)) {
        13
    } else {
        9
    }
}

/// The number of bytes that a multipoint counts for each point.
pub open spec fn point_size(bytes: Seq<u8>) -> int {
    5 + 8 * (dimensions(word(bytes, 1)) as int)
}

/// The place at which the last point of a multipoint begins.
pub open spec fn last_point(bytes: Seq<u8>) -> int {
    points_start(bytes) + (word(bytes, points_start(bytes) - 4) - 1) * point_size(bytes)
}

/// Whether a value is a multipoint whose last point is marked as carrying a spatial
/// reference. The point would then end beyond the multipoint.
pub open spec fn ends_in_tagged_point(bytes: Seq<u8>) -> bool {
    &&& bytes.len() >= 9
    &&& word(bytes, 1) % 8 == 4
    &&& bytes.len() >= points_start(bytes)
    &&& word(bytes, points_start(bytes) - 4) > 0
    &&& bytes.len() >= last_point(bytes) + point_size(bytes)
    &&& is_tagged(word(bytes, last_point(bytes) + 1))
}

/// Whether neither a value nor, where it is a collection, any of its members ends in a point
/// that is marked as carrying a spatial reference.
pub open spec fn points_are_plain(bytes: Seq<u8>) -> bool
    decreases bytes.len(),
{
    &&& !ends_in_tagged_point(bytes)
    &&& forall|i: int|
        0 <= i < wkb_members(bytes).len() && (#[trigger] wkb_members(bytes)[i]).len() < bytes.len()
            ==> points_are_plain(wkb_members(bytes)[i])
}

/// The bounds of the geometry that a value is; `None` where it cannot be read or has none.
pub open spec fn value_rect(bytes: Seq<u8>) -> Option<Rect> {
    if points_are_plain(bytes) {
        match wkb_bounds(bytes) {
            Some(corners) => Some(
                Rect {
                    min_x: corners.0.0,
                    min_y: corners.0.1,
                    max_x: corners.1.0,
                    max_y: corners.1.1,
                },
            ),
            None => None,
        }
    } else {
        None
    }
}

/// Whether every value is a geometry with bounds.
pub open spec fn all_have_rects(values: Seq<Vec<u8>>) -> bool {
    forall|i: int| 0 <= i < values.len() ==> value_rect((#[trigger] values[i])@) is Some
}

/// The bounds of the geometries that the values are, in order.
pub open spec fn rects_of(values: Seq<Vec<u8>>) -> Seq<Rect> {
    values.map_values(|value: Vec<u8>| value_rect(value@)->Some_0)
}

fn read_word(bytes: &Vec<u8>, at: usize) -> (number: u64)
    requires
        at + 4 <= bytes@.len(),
    ensures
        number == word(bytes@, at as int),
        number <= u32::MAX,
{
    let length: usize = bytes.len();
    assert(at + 4 <= length);
    let a: u64 = bytes[at] as u64;
    let b: u64 = bytes[at + 1] as u64;
    let c: u64 = bytes[at + 2] as u64;
    let d: u64 = bytes[at + 3] as u64;
    if bytes[0] == 0 {
        a * 0x100_0000 + b * 0x1_0000 + c * 0x100 + d
    } else {
        a + b * 0x100 + c * 0x1_0000 + d * 0x100_0000
    }
}

fn count_dimensions(code: u64) -> (count: u64)
    ensures
        count == dimensions(code as nat),
        2 <= count <= 4,
{
    let has_z: bool = (code / 0x8000_0000) % 2 == 1;
    let has_m: bool = (code / 0x4000_0000) % 2 == 1;
    if has_z && has_m {
        4
    } else if has_z || has_m {
        3
    } else if code / 1000 == 1 || code / 1000 == 2 {
        3
    } else if code / 1000 == 3 {
        4
    } else {
        2
    }
}

fn has_tagged_end(bytes: &Vec<u8>) -> (tagged: bool)
    ensures
        tagged == ends_in_tagged_point(bytes@),
{
    if bytes.len() < 9 {
        return false;
    }
    let code: u64 = read_word(bytes, 1);
    if code % 8 != 4 {
        return false;
    }
    let start: usize = if (code / 0x2000_0000) % 2 == 1 {
        13
    } else {
        9
    };
    if bytes.len() < start {
        return false;
    }
    let count: u64 = read_word(bytes, start - 4);
    if count == 0 {
        return false;
    }
    let size: u64 = 5 + 8 * count_dimensions(code);
    assert(0 <= (count - 1) * size <= u32::MAX * 37) by (nonlinear_arith)
        requires
            1 <= count <= u32::MAX,
            21 <= size <= 37,
    ;
    let last: u64 = start as u64 + (count - 1) * size;
    if (bytes.len() as u64) < last + size {
        return false;
    }
    (read_word(bytes, last as usize + 1) / 0x2000_0000) % 2 == 1
}

/// Whether a value holds no multipoint that ends in a point with a spatial reference.
fn check_points(bytes: &Vec<u8>) -> (plain: bool)
    ensures
        plain == points_are_plain(bytes@),
    decreases bytes@.len(),
{
    if has_tagged_end(bytes) {
        return false;
    }
    let members: Vec<Vec<u8>> = read_wkb_members(bytes);
    for i in 0..members.len()
        invariant
            members@.map_values(|m: Vec<u8>| m@) == wkb_members(bytes@),
            forall|k: int|
                0 <= k < members@.len() ==> (#[trigger] members@[k])@.len() < bytes@.len(),
            forall|k: int| 0 <= k < i ==> points_are_plain(#[trigger] wkb_members(bytes@)[k]),
    {
        assert(wkb_members(bytes@)[i as int] == members@[i as int]@);
        if !check_points(&members[i]) {
            return false;
        }
    }
    true
}

/// The bounds of the geometry that a value is.
pub fn rect_of_value(bytes: &Vec<u8>) -> (rect: Option<Rect>)
    ensures
        rect == value_rect(bytes@),
        rect matches Some(r) ==> r.is_valid(),
{
    if !check_points(bytes) {
        return None;
    }
    match read_wkb_bounds(bytes) {
        Some(corners) => Some(
            Rect {
                min_x: Ordinate::from_bits(corners.0.0),
                min_y: Ordinate::from_bits(corners.0.1),
                max_x: Ordinate::from_bits(corners.1.0),
                max_y: Ordinate::from_bits(corners.1.1),
            },
        ),
        None => None,
    }
}

/// The bounds of the geometries that a page's values are, in order, where each has some.
pub fn rects_of_values(values: &Vec<Vec<u8>>) -> (rects: Option<Vec<Rect>>)
    ensures
        rects is Some <==> all_have_rects(values@),
        rects matches Some(r) ==> r@ == rects_of(values@) && forall|i: int|
            0 <= i < r@.len() ==> (#[trigger] r@[i]).is_valid(),
{
    let mut rects: Vec<Rect> = Vec::new();
    for i in 0..values.len()
        invariant
            forall|k: int| 0 <= k < i ==> value_rect((#[trigger] values@[k])@) is Some,
            rects@ == rects_of(values@).take(i as int),
            forall|k: int| 0 <= k < rects@.len() ==> (#[trigger] rects@[k]).is_valid(),
    {
        match rect_of_value(&values[i]) {
            Some(rect) => {
                assert(value_rect(values@[i as int]@) == Some(rect));
                rects.push(rect);
                assert(rects@ =~= rects_of(values@).take(i + 1));
            },
            None => {
                assert(value_rect(values@[i as int]@) is None);
                return None;
            },
        }
    }
    assert(rects@ =~= rects_of(values@));
    Some(rects)
}

} // verus!
