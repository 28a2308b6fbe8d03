//! Coordinates as integers that order like binary64 numbers.
use vstd::prelude::*;

verus! {

/// The sign bit of a binary64 bit pattern.
pub const SIGN_BIT: u64 = 0x8000_0000_0000_0000;

/// The bit pattern of positive infinity, which is also its ordinate.
pub const INFINITY_KEY: i64 = 0x7ff0_0000_0000_0000;

/// The bit pattern that [`Ordinate::to_bits`] writes for "not a number".
pub const NAN_BITS: u64 = 0x7ff8_0000_0000_0000;

/// One coordinate of a point.
///
/// A binary64 pattern is a sign and a magnitude, and the magnitudes order as the numbers
/// they stand for. `Number` holds the magnitude with the sign applied, so two ordinates
/// compare as the two numbers do, and both zeros are `Number(0)`.
#[derive(Clone, Copy, Debug, PartialEq, Eq, Structural)]
pub enum Ordinate {
    Nan,
    Number(i64),
}

/// The ordinate of the binary64 number with the given bit pattern.
pub open spec fn ordinate_of_bits(bits: u64) -> Ordinate {
    let magnitude: int = if bits < SIGN_BIT {
        bits as int
    } else {
        bits - SIGN_BIT
    };
    if magnitude > INFINITY_KEY {
        Ordinate::Nan
    } else if bits < SIGN_BIT {
        Ordinate::Number(magnitude as i64)
    } else {
        Ordinate::Number((-magnitude) as i64)
    }
}

impl Ordinate {
    /// Whether some binary64 number has this ordinate.
    pub open spec fn is_valid(self) -> bool {
        self matches Ordinate::Number(key) ==> -INFINITY_KEY <= key <= INFINITY_KEY
    }

    /// `<` on numbers; false beside "not a number".
    pub open spec fn lt(self, other: Ordinate) -> bool {
        &&& self is Number
        &&& other is Number
        &&& self->Number_0 < other->Number_0
    }

    /// The greater of a number and this ordinate, where "not a number" gives way.
    pub open spec fn raise(self, key: i64) -> i64 {
        match self {
            Ordinate::Nan => key,
            Ordinate::Number(own) => if own > key { own } else { key },
        }
    }

    /// The lesser of a number and this ordinate, where "not a number" gives way.
    pub open spec fn lower(self, key: i64) -> i64 {
        match self {
            Ordinate::Nan => key,
            Ordinate::Number(own) => if own < key { own } else { key },
        }
    }

    /// Reads a binary64 bit pattern.
    pub fn from_bits(bits: u64) -> (ordinate: Ordinate)
        ensures
            ordinate == ordinate_of_bits(bits),
            ordinate.is_valid(),
    {
        let negative: bool = bits >= SIGN_BIT;
        let magnitude: u64 = if negative {
            bits - SIGN_BIT
        } else {
            bits
        };
        if magnitude > 0x7ff0_0000_0000_0000u64 {
            Ordinate::Nan
        } else if negative {
            Ordinate::Number(-(magnitude as i64))
        } else {
            Ordinate::Number(magnitude as i64)
        }
    }

    /// Whether some binary64 number has this ordinate.
    pub fn has_bits(&self) -> (valid: bool)
        ensures
            valid == self.is_valid(),
    {
        match *self {
            Ordinate::Nan => true,
            Ordinate::Number(key) => -INFINITY_KEY <= key && key <= INFINITY_KEY,
        }
    }

    /// A bit pattern that reads back as this ordinate.
    pub fn to_bits(&self) -> (bits: u64)
        requires
            self.is_valid(),
        ensures
            ordinate_of_bits(bits) == *self,
            *self is Nan ==> bits == NAN_BITS,
            *self == Ordinate::Number(0) ==> bits == 0,
    {
        match *self {
            Ordinate::Nan => NAN_BITS,
            Ordinate::Number(key) => {
                if key >= 0 {
                    key as u64
                } else {
                    SIGN_BIT + (-key) as u64
                }
            },
        }
    }

    /// Whether this ordinate is a number below `other`.
    pub fn less_than(&self, other: &Ordinate) -> (less: bool)
        ensures
            less == self.lt(*other),
    {
        match (*self, *other) {
            (Ordinate::Number(a), Ordinate::Number(b)) => a < b,
            _ => false,
        }
    }

    /// The greater of `key` and this ordinate.
    pub fn raised(&self, key: i64) -> (top: i64)
        ensures
            top == self.raise(key),
    {
        match *self {
            Ordinate::Nan => key,
            Ordinate::Number(own) => if own > key {
                own
            } else {
                key
            },
        }
    }

    /// The lesser of `key` and this ordinate.
    pub fn lowered(&self, key: i64) -> (bottom: i64)
        ensures
            bottom == self.lower(key),
    {
        match *self {
            Ordinate::Nan => key,
            Ordinate::Number(own) => if own < key {
                own
            } else {
                key
            },
        }
    }
}

/// Bit patterns of the same sign order by magnitude, negative numbers lie below positive
/// ones, and both zeros are one ordinate: the ordinate orders as the number does.
pub proof fn law_order_of_bits(a: u64, b: u64)
    requires
        ordinate_of_bits(a) is Number,
        ordinate_of_bits(b) is Number,
    ensures
        a < SIGN_BIT && b < SIGN_BIT ==> (ordinate_of_bits(a).lt(ordinate_of_bits(b)) <==> a < b),
        a >= SIGN_BIT && b >= SIGN_BIT ==> (ordinate_of_bits(a).lt(ordinate_of_bits(b)) <==> a > b),
        a >= SIGN_BIT && b < SIGN_BIT ==> (ordinate_of_bits(a).lt(ordinate_of_bits(b)) <==> !(a
            == SIGN_BIT && b == 0)),
        a < SIGN_BIT && b >= SIGN_BIT ==> !ordinate_of_bits(a).lt(ordinate_of_bits(b)),
{
}

/// Numbers are totally ordered, and "not a number" is below nothing and above nothing.
pub proof fn law_order_is_total(a: Ordinate, b: Ordinate, c: Ordinate)
    ensures
        !a.lt(a),
        a.lt(b) && b.lt(c) ==> a.lt(c),
        a is Number && b is Number ==> a.lt(b) || b.lt(a) || a == b,
        a is Nan ==> !a.lt(b) && !b.lt(a),
{
}

} // verus!
