use vstd::prelude::*;
use crate::text::parse_i64;
use crate::text::read_i64;
use crate::word::Order;

verus! {

/// A value that documents are ranked by: an integer, or a finite float held
/// as its IEEE-754 bits.
#[derive(Clone, Copy, Debug, PartialEq, Eq, Structural, Hash)]
pub enum Number {
    Integer(i64),
    Float(u64),
}

/// Whether the bits are those of a finite float: neither an infinity nor a NaN.
pub open spec fn is_finite(bits: u64) -> bool {
    (bits >> 52) & 0x7ff != 0x7ff
}

/// The place of a float in the IEEE-754 total order, from its bits: negative
/// floats come first, the larger their magnitude the earlier.
pub open spec fn float_key(bits: u64) -> u64 {
    if bits >> 63 == 1 {
        !bits
    } else {
        bits | 0x8000_0000_0000_0000
    }
}

/// The number that a text stands for: the integer it spells or else, where
/// the caller read a finite float from it, that float.
pub open spec fn parse_number(text: Seq<char>, float_bits: Option<u64>) -> Option<Number> {
    match parse_i64(text) {
        Some(i) => Some(Number::Integer(i)),
        None => match float_bits {
            Some(bits) => if is_finite(bits) {
                Some(Number::Float(bits))
            } else {
                None
            },
            None => None,
        },
    }
}

impl Number {
    /// The place of a number in the order of all numbers: integers by value,
    /// then floats in their total order.
    pub open spec fn rank(self) -> int {
        match self {
            Number::Integer(i) => i as int,
            Number::Float(bits) => 0x8000_0000_0000_0000 + float_key(bits),
        }
    }

    /// Whether the number is an integer.
    pub fn is_integer(&self) -> (yes: bool)
        ensures
            yes == (*self is Integer),
    {
        match self {
            Number::Integer(_) => true,
            Number::Float(_) => false,
        }
    }

    /// The float with the given bits, where it is finite.
    pub fn from_float_bits(bits: u64) -> (number: Option<Number>)
        ensures
            number == if is_finite(bits) {
                Some(Number::Float(bits))
            } else {
                None::<Number>
            },
    {
        if (bits >> 52) & 0x7ff != 0x7ff {
            Some(Number::Float(bits))
        } else {
            None
        }
    }

    /// Reads a number from a text. `float_bits` holds the bits of the float
    /// that the text spells, where it spells one.
    pub fn parse(text: &str, float_bits: Option<u64>) -> (number: Option<Number>)
        ensures
            number == parse_number(text@, float_bits),
    {
        match read_i64(text) {
            Some(i) => Some(Number::Integer(i)),
            None => match float_bits {
                Some(bits) => Number::from_float_bits(bits),
                None => None,
            },
        }
    }

    /// Where this number stands to another.
    pub fn order(&self, other: &Number) -> (o: Order)
        ensures
            o == if self.rank() < other.rank() {
                Order::Less
            } else if self.rank() == other.rank() {
                Order::Equal
            } else {
                Order::Greater
            },
    {
        match (self, other) {
            (Number::Integer(a), Number::Integer(b)) => {
                if *a < *b {
                    Order::Less
                } else if *a == *b {
                    Order::Equal
                } else {
                    Order::Greater
                }
            },
            (Number::Integer(_), Number::Float(_)) => Order::Less,
            (Number::Float(_), Number::Integer(_)) => Order::Greater,
            (Number::Float(a), Number::Float(b)) => {
                let ka = key_of_float(*a);
                let kb = key_of_float(*b);
                if ka < kb {
                    Order::Less
                } else if ka == kb {
                    Order::Equal
                } else {
                    Order::Greater
                }
            },
        }
    }
}

fn key_of_float(bits: u64) -> (key: u64)
    ensures
        key == float_key(bits),
{
    if bits >> 63 == 1 {
        !bits
    } else {
        bits | 0x8000_0000_0000_0000
    }
}

/// Two floats with the same key have the same bits.
pub proof fn lemma_float_key_identifies(a: u64, b: u64)
    requires
        float_key(a) == float_key(b),
    ensures
        a == b,
{
    assert(float_key(a) == float_key(b) ==> a == b) by (bit_vector)
        requires
            float_key(a) == (if a >> 63 == 1 {
                !a
            } else {
                a | 0x8000_0000_0000_0000
            }),
            float_key(b) == (if b >> 63 == 1 {
                !b
            } else {
                b | 0x8000_0000_0000_0000
            }),
    ;
}

/// Two numbers with the same rank are the same number.
pub proof fn lemma_rank_identifies(a: Number, b: Number)
    requires
        a.rank() == b.rank(),
    ensures
        a == b,
{
    match (a, b) {
        (Number::Float(x), Number::Float(y)) => {
            lemma_float_key_identifies(x, y);
        },
        _ => {},
    }
}

} // verus!
