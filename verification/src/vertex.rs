//! The telemetry sample that topics accumulate, and how one draws.

use vstd::prelude::*;

use crate::scalar::is_nan_bits;
use crate::scalar::is_normal_bits;
use crate::scalar::sign_bit;

verus! {

/// How a sample is drawn, and how its `extra` field is read: an `Arrow`
/// is a point with an optional heading, a `Circle` has a radius.
#[derive(Clone, Copy, PartialEq, Eq, Structural, Debug)]
pub enum Shape {
    Arrow,
    Circle,
}

impl Shape {
    /// The wire encoding of this shape, one byte.
    pub fn to_byte(self) -> (r: u8)
        ensures
            r == self.spec_byte(),
    {
        match self {
            Shape::Arrow => 0,
            Shape::Circle => 1,
        }
    }

    /// The wire encoding of this shape.
    pub open spec fn spec_byte(self) -> u8 {
        match self {
            Shape::Arrow => 0,
            Shape::Circle => 1,
        }
    }

    /// Reads a shape from its wire byte; anything but the two known
    /// encodings is rejected.
    pub fn from_byte(b: u8) -> (r: Option<Shape>)
        ensures
            r == Self::spec_from_byte(b),
    {
        if b == 0 {
            Some(Shape::Arrow)
        } else if b == 1 {
            Some(Shape::Circle)
        } else {
            None
        }
    }

    /// The shape a wire byte stands for, if any.
    pub open spec fn spec_from_byte(b: u8) -> Option<Shape> {
        if b == 0 {
            Some(Shape::Arrow)
        } else if b == 1 {
            Some(Shape::Circle)
        } else {
            None
        }
    }
}

/// One telemetry sample. Positions, headings and radii travel as raw
/// binary32 bit patterns (see the `scalar` module); `level` picks a color
/// from the topic's table; `alpha` is the opacity of the segment tying this
/// sample to the previous one, with 0 meaning "no segment"; `extra` is a
/// heading for an `Arrow` and a radius for a `Circle`.
#[derive(Clone, Copy, PartialEq, Eq, Structural, Debug)]
pub struct Vertex {
    pub x: u32,
    pub y: u32,
    pub level: u8,
    pub alpha: u8,
    pub shape: Shape,
    pub extra: u32,
}


/// What one sample draws as, once it is in view: an `Arrow` carries its
/// heading pattern, a `Circle` its radius pattern. An arrow whose heading
/// is NaN draws as a plain point; a circle whose radius is not a positive
/// normal number draws nothing at all, though it still counts toward
/// bounds.
#[derive(Clone, Copy, PartialEq, Eq, Structural, Debug)]
pub enum Item {
    Point,
    Arrow(u32),
    Circle(u32),
    Hidden,
}

/// The drawable item a sample stands for.
pub fn classify_vertex(v: &Vertex) -> (r: Item)
    ensures
        v.shape == Shape::Arrow && is_nan_bits(v.extra) ==> r == Item::Point,
        v.shape == Shape::Arrow && !is_nan_bits(v.extra) ==> r == Item::Arrow(v.extra),
        v.shape == Shape::Circle && is_normal_bits(v.extra) && !sign_bit(v.extra) ==> r
            == Item::Circle(v.extra),
        v.shape == Shape::Circle && !(is_normal_bits(v.extra) && !sign_bit(v.extra)) ==> r
            == Item::Hidden,
{
    match v.shape {
        Shape::Arrow => {
            if crate::scalar::is_nan(v.extra) {
                Item::Point
            } else {
                Item::Arrow(v.extra)
            }
        },
        Shape::Circle => {
            proof {
                let e = v.extra;
                assert(e >> 31 == 0 || e >> 31 == 1) by (bit_vector);
            }
            if crate::scalar::is_normal(v.extra) && v.extra >> 31 == 0 {
                Item::Circle(v.extra)
            } else {
                Item::Hidden
            }
        },
    }
}

/// Whether a sample ties a connecting segment from its predecessor: only a
/// predecessor with nonzero opacity connects forward.
pub fn ties_to_previous(prev: &Vertex) -> (r: bool)
    ensures
        r == (prev.alpha != 0),
{
    prev.alpha != 0
}

} // verus!
