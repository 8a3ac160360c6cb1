//! The points a spline passes through, each with the direction the curve
//! takes there.
use vstd::prelude::*;

verus! {

/// A value that curves are made of: it has a zero.
pub trait Curved: Sized {
    /// The zero of the type. A type that implements the trait in verified
    /// code names its zero here; the default names no particular value.
    closed spec fn zero_value() -> Self {
        vstd::pervasive::arbitrary()
    }

    /// Makes the zero of the type.
    fn zero() -> (r: Self)
        ensures
            r == Self::zero_value(),
    ;
}

/// The direction of a spline at a point: one for both sides, or one coming
/// in and one going out.
#[derive(Debug, Clone)]
pub enum SplinePointDirection<T: Curved> {
    Single(T),
    InOut(T, T),
}

impl<T: Curved> Default for SplinePointDirection<T> {
    /// A single direction, the zero value.
    fn default() -> (r: Self)
        ensures
            r == SplinePointDirection::Single(T::zero_value()),
    {
        SplinePointDirection::Single(T::zero())
    }
}

/// A point of a spline with its direction.
#[derive(Debug, Clone)]
pub struct SplinePoint<T: Clone + Curved> {
    pub point: T,
    pub direction: SplinePointDirection<T>,
}

impl<T: Clone + Curved> SplinePoint<T> {
    /// A point whose direction is the default: a single zero direction.
    pub fn point(point: T) -> (r: Self)
        ensures
            r.point == point,
            r.direction == SplinePointDirection::Single(T::zero_value()),
    {
        SplinePoint { point, direction: SplinePointDirection::default() }
    }

    /// A point with the given direction.
    pub fn new(point: T, direction: SplinePointDirection<T>) -> (r: Self)
        ensures
            r.point == point,
            r.direction == direction,
    {
        SplinePoint { point, direction }
    }
}

impl<T: Clone + Curved> From<(T, T)> for SplinePoint<T> {
    /// A point and its single direction.
    fn from(value: (T, T)) -> (r: Self) {
        Self::new(value.0, SplinePointDirection::Single(value.1))
    }
}

impl<T: Clone + Curved> vstd::std_specs::convert::FromSpecImpl<(T, T)> for SplinePoint<T> {
    open spec fn obeys_from_spec() -> bool {
        true
    }

    open spec fn from_spec(v: (T, T)) -> Self {
        SplinePoint { point: v.0, direction: SplinePointDirection::Single(v.1) }
    }
}

impl<T: Clone + Curved> From<(T, T, T)> for SplinePoint<T> {
    /// A point, its incoming and its outgoing direction.
    fn from(value: (T, T, T)) -> (r: Self) {
        Self::new(value.0, SplinePointDirection::InOut(value.1, value.2))
    }
}

impl<T: Clone + Curved> vstd::std_specs::convert::FromSpecImpl<(T, T, T)> for SplinePoint<T> {
    open spec fn obeys_from_spec() -> bool {
        true
    }

    open spec fn from_spec(v: (T, T, T)) -> Self {
        SplinePoint { point: v.0, direction: SplinePointDirection::InOut(v.1, v.2) }
    }
}

/// Why a spline cannot be made.
#[derive(Debug, Clone, Copy, PartialEq, Eq, Structural)]
pub enum SplineError {
    EmptyPointsList,
}

impl SplineError {
    /// The error's text: its name, as its `Debug` form writes it.
    pub fn to_string(&self) -> (r: String)
        ensures
            r@ == "EmptyPointsList"@,
    {
        match self {
            SplineError::EmptyPointsList => "EmptyPointsList".to_owned(),
        }
    }
}

} // verus!
