//! Units of angles, as marker types, and the traits that angle values of a
//! unit offer.
use vstd::prelude::*;

verus! {

/// Angles counted in whole turns.
#[derive(Copy, Clone, Debug, Default, PartialEq, Eq, PartialOrd, Ord)]
pub struct UnitAngleType;

/// Angles counted in degrees.
#[derive(Copy, Clone, Debug, Default, PartialEq, Eq, PartialOrd, Ord)]
pub struct DegreesType;

/// Angles counted in radians.
#[derive(Copy, Clone, Debug, Default, PartialEq, Eq, PartialOrd, Ord)]
pub struct RadiansType;

/// A unit that angles can be counted in.
pub trait AngleType {

}

impl AngleType for UnitAngleType {

}

impl AngleType for DegreesType {

}

impl AngleType for RadiansType {

}

/// The usual fractions of a turn, in the angle's own unit.
pub trait AngleTurnType: Sized {
    fn full_turn() -> Self;

    fn three_quarter_turn() -> Self;

    fn half_turn() -> Self;

    fn quarter_turn() -> Self;

    fn sixth_turn() -> Self;

    fn eighth_turn() -> Self;

    fn zero() -> Self;
}

/// An angle that can be read in degrees.
pub trait AngleDegreesType<T> {
    fn degrees(&self) -> T;
}

/// An angle that can be read in radians.
pub trait AngleRadiansType<T> {
    fn radians(&self) -> T;
}

} // verus!
