//! Conversion between the value types of the libraries the engine joins.
use vstd::prelude::*;

verus! {

/// A value that can be turned into a `To`.
pub trait Converter<To>: Sized {
    fn convert(self) -> To;
}

} // verus!
