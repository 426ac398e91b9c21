//! A trait that only this crate can implement, so that the identifier
//! conversions of the crate stay the verified ones.

use vstd::prelude::*;

verus! {

/// Implemented only inside this crate.
pub trait Sealed {}

impl<'a> Sealed for &'a str {}

impl Sealed for String {}

impl<'a> Sealed for &'a String {}

} // verus!
