//! A marker trait for types that are enums.
use vstd::prelude::*;

verus! {

/// Sealed: only the two answers below implement it.
pub trait Sealed {
}

/// The type is an enum.
pub struct Yes;

/// The type is not known to be an enum.
pub struct No;

trait Certainty: Sealed {
}

impl Sealed for Yes {
}

impl Sealed for No {
}

impl Certainty for Yes {
}

impl Certainty for No {
}

/// Whether a type is an enum, as an associated type.
#[allow(private_bounds)]
pub trait EnumBase {
    type AreYouSure: Certainty;
}

/// Implemented by enums only.
pub trait Enum: EnumBase<AreYouSure = Yes> {
}

} // verus!
