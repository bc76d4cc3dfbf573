use crate::formats::{F32, F64};
use vstd::prelude::*;

verus! {

/// Closes `ApproxEq` to the two formats of this crate.
pub trait Sealed {

}

impl Sealed for F32 {

}

impl Sealed for F64 {

}

} // verus!
