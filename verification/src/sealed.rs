//! The sealing trait: only the crate can name the scalar types a raster
//! may hold.

use vstd::prelude::*;

verus! {

pub trait Sealed {}

} // verus!
