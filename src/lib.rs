//! Reports the optional dependencies of installed packages from the package
//! manager's textual metadata: locating the optional-dependency block, parsing
//! its entries and applying the inclusion policy.

use vstd::prelude::*;

pub mod text;
pub mod block;
pub mod entry;
pub mod report;
pub mod laws;

verus! {

} // verus!
