//! Constants of the SV39 paging scheme.
use vstd::prelude::*;

verus! {

/// Bytes in a page.
pub const PAGE_SIZE: usize = 4096;

} // verus!
