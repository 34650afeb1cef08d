//! Mappings from the address space of a link table to byte offsets in a
//! target image.

use vstd::prelude::*;

verus! {

/// The failure of an address mapping: the address lies outside the image.
#[derive(Clone, Copy, Debug, PartialEq, Eq)]
pub struct OutOfRange {
    pub address: u32,
}

/// The offset of `address` in an image that is loaded at `base`.
pub open spec fn base_relative_offset(base: u32, address: u32) -> Option<int> {
    if address >= base {
        Some(address - base)
    } else {
        None
    }
}

/// Maps `address` to its distance from `base`, and fails for an address
/// below `base`.
pub fn base_relative(base: u32, address: u32) -> (r: Result<usize, OutOfRange>)
    ensures
        match base_relative_offset(base, address) {
            Some(offset) => r == Ok::<usize, OutOfRange>(offset as usize) && offset == (offset as usize) as int,
            None => r == Err::<usize, OutOfRange>(OutOfRange { address }),
        },
{
    if address >= base {
        let delta: u32 = address - base;
        Ok(delta as usize)
    } else {
        Err(OutOfRange { address })
    }
}

} // verus!
