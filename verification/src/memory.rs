use vstd::prelude::*;

verus! {

/// Size in bytes of one OS page.
pub const PAGE_SIZE: usize = 4096;

/// An address range obtained from the OS: `len` bytes starting at `base`.
#[derive(Clone, Copy, Debug, PartialEq, Eq)]
pub struct Mapping {
    base: usize,
    len: usize,
}

impl Mapping {
    /// First address of the mapping.
    pub closed spec fn spec_base(self) -> usize {
        self.base
    }

    /// Length in bytes of the mapping.
    pub closed spec fn spec_len(self) -> usize {
        self.len
    }

    /// The mapping of `len` bytes at `base`.
    pub fn new(base: usize, len: usize) -> (r: Mapping)
        ensures
            r.spec_base() == base,
            r.spec_len() == len,
    {
        Mapping { base, len }
    }

    /// First address of the mapping.
    pub fn base(&self) -> (r: usize)
        ensures
            r == self.spec_base(),
    {
        self.base
    }

    /// Length in bytes of the mapping.
    pub fn len(&self) -> (r: usize)
        ensures
            r == self.spec_len(),
    {
        self.len
    }
}

} // verus!
