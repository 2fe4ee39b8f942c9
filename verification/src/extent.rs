use vstd::prelude::*;

use crate::arena::{ArenaId, ArenaValue};

verus! {

/// Largest raw value an `ExtentId` can hold; `u32::MAX` is kept out of the id space.
pub const EXTENT_ID_MAX: u32 = 4_294_967_294;

/// Identifier of an extent: its slot index in the extent table.
#[derive(Clone, Copy, Debug, PartialEq, Eq, Structural)]
pub struct ExtentId(u32);

impl ExtentId {
    /// The raw slot index.
    pub closed spec fn value(self) -> u32 {
        self.0
    }

    /// Builds the id of slot `index`; `u32::MAX` is not an id.
    pub fn new(index: u32) -> (r: Option<ExtentId>)
        ensures
            r is Some <==> index <= EXTENT_ID_MAX,
            r matches Some(id) ==> id.value() == index,
    {
        if index > EXTENT_ID_MAX {
            None
        } else {
            Some(ExtentId(index))
        }
    }

    /// An index names an id exactly when it is at most `EXTENT_ID_MAX`;
    /// the id then holds that index.
    pub proof fn lemma_from_index(index: u32)
        ensures
            <ExtentId as ArenaId>::spec_from_index(index) is Some <==> index <= EXTENT_ID_MAX,
            <ExtentId as ArenaId>::spec_from_index(index) matches Some(id) ==> id.value() == index
                && id.spec_index() == index,
    {
    }

    /// The raw slot index.
    pub fn get(self) -> (r: u32)
        ensures
            r == self.value(),
    {
        self.0
    }
}

impl ArenaId for ExtentId {
    closed spec fn spec_index(self) -> u32 {
        self.0
    }

    fn index(self) -> (r: u32) {
        self.0
    }

    proof fn lemma_index_determines_id(a: ExtentId, b: ExtentId) {
    }

    closed spec fn spec_from_index(index: u32) -> Option<ExtentId> {
        if index <= EXTENT_ID_MAX {
            Some(ExtentId(index))
        } else {
            None
        }
    }

    fn from_index(index: u32) -> (r: Option<ExtentId>)
        ensures
            r is Some <==> index <= EXTENT_ID_MAX,
            r matches Some(id) ==> id.value() == index,
    {
        ExtentId::new(index)
    }
}

/// A dedicated large allocation: its id and the address range of its mapping.
#[derive(Debug, PartialEq, Eq)]
pub struct Extent {
    id: ExtentId,
    base: usize,
    len: usize,
}

impl Extent {
    /// The id the extent was created with.
    pub closed spec fn spec_id(&self) -> ExtentId {
        self.id
    }

    /// First address of the extent's mapping.
    pub closed spec fn spec_base(&self) -> usize {
        self.base
    }

    /// Length in bytes of the extent's mapping.
    pub closed spec fn spec_len(&self) -> usize {
        self.len
    }

    /// An extent with identifier `id` owning `len` bytes from `base`.
    pub fn new(id: ExtentId, base: usize, len: usize) -> (r: Extent)
        ensures
            r.spec_id() == id,
            <Extent as ArenaValue<ExtentId>>::spec_id(&r) == id,
            r.spec_base() == base,
            r.spec_len() == len,
    {
        Extent { id, base, len }
    }

    /// The extent's identifier.
    pub fn id(&self) -> (r: ExtentId)
        ensures
            r == self.spec_id(),
    {
        self.id
    }

    /// First address of the extent's mapping.
    pub fn base(&self) -> (r: usize)
        ensures
            r == self.spec_base(),
    {
        self.base
    }

    /// Length in bytes of the extent's mapping.
    pub fn len(&self) -> (r: usize)
        ensures
            r == self.spec_len(),
    {
        self.len
    }
}

impl ArenaValue<ExtentId> for Extent {
    closed spec fn spec_id(&self) -> ExtentId {
        self.id
    }

    fn id(&self) -> (r: ExtentId) {
        self.id
    }
}

} // verus!
