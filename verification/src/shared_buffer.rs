use vstd::prelude::*;
use std::sync::Arc;

verus! {

/// A shared 1 KiB buffer together with every clone of its handle.
///
/// The fields are private to this module, and the only functions that touch
/// them are the ones below: `new` makes the first handle to a fresh
/// allocation, and `share` clones that handle and keeps the clone. No handle
/// is ever handed out or taken in, so the handles to the buffer are exactly
/// the first one and the clones held.
pub struct SharedBuffer {
    value: Arc<Vec<u8>>,
    clones: Vec<Arc<Vec<u8>>>,
}

impl SharedBuffer {
    /// How many clones of the handle the buffer holds.
    pub closed spec fn clone_count(&self) -> nat {
        self.clones@.len()
    }

    /// A fresh buffer filled with `fill`, with room for `capacity` clones
    /// and none made yet.
    pub fn new(fill: u8, capacity: usize) -> (r: SharedBuffer)
        ensures
            r.clone_count() == 0,
    {
        SharedBuffer { value: Arc::new(vec![fill; 1024]), clones: Vec::with_capacity(capacity) }
    }

    /// Clones the handle and keeps the clone.
    pub fn share(&mut self)
        ensures
            final(self).clone_count() == old(self).clone_count() + 1,
    {
        let handle = Arc::clone(&self.value);
        self.clones.push(handle);
    }

    /// `Arc::strong_count` on the buffer's first handle: the number of `Arc`
    /// pointers to the buffer's allocation. Those are the first handle and
    /// the clones held, since this module makes no other handle to the
    /// allocation and lets none out, so the count is the number of clones
    /// plus one.
    #[verifier::external_body]
    pub fn strong_count(&self) -> (r: usize)
        requires
            self.clone_count() < usize::MAX,
        ensures
            r == self.clone_count() + 1,
    {
        Arc::strong_count(&self.value)
    }
}

} // verus!
