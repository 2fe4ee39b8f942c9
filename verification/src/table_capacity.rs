use vstd::prelude::*;

verus! {

/// Largest number of slots a metadata table may hold: every slot index must
/// fit in a `u32`.
pub const TABLE_CAPACITY_MAX: usize = 4_294_967_295;

/// A validated, positive metadata-table capacity that fits the `u32` id space.
#[derive(Clone, Copy, Debug, PartialEq, Eq)]
pub struct TableCapacity(usize);

impl TableCapacity {
    /// The number of slots this capacity allows.
    pub closed spec fn value(self) -> nat {
        self.0 as nat
    }

    /// Capacities are positive and at most `TABLE_CAPACITY_MAX`.
    pub open spec fn wf(self) -> bool {
        1 <= self.value() <= TABLE_CAPACITY_MAX
    }

    #[verifier::type_invariant]
    closed spec fn inv(self) -> bool {
        self.wf()
    }

    /// Accepts `value` exactly when it is positive and at most `TABLE_CAPACITY_MAX`.
    pub fn new(value: usize) -> (r: Option<TableCapacity>)
        ensures
            r is Some <==> (value != 0 && value <= TABLE_CAPACITY_MAX),
            r matches Some(c) ==> c.value() == value && c.wf(),
    {
        if value == 0 || value > TABLE_CAPACITY_MAX {
            None
        } else {
            Some(TableCapacity(value))
        }
    }

    /// The validated slot count.
    pub fn get(self) -> (r: usize)
        ensures
            r == self.value(),
            self.wf(),
    {
        proof {
            use_type_invariant(self);
        }
        self.0
    }
}

} // verus!
