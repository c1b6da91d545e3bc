//! Ring of the most recently seen packet identifiers, for duplicate
//! suppression.
use vstd::prelude::*;
use crate::prn_id::PrnValue;

verus! {

/// Number of identifiers remembered.
pub const TABLE_SIZE: usize = 1000;

/// The last thousand identifiers received. Fresh slots hold zero.
pub struct Table {
    prns: [PrnValue; 1000],
    last_idx: usize,
}

impl Table {
    /// The remembered identifiers, slot by slot.
    pub closed spec fn slots(&self) -> Seq<PrnValue> {
        self.prns@
    }

    /// The slot that the next `add` writes.
    pub closed spec fn next_slot(&self) -> int {
        self.last_idx as int
    }

    pub closed spec fn wf(&self) -> bool {
        self.last_idx < TABLE_SIZE
    }

    /// Adds an identifier, overwriting the oldest.
    pub fn add(&mut self, prn: PrnValue)
        requires
            old(self).wf(),
        ensures
            final(self).wf(),
            final(self).slots() == old(self).slots().update(old(self).next_slot(), prn),
            final(self).next_slot() == (old(self).next_slot() + 1) % 1000,
    {
        self.prns[self.last_idx] = prn;
        self.last_idx = self.last_idx + 1;
        if self.last_idx >= TABLE_SIZE {
            self.last_idx = 0;
        }
    }

    /// Whether `prn` is among the remembered identifiers.
    pub fn contains(&self, prn: PrnValue) -> (r: bool)
        ensures
            r == self.slots().contains(prn),
    {
        let mut i: usize = 0;
        while i < TABLE_SIZE
            invariant
                i <= TABLE_SIZE,
                self.prns@.len() == 1000,
                forall|j: int| 0 <= j < i ==> self.prns@[j] != prn,
            decreases TABLE_SIZE - i,
        {
            if self.prns[i] == prn {
                return true;
            }
            i = i + 1;
        }
        false
    }
}

/// An empty table: every slot zero.
pub fn new() -> (r: Table)
    ensures
        r.wf(),
        r.slots() == Seq::new(1000, |i: int| 0u32),
        r.next_slot() == 0,
{
    let r = Table { prns: [0; 1000], last_idx: 0 };
    assert(r.slots() =~= Seq::new(1000, |i: int| 0u32));
    r
}

} // verus!
