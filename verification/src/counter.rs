//! Identifier allocation: one monotone counter per entity class.
//!
//! Every allocation returns the current counter value and advances the
//! counter by exactly one, so no value is ever handed out twice for the same
//! class. An id is consumed the instant it is issued, even if the operation
//! that requested it never completes: gaps are accepted, reuse is not.

use vstd::prelude::*;

verus! {

/// A monotonically increasing allocator of identifiers for one entity class.
pub struct IdCounter {
    value: u64,
}

impl View for IdCounter {
    type V = u64;

    closed spec fn view(&self) -> u64 {
        self.value
    }
}

impl IdCounter {
    /// A fresh counter; the first allocated id is zero.
    pub fn new() -> (r: Self)
        ensures
            r@ == 0,
    {
        IdCounter { value: 0 }
    }

    /// The value the next allocation will return, without consuming it.
    pub fn peek(&self) -> (r: u64)
        ensures
            r == self@,
    {
        self.value
    }

    /// Allocates the next id: returns the current value and advances the
    /// counter by exactly one.
    pub fn next(&mut self) -> (r: u64)
        requires
            old(self)@ < u64::MAX,
        ensures
            r == old(self)@,
            final(self)@ == old(self)@ + 1,
    {
        let id = self.value;
        self.value = self.value + 1;
        id
    }
}

/// The ids a run of `n` allocations issues when the counter starts at
/// `start`: `start`, `start + 1`, and so on.
pub open spec fn issued_ids(start: int, n: nat) -> Seq<int> {
    Seq::new(n, |i: int| start + i)
}

/// Law: over any run of allocations from one counter, the issued ids are
/// strictly increasing, consecutive ids differ by exactly one, and no id is
/// issued twice.
pub proof fn lemma_issued_ids_strictly_increasing(start: int, n: nat)
    ensures
        forall|i: int, j: int|
            0 <= i < j < n ==> issued_ids(start, n)[i] < issued_ids(start, n)[j],
        forall|i: int|
            0 <= i < n - 1 ==> #[trigger] issued_ids(start, n)[i] + 1 == issued_ids(start, n)[i + 1],
        forall|i: int, j: int|
            0 <= i < n && 0 <= j < n && i != j
                ==> issued_ids(start, n)[i] != issued_ids(start, n)[j],
{
}

/// Law: one more allocation extends the run of issued ids with the counter's
/// current value, which `IdCounter::next` returns before advancing.
pub proof fn lemma_next_extends_issued_ids(start: int, n: nat)
    ensures
        issued_ids(start, n + 1) == issued_ids(start, n).push(start + n),
{
    assert(issued_ids(start, n + 1) =~= issued_ids(start, n).push(start + n));
}

} // verus!
