//! Traces, seen through the values of their atomic propositions.

use vstd::prelude::*;

use crate::robustness::{in_range, MAX_TRACE_LEN};

verus! {

/// A finite trace, seen through its atomic propositions: `atoms[a][t]` is the
/// robustness of atomic proposition `a` at time point `t`, for `t < length`.
pub struct Trace {
    pub length: usize,
    pub atoms: Vec<Vec<i64>>,
}

impl Trace {
    /// Every column has `length` samples, each a robustness value.
    pub open spec fn wf(&self) -> bool {
        &&& 1 <= self.length <= MAX_TRACE_LEN
        &&& forall|a: int|
            0 <= a < self.atoms@.len() ==> (#[trigger] self.atoms@[a])@.len() == self.length
        &&& forall|a: int, t: int|
            0 <= a < self.atoms@.len() && 0 <= t < self.length ==> in_range(
                #[trigger] self.atoms@[a]@[t] as int,
            )
    }

    /// Value of atomic proposition `a` at time `t`.
    pub open spec fn sample(&self, a: int, t: int) -> int {
        self.atoms@[a]@[t] as int
    }
}

} // verus!
