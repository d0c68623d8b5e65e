//! The memoization table, indexed by id and window.

use vstd::prelude::*;

use crate::behaviortree::TbtNode;
use crate::robustness::MAX_TRACE_LEN;

verus! {

/// Memoization store indexed by `(id, lower, upper)` with `lower <= upper`.
/// For each id and each `lower` it keeps `length - lower` cells, one per
/// `upper` in `[lower, length)`.
pub struct Table {
    table: Vec<Vec<Vec<Option<i64>>>>,
    amount_first_idx: usize,
    trace_length: usize,
    total_lookups: usize,
    total_set_calls: usize,
    total_entries: usize,
}

/// Every filled cell of `a` holds the same value in `b`.
pub open spec fn keeps_filled(a: Table, b: Table) -> bool {
    forall|id: int, lo: int, hi: int|
        #[trigger] a.cell(id, lo, hi) is Some ==> b.cell(id, lo, hi) == a.cell(id, lo, hi)
}

/// Number of cells of a table for `k` ids over a trace of length `n`.
pub open spec fn total_cells(k: int, n: int) -> int {
    k * (n * (n + 1) / 2)
}

impl Table {
    /// Number of ids the table has room for.
    pub closed spec fn num_ids(&self) -> nat {
        self.amount_first_idx as nat
    }

    /// Length of the trace the table is laid out for.
    pub closed spec fn len(&self) -> nat {
        self.trace_length as nat
    }

    /// Number of lookups that found a value.
    pub closed spec fn lookups(&self) -> nat {
        self.total_lookups as nat
    }

    /// Number of cells set.
    pub closed spec fn set_calls(&self) -> nat {
        self.total_set_calls as nat
    }

    /// Number of cells in all.
    pub closed spec fn entries(&self) -> nat {
        self.total_entries as nat
    }

    pub closed spec fn wf(&self) -> bool {
        &&& self.table@.len() == self.amount_first_idx
        &&& self.trace_length <= MAX_TRACE_LEN
        &&& forall|i: int|
            0 <= i < self.table@.len() ==> (#[trigger] self.table@[i])@.len() == self.trace_length
        &&& forall|i: int, l: int|
            0 <= i < self.table@.len() && 0 <= l < self.trace_length ==> (
            #[trigger] self.table@[i]@[l])@.len() == self.trace_length - l
    }

    /// The content of cell `(id, lo, hi)`; empty outside the table.
    pub closed spec fn cell(&self, id: int, lo: int, hi: int) -> Option<i64> {
        if 0 <= id < self.amount_first_idx && 0 <= lo <= hi < self.trace_length {
            self.table@[id]@[lo]@[hi - lo]
        } else {
            None
        }
    }

    /// Every filled cell lies in the table: its id is below the number of ids and
    /// its window satisfies `lo <= hi < len`, so no cell is ever written
    /// outside these bounds.
    pub proof fn lemma_filled_cells_in_bounds(&self)
        ensures
            forall|id: int, lo: int, hi: int|
                #[trigger] self.cell(id, lo, hi) is Some ==> 0 <= id < self.num_ids() && 0 <= lo <= hi
                    < self.len(),
    {
    }

    /// All cells, as a function of `(id, lo, hi)`.
    pub open spec fn cells(&self) -> spec_fn(int, int, int) -> Option<i64> {
        |id: int, lo: int, hi: int| self.cell(id, lo, hi)
    }

    /// A table for `amount_first_idx` ids over a trace of length `trace_length`,
    /// with every cell empty.
    pub fn new(amount_first_idx: usize, trace_length: usize) -> (r: Table)
        requires
            trace_length <= MAX_TRACE_LEN,
            total_cells(amount_first_idx as int, trace_length as int) <= usize::MAX,
        ensures
            r.wf(),
            r.num_ids() == amount_first_idx,
            r.len() == trace_length,
            r.entries() == total_cells(amount_first_idx as int, trace_length as int),
            r.lookups() == 0,
            r.set_calls() == 0,
            forall|id: int, lo: int, hi: int| r.cell(id, lo, hi).is_none(),
    {
        let n = trace_length as u128;
        let k = amount_first_idx as u128;
        assert(n * (n + 1) <= 0x3fff_ffff * 0x4000_0000) by (nonlinear_arith)
            requires n <= 0x3fff_ffff;
        let number_entries = (k * ((n * (n + 1)) / 2)) as usize;
        let mut table: Vec<Vec<Vec<Option<i64>>>> = Vec::new();
        let mut i: usize = 0;
        while i < amount_first_idx
            invariant
                i <= amount_first_idx,
                table@.len() == i,
                forall|j: int| 0 <= j < i ==> (#[trigger] table@[j])@.len() == trace_length,
                forall|j: int, l: int|
                    0 <= j < i && 0 <= l < trace_length ==> (#[trigger] table@[j]@[l])@.len()
                        == trace_length - l,
                forall|j: int, l: int, u: int|
                    0 <= j < i && 0 <= l < trace_length && 0 <= u < trace_length - l ==> (
                    #[trigger] table@[j]@[l]@[u]).is_none(),
            decreases amount_first_idx - i,
        {
            let mut lower: Vec<Vec<Option<i64>>> = Vec::new();
            let mut l: usize = 0;
            while l < trace_length
                invariant
                    l <= trace_length,
                    lower@.len() == l,
                    forall|m: int| 0 <= m < l ==> (#[trigger] lower@[m])@.len() == trace_length - m,
                    forall|m: int, u: int|
                        0 <= m < l && 0 <= u < trace_length - m ==> (
                        #[trigger] lower@[m]@[u]).is_none(),
                decreases trace_length - l,
            {
                let mut upper: Vec<Option<i64>> = Vec::new();
                let mut u: usize = 0;
                while u < trace_length - l
                    invariant
                        l < trace_length,
                        u <= trace_length - l,
                        upper@.len() == u,
                        forall|m: int| 0 <= m < u ==> (#[trigger] upper@[m]).is_none(),
                    decreases trace_length - l - u,
                {
                    upper.push(None);
                    u = u + 1;
                }
                lower.push(upper);
                l = l + 1;
            }
            table.push(lower);
            i = i + 1;
        }
        Table {
            table,
            amount_first_idx,
            trace_length,
            total_lookups: 0,
            total_set_calls: 0,
            total_entries: number_entries,
        }
    }

    /// The stored value of `(first_index, lower_index, upper_index)`, if any;
    /// empty when `lower_index > upper_index` or outside the table. Counts the
    /// lookups that find a value.
    pub fn lookup(&mut self, first_index: usize, lower_index: usize, upper_index: usize) -> (r:
        Option<i64>)
        requires
            old(self).wf(),
        ensures
            r == old(self).cell(first_index as int, lower_index as int, upper_index as int),
            !(first_index < old(self).num_ids() && lower_index <= upper_index < old(self).len())
                ==> r is None,
            final(self).wf(),
            final(self).num_ids() == old(self).num_ids(),
            final(self).len() == old(self).len(),
            forall|id: int, lo: int, hi: int|
                final(self).cell(id, lo, hi) == old(self).cell(id, lo, hi),
            final(self).cells() == old(self).cells(),
            final(self).set_calls() == old(self).set_calls(),
            final(self).entries() == old(self).entries(),
            final(self).lookups() == if r.is_some() && old(self).lookups() < usize::MAX {
                old(self).lookups() + 1int
            } else {
                old(self).lookups() as int
            },
    {
        if first_index < self.amount_first_idx && lower_index <= upper_index && upper_index
            < self.trace_length {
            let res = self.table[first_index][lower_index][upper_index - lower_index];
            if res.is_some() && self.total_lookups < usize::MAX {
                self.total_lookups = self.total_lookups + 1;
            }
            proof {
                assert(self.cells() =~= old(self).cells());
            }
            res
        } else {
            proof {
                assert(self.cells() =~= old(self).cells());
            }
            None
        }
    }

    /// The stored value of the node `tree` on `[lower_index, upper_index]`.
    pub fn lookup_segmentation_tree(&mut self, tree: &TbtNode, lower_index: usize, upper_index: usize) -> (r:
        Option<i64>)
        requires
            old(self).wf(),
        ensures
            r == old(self).cell(tree.id() as int, lower_index as int, upper_index as int),
            final(self).wf(),
            final(self).num_ids() == old(self).num_ids(),
            final(self).len() == old(self).len(),
            final(self).cells() == old(self).cells(),
    {
        self.lookup(tree.get_index(), lower_index, upper_index)
    }

    /// Stores `value` at `(first_index, lower_index, upper_index)`. The cell must
    /// lie in the table. Counts the calls.
    pub fn set(&mut self, first_index: usize, lower_index: usize, upper_index: usize, value: i64)
        requires
            old(self).wf(),
            lower_index <= upper_index < old(self).len(),
            first_index < old(self).num_ids(),
        ensures
            final(self).wf(),
            final(self).num_ids() == old(self).num_ids(),
            final(self).len() == old(self).len(),
            final(self).cell(first_index as int, lower_index as int, upper_index as int) == Some(
                value,
            ),
            forall|id: int, lo: int, hi: int|
                !(id == first_index && lo == lower_index && hi == upper_index) ==> final(self).cell(
                    id,
                    lo,
                    hi,
                ) == old(self).cell(id, lo, hi),
            final(self).lookups() == old(self).lookups(),
            final(self).entries() == old(self).entries(),
            final(self).set_calls() == if old(self).set_calls() < usize::MAX {
                old(self).set_calls() + 1int
            } else {
                old(self).set_calls() as int
            },
    {
        if self.total_set_calls < usize::MAX {
            self.total_set_calls = self.total_set_calls + 1;
        }
        self.table[first_index][lower_index][upper_index - lower_index] = Some(value);
        proof {
            assert(self.table@[first_index as int]@[lower_index as int]@[(upper_index
                - lower_index) as int] == Some(value));
        }
    }

    /// Number of lookups that found a value.
    pub fn total_lookups(&self) -> (r: usize)
        ensures
            r == self.lookups(),
    {
        self.total_lookups
    }

    /// Number of cells in all.
    pub fn total_entries(&self) -> (r: usize)
        ensures
            r == self.entries(),
    {
        self.total_entries
    }

    /// Number of cells set so far and number of cells in all.
    pub fn progress(&self) -> (r: (usize, usize))
        ensures
            r.0 == self.set_calls() && r.1 == self.entries(),
    {
        (self.total_set_calls, self.total_entries)
    }
}

} // verus!
