//! Robustness and segmentation of temporal behavior trees over finite traces.
//!
//! Robustness values are integers that stand for reals extended with plus and
//! minus infinity (`robustness`); a trace holds the values of its atomic
//! propositions (`trace`). `stl` and `behaviortree` define and evaluate the two
//! kinds of trees with memoization tables (`table`), `segmentation` reads the
//! segmentation that realizes a robustness, `alternatives` searches for
//! segmentations that differ from it in time, and `subsampling` picks a
//! sampling step from the sign streaks of the atomic propositions.

use vstd::prelude::*;

pub mod alternatives;
pub mod behaviortree;
pub mod constants;
pub mod robustness;
pub mod segmentation;
pub mod stl;
pub mod subsampling;
pub mod table;
pub mod trace;
pub mod wellformed;

use behaviortree::{ready_tbt, rho_tbt, sound_tbt, Tbt, TbtNode};
use robustness::{min_spec, rmin, INF, NEG_INF};
use alternatives::{alternatives, rows_above};
use segmentation::{segmentation, Row};
use stl::{sound, Stl};
use table::Table;
use trace::Trace;

verus! {

/// The outcome of evaluating a tree on a whole trace: its robustness, the
/// segmentation that realizes it, and the two filled tables.
pub struct Evaluation {
    pub robustness: i64,
    pub segmentation: Vec<Row>,
    pub tree_table: Table,
    pub formula_table: Table,
    /// The node each id of the tree table stands for.
    pub dict: Ghost<Map<nat, TbtNode>>,
    /// The formula each id of the formula table stands for.
    pub fdict: Ghost<Map<nat, Stl>>,
}

impl Evaluation {
    /// The tables are sound for `tbt` on `trace`.
    pub open spec fn wf(&self, tbt: &Tbt, trace: &Trace, lazy: bool) -> bool {
        &&& ready_tbt(self.tree_table, self.formula_table, *trace, self.dict@, self.fdict@, lazy)
        &&& tbt.tree.covered(self.dict@, self.fdict@)
        &&& tbt.tree.fits(self.tree_table.num_ids(), self.formula_table.num_ids(), trace.atoms@.len())
    }
}

/// Robustness reported for a whole trace: under lazy evaluation a negative value
/// only says that the tree fails, and is reported as minus infinity.
pub open spec fn reported(v: int, lazy: bool) -> int {
    if lazy && v < 0 {
        NEG_INF as int
    } else {
        v
    }
}

/// Smallest value of the rows (of the leaf rows only, with `only_leaves`),
/// from plus infinity.
pub open spec fn rows_min(rows: Seq<Row>, only_leaves: bool) -> int
    decreases rows.len(),
{
    if rows.len() == 0 {
        INF as int
    } else {
        let rest = rows_min(rows.drop_last(), only_leaves);
        if only_leaves && !rows.last().leaf {
            rest
        } else {
            min_spec(rest, rows.last().value as int)
        }
    }
}

/// The robustness a segmentation reports: the smallest value of its rows (of
/// its leaf rows with `only_leaves`), negative values turned into minus
/// infinity under lazy evaluation.
pub fn segmentation_robustness(segmentation: &Vec<Row>, only_leaves: bool, is_lazy: bool) -> (r: i64)
    ensures
        r as int == reported(rows_min(segmentation@, only_leaves), is_lazy),
{
    let mut robustness: i64 = INF;
    let mut k: usize = 0;
    while k < segmentation.len()
        invariant
            k <= segmentation@.len(),
            robustness as int == rows_min(segmentation@.take(k as int), only_leaves),
        decreases segmentation@.len() - k,
    {
        proof {
            assert(segmentation@.take(k + 1).drop_last() =~= segmentation@.take(k as int));
        }
        let row = &segmentation[k];
        if !only_leaves || row.leaf {
            robustness = rmin(robustness, row.value);
        }
        k = k + 1;
    }
    proof {
        assert(segmentation@.take(k as int) =~= segmentation@);
    }
    if is_lazy && robustness < 0 {
        NEG_INF
    } else {
        robustness
    }
}

/// Evaluates `tbt` on the whole of `trace`, `[0, length - 1]`, in fresh tables
/// sized by the tree's node and formula counts, and reads the segmentation of
/// the whole trace from them.
pub fn evaluate(tbt: &Tbt, trace: &Trace, lazy_evaluation: bool) -> (r: Evaluation)
    requires
        trace.wf(),
        tbt.wf_for(trace),
    ensures
        r.robustness as int == reported(
            rho_tbt(tbt.tree, *trace, 0, trace.length - 1, lazy_evaluation),
            lazy_evaluation,
        ),
        r.segmentation@ == segmentation(
            tbt.tree,
            r.tree_table.cells(),
            *trace,
            0,
            trace.length - 1,
            lazy_evaluation,
        ),
        r.tree_table.cell(tbt.tree.id() as int, 0, trace.length - 1) matches Some(v) && v as int
            == rho_tbt(tbt.tree, *trace, 0, trace.length - 1, lazy_evaluation),
        r.wf(tbt, trace, lazy_evaluation),
        r.tree_table.num_ids() == tbt.node_count,
        r.formula_table.num_ids() == tbt.formula_count,
{
    let ghost (dict, fdict) = choose|d: Map<nat, TbtNode>, fd: Map<nat, Stl>|
        tbt.tree.covered(d, fd);
    let mut tree_table = Table::new(tbt.node_count, trace.length);
    let mut formula_table = Table::new(tbt.formula_count, trace.length);
    proof {
        assert(sound(formula_table, fdict, *trace, lazy_evaluation));
        assert(sound_tbt(tree_table, dict, *trace, lazy_evaluation));
    }
    let v = tbt.tree.evaluate(
        &mut tree_table,
        &mut formula_table,
        trace,
        0,
        trace.length - 1,
        lazy_evaluation,
        Ghost(dict),
        Ghost(fdict),
    );
    let robustness = if lazy_evaluation && v < 0 {
        NEG_INF
    } else {
        v
    };
    let ghost evaluated = tree_table;
    let segmentation = tbt.tree.get_segmentation(
        &mut tree_table,
        &mut formula_table,
        trace,
        0,
        trace.length - 1,
        lazy_evaluation,
        Ghost(dict),
        Ghost(fdict),
    );
    proof {
        assert forall|id: int, lo: int, hi: int| #[trigger]
            tree_table.cell(id, lo, hi) == evaluated.cell(id, lo, hi) by {
            assert(tree_table.cells()(id, lo, hi) == evaluated.cells()(id, lo, hi));
        }
    }
    Evaluation {
        robustness,
        segmentation,
        tree_table,
        formula_table,
        dict: Ghost(dict),
        fdict: Ghost(fdict),
    }
}


/// `amount` alternatives to the segmentation of a non-lazy evaluation, each
/// differing in time from the ones before it by more than `tau_dif` where it
/// can, and using only choices of robustness above `rho_threshold`.
pub fn get_alternative_segmentation(
    tbt: &Tbt,
    evaluation: &mut Evaluation,
    trace: &Trace,
    tau_dif: usize,
    rho_threshold: i64,
    amount: usize,
) -> (r: Vec<(usize, Vec<Row>)>)
    requires
        old(evaluation).wf(tbt, trace, false),
    ensures
        r@.len() == amount,
        forall|k: int| 0 <= k < amount ==> rows_above((#[trigger] r@[k]).1@, rho_threshold as int),
        forall|k: int|
            0 <= k < amount ==> ((#[trigger] r@[k]).0 as int, r@[k].1@) == alternatives(
                tbt.tree,
                old(evaluation).tree_table.cells(),
                *trace,
                0,
                trace.length - 1,
                tau_dif as int,
                rho_threshold as int,
                old(evaluation).segmentation@,
                amount as nat,
            )[k],
        final(evaluation).wf(tbt, trace, false),
        final(evaluation).segmentation == old(evaluation).segmentation,
        final(evaluation).robustness == old(evaluation).robustness,
        final(evaluation).tree_table.cells() == old(evaluation).tree_table.cells(),
{
    let ghost dict = evaluation.dict@;
    let ghost fdict = evaluation.fdict@;
    let ghost before = evaluation.tree_table;
    let r = tbt.tree.get_alternative_segmentation(
        &mut evaluation.tree_table,
        &mut evaluation.formula_table,
        trace,
        0,
        trace.length - 1,
        &evaluation.segmentation,
        tau_dif,
        rho_threshold,
        amount,
        Ghost(dict),
        Ghost(fdict),
    );
    proof {
        assert forall|id: int, lo: int, hi: int| #[trigger]
            evaluation.tree_table.cell(id, lo, hi) == before.cell(id, lo, hi) by {
            assert(evaluation.tree_table.cells()(id, lo, hi) == before.cells()(id, lo, hi));
        }
    }
    r
}

} // verus!
