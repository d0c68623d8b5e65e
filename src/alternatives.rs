//! Alternative segmentations that differ in time from given ones.

use vstd::prelude::*;

use crate::behaviortree::{argmax, first_max_index, ints, TbtNode};
use crate::robustness::{min_spec, rmin, INF, MAX_TRACE_LEN, NEG_INF};
use crate::segmentation::{row, Cells, Row};
use crate::stl::{ready, rho, same_shape, Stl};
use crate::table::{keeps_filled, Table};
use crate::trace::Trace;

verus! {

/// A candidate choice: its robustness and where it points (a start point and a
/// child, a child, or a split point, by operator).
pub type Cand = (i64, (usize, usize));

pub open spec fn cand_values(s: Seq<Cand>) -> Seq<int> {
    s.map_values(|c: Cand| c.0 as int)
}

/// The candidates by decreasing robustness; equal ones keep their order.
pub open spec fn by_robustness(s: Seq<Cand>) -> Seq<Cand>
    decreases s.len(),
{
    if s.len() == 0 {
        Seq::empty()
    } else {
        let k = argmax(cand_values(s));
        if 0 <= k < s.len() {
            seq![s[k]] + by_robustness(s.remove(k))
        } else {
            s
        }
    }
}

/// The candidates whose robustness exceeds `t`, in order.
pub open spec fn above(s: Seq<Cand>, t: int) -> Seq<Cand>
    decreases s.len(),
{
    if s.len() == 0 {
        Seq::empty()
    } else if s.last().0 > t {
        above(s.drop_last(), t).push(s.last())
    } else {
        above(s.drop_last(), t)
    }
}

/// `a + b`, capped at `usize::MAX`.
pub open spec fn sat_add(a: int, b: int) -> int {
    if a + b > usize::MAX {
        usize::MAX as int
    } else {
        a + b
    }
}

/// Time distance between the window `[lo, hi]` and a row's window, capped.
pub open spec fn distance(lo: int, hi: int, r: Row) -> int {
    let d1 = if lo > r.lower { lo - r.lower } else { r.lower - lo };
    let d2 = if hi > r.upper { hi - r.upper } else { r.upper - hi };
    sat_add(d1, d2)
}

pub open spec fn opt_min(a: Option<int>, b: Option<int>) -> Option<int> {
    match (a, b) {
        (Some(x), Some(y)) => Some(min_spec(x, y)),
        (Some(x), None) => Some(x),
        (None, y) => y,
    }
}

/// Smallest time distance of `[lo, hi]` to the rows of node `id` among the first
/// `n` rows.
pub open spec fn rows_tau(id: usize, lo: int, hi: int, rows: Seq<Row>, n: int) -> Option<int>
    decreases n,
{
    if n <= 0 {
        None
    } else {
        opt_min(
            rows_tau(id, lo, hi, rows, n - 1),
            if rows[n - 1].id == id {
                Some(distance(lo, hi, rows[n - 1]))
            } else {
                None
            },
        )
    }
}

/// Smallest time distance of `[lo, hi]` to the rows of node `id` in the first
/// `n` segmentations; none where no row names the node.
pub open spec fn tau_dif(id: usize, lo: int, hi: int, segs: Seq<Seq<Row>>, n: int) -> Option<int>
    decreases n,
{
    if n <= 0 {
        None
    } else {
        opt_min(
            tau_dif(id, lo, hi, segs, n - 1),
            rows_tau(id, lo, hi, segs[n - 1], segs[n - 1].len() as int),
        )
    }
}

/// Fallback candidates: `(value, (i, j))` for each start point `i` from `i` to
/// `hi` and child `j` from `j` on whose cell on `[i, hi]` is filled.
pub open spec fn fallback_candidates(cs: Seq<TbtNode>, cells: Cells, i: int, j: int, hi: int) -> Seq<Cand>
    decreases hi + 1 - i, cs.len() - j,
{
    if i > hi || j < 0 {
        Seq::empty()
    } else if j >= cs.len() {
        fallback_candidates(cs, cells, i + 1, 0, hi)
    } else {
        match cells(cs[j].id() as int, i, hi) {
            Some(v) => seq![(v, (i as usize, j as usize))] + fallback_candidates(cs, cells, i, j + 1, hi),
            None => fallback_candidates(cs, cells, i, j + 1, hi),
        }
    }
}

/// Parallel candidates: `(value, (j, 0))` for each child from `j` on, minus
/// infinity where its cell on `[lo, hi]` is missing.
pub open spec fn parallel_choices(cs: Seq<TbtNode>, cells: Cells, j: int, lo: int, hi: int) -> Seq<Cand>
    decreases cs.len() - j,
{
    if j < 0 || j >= cs.len() {
        Seq::empty()
    } else {
        let v = match cells(cs[j].id() as int, lo, hi) {
            Some(x) => x,
            None => NEG_INF,
        };
        seq![(v, (j as usize, 0usize))] + parallel_choices(cs, cells, j + 1, lo, hi)
    }
}

/// Sequence candidates: `(value, (u, 0))` for each split point `u` from `u` to
/// `hi` whose left cell on `[lo, u]` is filled; the value is the smaller of the
/// two parts, the left alone where the right cell is missing, and a right part
/// past `hi` counts as minus infinity.
pub open spec fn split_candidates(l: nat, r: nat, cells: Cells, lo: int, u: int, hi: int) -> Seq<Cand>
    decreases hi + 1 - u,
{
    if u > hi {
        Seq::empty()
    } else {
        let rest = split_candidates(l, r, cells, lo, u + 1, hi);
        match cells(l as int, lo, u) {
            None => rest,
            Some(t1) => {
                let t2 = if u + 1 > hi {
                    Some(NEG_INF)
                } else {
                    cells(r as int, u + 1, hi)
                };
                let v = match t2 {
                    Some(x) => min_spec(t1 as int, x as int) as i64,
                    None => t1,
                };
                seq![(v, (u as usize, 0usize))] + rest
            },
        }
    }
}

/// The segmentation of `node` on `[lo, hi]` that differs in time from the
/// segmentations `segs`, using only choices of robustness above `rho_t`, with
/// its time distance: the first candidate (by decreasing robustness) whose
/// distance exceeds `tau`, else the first of the most distant ones. A node
/// whose only choice (Timeout, Kleene of level zero) is not above `rho_t`, or
/// that has no candidate at all, reports minus infinity and no subtree.
pub open spec fn restricted(
    node: TbtNode,
    cells: Cells,
    tr: Trace,
    lo: int,
    hi: int,
    tau: int,
    rho_t: int,
    segs: Seq<Seq<Row>>,
) -> (int, Seq<Row>)
    decreases node, 3int, 0int,
{
    match node {
        TbtNode::Leaf(i, f, _) => {
            let v = match cells(i as int, lo, hi) {
                Some(x) => x as int,
                None => rho(f, tr, lo, hi, false),
            };
            let t = match tau_dif(i, lo, hi, segs, segs.len() as int) {
                Some(x) => x,
                None => usize::MAX as int,
            };
            (t, seq![row(i, true, lo, hi, v)])
        },
        TbtNode::Fallback(_, cs) => {
            let cands = above(by_robustness(fallback_candidates(cs@, cells, lo, 0, hi)), rho_t);
            fallback_loop(node, cells, tr, lo, hi, tau, rho_t, segs, cands, 0, 0, Seq::empty(), NEG_INF as int, false)
        },
        TbtNode::Parallel(i, m, cs) => {
            let cands = above(by_robustness(parallel_choices(cs@, cells, 0, lo, hi)), rho_t);
            let v = if 1 <= m <= cands.len() {
                cands[m - 1].0 as int
            } else {
                NEG_INF as int
            };
            let (t, rows) = parallel_loop(
                node,
                cells,
                tr,
                lo,
                hi,
                tau,
                rho_t,
                segs,
                cands,
                0,
                min_spec(m as int, cands.len() as int),
                0,
                Seq::empty(),
            );
            (t, seq![row(i, false, lo, hi, v)] + rows)
        },
        TbtNode::Sequence(_, l, r) => {
            let cands = above(by_robustness(split_candidates(l.id(), r.id(), cells, lo, lo, hi)), rho_t);
            split_loop(node, cells, tr, lo, hi, tau, rho_t, segs, cands, 0, 0, Seq::empty(), Seq::empty(), NEG_INF as int, false)
        },
        TbtNode::Timeout(i, t, c) => {
            let end = min_spec(hi, lo + t - 1);
            let v = if lo > end {
                NEG_INF as int
            } else {
                match cells(c.id() as int, lo, end) {
                    Some(x) => x as int,
                    None => NEG_INF as int,
                }
            };
            if v > rho_t {
                let (ct, rows) = restricted(*c, cells, tr, lo, end, tau, rho_t, segs);
                (ct, seq![row(i, false, lo, hi, v)] + rows)
            } else {
                (0, seq![row(i, false, lo, hi, NEG_INF as int)])
            }
        },
        TbtNode::Kleene(i, n, next, c) => if lo <= hi && n > 0 && next is Some {
            let cands = above(by_robustness(split_candidates(c.id(), next->0.id(), cells, lo, lo, hi)), rho_t);
            split_loop(node, cells, tr, lo, hi, tau, rho_t, segs, cands, 0, 0, Seq::empty(), Seq::empty(), NEG_INF as int, false)
        } else if n == 0 && lo < hi {
            let v = match cells(c.id() as int, lo, hi) {
                Some(x) => x as int,
                None => NEG_INF as int,
            };
            if v > rho_t {
                let (ct, rows) = restricted(*c, cells, tr, lo, hi, tau, rho_t, segs);
                (ct, seq![row(i, false, lo, hi, v)] + rows)
            } else {
                (0, seq![row(i, false, lo, hi, NEG_INF as int)])
            }
        } else {
            (0, seq![row(i, false, lo, hi, INF as int)])
        },
    }
}

/// Fallback: tries the candidates from the `k`-th on; `best` is the most distant
/// one so far (the first of equal distance), with its rows and robustness, and
/// `found` tells whether there is one.
pub open spec fn fallback_loop(
    node: TbtNode,
    cells: Cells,
    tr: Trace,
    lo: int,
    hi: int,
    tau: int,
    rho_t: int,
    segs: Seq<Seq<Row>>,
    cands: Seq<Cand>,
    k: int,
    best_tau: int,
    best_rows: Seq<Row>,
    best_v: int,
    found: bool,
) -> (int, Seq<Row>)
    decreases node, 2int, cands.len() - k,
{
    match node {
        TbtNode::Fallback(i, cs) => if k < 0 || k >= cands.len() {
            (best_tau, seq![row(i, false, lo, hi, best_v)] + best_rows)
        } else {
            let (v, (b, j)) = cands[k];
            if j < cs@.len() {
                let (ct, rows) = restricted(cs@[j as int], cells, tr, b as int, hi, tau, rho_t, segs);
                if ct > tau {
                    (ct, seq![row(i, false, lo, hi, v as int)] + rows)
                } else if !found || ct > best_tau {
                    fallback_loop(node, cells, tr, lo, hi, tau, rho_t, segs, cands, k + 1, ct, rows, v as int, true)
                } else {
                    fallback_loop(node, cells, tr, lo, hi, tau, rho_t, segs, cands, k + 1, best_tau, best_rows, best_v, found)
                }
            } else {
                fallback_loop(node, cells, tr, lo, hi, tau, rho_t, segs, cands, k + 1, best_tau, best_rows, best_v, found)
            }
        },
        _ => (best_tau, best_rows),
    }
}

/// Parallel: the rows of the children `cands[k..count]` on `[lo, hi]`, with the
/// capped sum of their distances added to `acc`.
pub open spec fn parallel_loop(
    node: TbtNode,
    cells: Cells,
    tr: Trace,
    lo: int,
    hi: int,
    tau: int,
    rho_t: int,
    segs: Seq<Seq<Row>>,
    cands: Seq<Cand>,
    k: int,
    count: int,
    acc: int,
    rows: Seq<Row>,
) -> (int, Seq<Row>)
    decreases node, 2int, count - k,
{
    match node {
        TbtNode::Parallel(_, _, cs) => if k < 0 || k >= count || k >= cands.len() {
            (acc, rows)
        } else {
            let j = cands[k].1.0;
            if j < cs@.len() {
                let (ct, crows) = restricted(cs@[j as int], cells, tr, lo, hi, tau, rho_t, segs);
                parallel_loop(node, cells, tr, lo, hi, tau, rho_t, segs, cands, k + 1, count, sat_add(acc, ct), rows + crows)
            } else {
                parallel_loop(node, cells, tr, lo, hi, tau, rho_t, segs, cands, k + 1, count, acc, rows)
            }
        },
        _ => (acc, rows),
    }
}

/// Sequence (and Kleene of a positive level): tries the split points of the
/// candidates from the `k`-th on; the distance of a split is the capped sum of
/// those of its two parts.
pub open spec fn split_loop(
    node: TbtNode,
    cells: Cells,
    tr: Trace,
    lo: int,
    hi: int,
    tau: int,
    rho_t: int,
    segs: Seq<Seq<Row>>,
    cands: Seq<Cand>,
    k: int,
    best_tau: int,
    best_left: Seq<Row>,
    best_right: Seq<Row>,
    best_v: int,
    found: bool,
) -> (int, Seq<Row>)
    decreases node, 2int, cands.len() - k,
{
    match node {
        TbtNode::Sequence(i, l, r) | TbtNode::Kleene(i, _, Some(r), l) => if k < 0 || k >= cands.len() {
            (best_tau, seq![row(i, false, lo, hi, best_v)] + best_left + best_right)
        } else {
            let (v, (u, _)) = cands[k];
            let (lt, lrows) = restricted(*l, cells, tr, lo, u as int, tau, rho_t, segs);
            let (rt, rrows) = restricted(*r, cells, tr, u + 1, hi, tau, rho_t, segs);
            let sum = sat_add(lt, rt);
            if sum > tau {
                (sum, seq![row(i, false, lo, hi, v as int)] + lrows + rrows)
            } else if !found || sum > best_tau {
                split_loop(node, cells, tr, lo, hi, tau, rho_t, segs, cands, k + 1, sum, lrows, rrows, v as int, true)
            } else {
                split_loop(node, cells, tr, lo, hi, tau, rho_t, segs, cands, k + 1, best_tau, best_left, best_right, best_v, found)
            }
        },
        _ => (best_tau, best_left),
    }
}


/// The rows each segmentation of a vector holds.
pub open spec fn rows_of(segs: Seq<Vec<Row>>) -> Seq<Seq<Row>> {
    segs.map_values(|v: Vec<Row>| v@)
}

/// The first `n` alternatives to the segmentation `best`: each one restricted
/// against `best` and the alternatives before it.
pub open spec fn alternatives(
    node: TbtNode,
    cells: Cells,
    tr: Trace,
    lo: int,
    hi: int,
    tau: int,
    rho_t: int,
    best: Seq<Row>,
    n: nat,
) -> Seq<(int, Seq<Row>)>
    decreases n,
{
    if n == 0 {
        Seq::empty()
    } else {
        let prev = alternatives(node, cells, tr, lo, hi, tau, rho_t, best, (n - 1) as nat);
        let segs = seq![best] + prev.map_values(|p: (int, Seq<Row>)| p.1);
        prev.push(restricted(node, cells, tr, lo, hi, tau, rho_t, segs))
    }
}

/// Index of the first candidate of largest robustness.
fn first_max_cand(v: &Vec<Cand>) -> (r: usize)
    requires
        v@.len() >= 1,
    ensures
        r == argmax(cand_values(v@)),
        r < v@.len(),
{
    let mut vals: Vec<i64> = Vec::new();
    let mut k: usize = 0;
    while k < v.len()
        invariant
            k <= v@.len(),
            vals@.len() == k,
            forall|j: int| 0 <= j < k ==> #[trigger] vals@[j] == v@[j].0,
        decreases v@.len() - k,
    {
        vals.push(v[k].0);
        k = k + 1;
    }
    proof {
        assert(ints(vals@) =~= cand_values(v@));
    }
    first_max_index(&vals)
}

/// The candidates by decreasing robustness (see `by_robustness`).
fn rank(cands: Vec<Cand>, Ghost(bound): Ghost<int>) -> (r: Vec<Cand>)
    requires
        forall|k: int| 0 <= k < cands@.len() ==> (#[trigger] cands@[k]).1.0 <= bound,
    ensures
        r@ == by_robustness(cands@),
        forall|k: int| 0 <= k < r@.len() ==> (#[trigger] r@[k]).1.0 <= bound,
{
    let ghost all = cands@;
    let mut rest = cands;
    let mut order: Vec<Cand> = Vec::new();
    while rest.len() > 0
        invariant
            order@ + by_robustness(rest@) == by_robustness(all),
            forall|k: int| 0 <= k < rest@.len() ==> (#[trigger] rest@[k]).1.0 <= bound,
            forall|k: int| 0 <= k < order@.len() ==> (#[trigger] order@[k]).1.0 <= bound,
        decreases rest@.len(),
    {
        let k = first_max_cand(&rest);
        let ghost before = rest@;
        let ghost ob = order@;
        let x = rest.remove(k);
        order.push(x);
        proof {
            assert(cand_values(before).len() == before.len());
            assert(by_robustness(before) == seq![before[k as int]] + by_robustness(before.remove(k as int)));
            assert(order@ =~= ob + seq![before[k as int]]);
            assert(order@ + by_robustness(rest@) =~= ob + by_robustness(before));
            assert forall|j: int| 0 <= j < rest@.len() implies (#[trigger] rest@[j]).1.0 <= bound by {
                if j < k {
                    assert(rest@[j] == before[j]);
                } else {
                    assert(rest@[j] == before[j + 1]);
                }
            }
        }
    }
    proof {
        assert(by_robustness(rest@) =~= Seq::<Cand>::empty());
        assert(order@ =~= by_robustness(all));
    }
    order
}

/// The candidates whose robustness exceeds `t`, in order.
fn keep_above(cands: &Vec<Cand>, t: i64, Ghost(bound): Ghost<int>) -> (r: Vec<Cand>)
    requires
        forall|k: int| 0 <= k < cands@.len() ==> (#[trigger] cands@[k]).1.0 <= bound,
    ensures
        r@ == above(cands@, t as int),
        forall|k: int| 0 <= k < r@.len() ==> (#[trigger] r@[k]).1.0 <= bound,
{
    let mut r: Vec<Cand> = Vec::new();
    let mut k: usize = 0;
    while k < cands.len()
        invariant
            k <= cands@.len(),
            r@ == above(cands@.take(k as int), t as int),
            forall|j: int| 0 <= j < cands@.len() ==> (#[trigger] cands@[j]).1.0 <= bound,
            forall|j: int| 0 <= j < r@.len() ==> (#[trigger] r@[j]).1.0 <= bound,
        decreases cands@.len() - k,
    {
        proof {
            assert(cands@.take(k + 1).drop_last() =~= cands@.take(k as int));
        }
        let c = cands[k];
        if c.0 > t {
            r.push(c);
        }
        k = k + 1;
    }
    proof {
        assert(cands@.take(k as int) =~= cands@);
    }
    r
}

/// Fallback candidates of `node`, whose children are `cs`.
fn fallback_cands(node: &TbtNode, cs: &Vec<TbtNode>, tree_table: &mut Table, lower: usize, upper: usize) -> (r: Vec<Cand>)
    requires
        old(tree_table).wf(),
        upper < MAX_TRACE_LEN,
    ensures
        r@ == fallback_candidates(cs@, old(tree_table).cells(), lower as int, 0, upper as int),
        forall|k: int| 0 <= k < r@.len() ==> (#[trigger] r@[k]).1.0 <= upper,
        final(tree_table).wf(),
        final(tree_table).cells() == old(tree_table).cells(),
        same_shape(*old(tree_table), *final(tree_table)),
{
    let ghost cells = old(tree_table).cells();
    let ghost all = fallback_candidates(cs@, cells, lower as int, 0, upper as int);
    let mut r: Vec<Cand> = Vec::new();
    let mut i: usize = lower;
    while i <= upper
        invariant
            tree_table.wf(),
            tree_table.cells() == cells,
            same_shape(*old(tree_table), *tree_table),
            upper < MAX_TRACE_LEN,
            lower <= i,
            all == fallback_candidates(cs@, cells, lower as int, 0, upper as int),
            r@ + fallback_candidates(cs@, cells, i as int, 0, upper as int) == all,
            forall|k: int| 0 <= k < r@.len() ==> (#[trigger] r@[k]).1.0 <= upper,
        decreases upper + 1 - i,
    {
        let mut j: usize = 0;
        while j < cs.len()
            invariant
                tree_table.wf(),
                tree_table.cells() == cells,
                same_shape(*old(tree_table), *tree_table),
                upper < MAX_TRACE_LEN,
                lower <= i <= upper,
                j <= cs@.len(),
                r@ + fallback_candidates(cs@, cells, i as int, j as int, upper as int) == all,
                forall|k: int| 0 <= k < r@.len() ==> (#[trigger] r@[k]).1.0 <= upper,
            decreases cs@.len() - j,
        {
            let ghost before = r@;
            match tree_table.lookup(cs[j].get_index(), i, upper) {
                Some(v) => {
                    r.push((v, (i, j)));
                    proof {
                        assert(r@ + fallback_candidates(cs@, cells, i as int, j + 1, upper as int)
                            =~= before + fallback_candidates(cs@, cells, i as int, j as int, upper as int));
                    }
                },
                None => {},
            }
            j = j + 1;
        }
        i = i + 1;
    }
    proof {
        assert(r@ =~= all);
    }
    r
}

/// Parallel candidates of the children `cs`.
fn parallel_cands(cs: &Vec<TbtNode>, tree_table: &mut Table, lower: usize, upper: usize) -> (r: Vec<Cand>)
    requires
        old(tree_table).wf(),
    ensures
        r@ == parallel_choices(cs@, old(tree_table).cells(), 0, lower as int, upper as int),
        forall|k: int| 0 <= k < r@.len() ==> (#[trigger] r@[k]).1.0 < cs@.len(),
        final(tree_table).wf(),
        final(tree_table).cells() == old(tree_table).cells(),
        same_shape(*old(tree_table), *final(tree_table)),
{
    let ghost cells = old(tree_table).cells();
    let ghost all = parallel_choices(cs@, cells, 0, lower as int, upper as int);
    let mut r: Vec<Cand> = Vec::new();
    let mut j: usize = 0;
    while j < cs.len()
        invariant
            tree_table.wf(),
            tree_table.cells() == cells,
            same_shape(*old(tree_table), *tree_table),
            j <= cs@.len(),
            all == parallel_choices(cs@, cells, 0, lower as int, upper as int),
            r@ + parallel_choices(cs@, cells, j as int, lower as int, upper as int) == all,
            forall|k: int| 0 <= k < r@.len() ==> (#[trigger] r@[k]).1.0 < cs@.len(),
        decreases cs@.len() - j,
    {
        let ghost before = r@;
        let v = match tree_table.lookup(cs[j].get_index(), lower, upper) {
            Some(x) => x,
            None => NEG_INF,
        };
        r.push((v, (j, 0)));
        proof {
            assert(r@ + parallel_choices(cs@, cells, j + 1, lower as int, upper as int)
                =~= before + parallel_choices(cs@, cells, j as int, lower as int, upper as int));
        }
        j = j + 1;
    }
    proof {
        assert(r@ =~= all);
    }
    r
}


/// Sequence candidates for the left part `l` and the right part `r`.
fn split_cands(tree_table: &mut Table, l: usize, r: usize, lower: usize, upper: usize) -> (res: Vec<Cand>)
    requires
        old(tree_table).wf(),
        upper < MAX_TRACE_LEN,
    ensures
        res@ == split_candidates(l as nat, r as nat, old(tree_table).cells(), lower as int, lower as int, upper as int),
        forall|k: int| 0 <= k < res@.len() ==> (#[trigger] res@[k]).1.0 <= upper,
        final(tree_table).wf(),
        final(tree_table).cells() == old(tree_table).cells(),
        same_shape(*old(tree_table), *final(tree_table)),
{
    let ghost cells = old(tree_table).cells();
    let ghost all = split_candidates(l as nat, r as nat, cells, lower as int, lower as int, upper as int);
    let mut res: Vec<Cand> = Vec::new();
    let mut u: usize = lower;
    while u <= upper
        invariant
            tree_table.wf(),
            tree_table.cells() == cells,
            same_shape(*old(tree_table), *tree_table),
            upper < MAX_TRACE_LEN,
            lower <= u,
            all == split_candidates(l as nat, r as nat, cells, lower as int, lower as int, upper as int),
            res@ + split_candidates(l as nat, r as nat, cells, lower as int, u as int, upper as int) == all,
            forall|k: int| 0 <= k < res@.len() ==> (#[trigger] res@[k]).1.0 <= upper,
        decreases upper + 1 - u,
    {
        let ghost before = res@;
        match tree_table.lookup(l, lower, u) {
            None => {},
            Some(t1) => {
                let t2 = if u + 1 > upper {
                    Some(NEG_INF)
                } else {
                    tree_table.lookup(r, u + 1, upper)
                };
                let v = match t2 {
                    Some(x) => rmin(t1, x),
                    None => t1,
                };
                res.push((v, (u, 0)));
            },
        }
        proof {
            assert(res@ + split_candidates(l as nat, r as nat, cells, lower as int, u + 1, upper as int)
                =~= before + split_candidates(l as nat, r as nat, cells, lower as int, u as int, upper as int));
        }
        u = u + 1;
    }
    proof {
        assert(res@ =~= all);
    }
    res
}

/// Distance of the window to a row, capped at `usize::MAX`.
fn row_distance(lower: usize, upper: usize, r: &Row) -> (d: usize)
    ensures
        d == distance(lower as int, upper as int, *r),
{
    let lower_dif = if lower > r.lower {
        lower - r.lower
    } else {
        r.lower - lower
    };
    let upper_dif = if upper > r.upper {
        upper - r.upper
    } else {
        r.upper - upper
    };
    lower_dif.saturating_add(upper_dif)
}

fn opt_min_exec(a: Option<usize>, b: Option<usize>) -> (r: Option<usize>)
    ensures
        opt_int(r) == opt_min(opt_int(a), opt_int(b)),
{
    match (a, b) {
        (Some(x), Some(y)) => Some(if x < y { x } else { y }),
        (Some(x), None) => Some(x),
        (None, y) => y,
    }
}

pub open spec fn opt_int(o: Option<usize>) -> Option<int> {
    match o {
        Some(x) => Some(x as int),
        None => None,
    }
}

impl TbtNode {
    /// Smallest time distance of `[lower, upper]` to the rows of this node in
    /// `segmentations`; none where no row names it.
    pub fn get_tau_dif(&self, lower: usize, upper: usize, segmentations: &Vec<Vec<Row>>) -> (r: Option<usize>)
        ensures
            opt_int(r) == tau_dif(
                self.id() as usize,
                lower as int,
                upper as int,
                rows_of(segmentations@),
                segmentations@.len() as int,
            ),
    {
        let id = self.get_index();
        let ghost segs = rows_of(segmentations@);
        let mut found: Option<usize> = None;
        let mut a: usize = 0;
        while a < segmentations.len()
            invariant
                a <= segmentations@.len(),
                segs == rows_of(segmentations@),
                id == self.id(),
                opt_int(found) == tau_dif(id, lower as int, upper as int, segs, a as int),
            decreases segmentations@.len() - a,
        {
            let rows = &segmentations[a];
            let mut in_rows: Option<usize> = None;
            let mut b: usize = 0;
            while b < rows.len()
                invariant
                    b <= rows@.len(),
                    opt_int(in_rows) == rows_tau(id, lower as int, upper as int, rows@, b as int),
                decreases rows@.len() - b,
            {
                let r = &rows[b];
                let here = if r.id == id {
                    Some(row_distance(lower, upper, r))
                } else {
                    None
                };
                in_rows = opt_min_exec(in_rows, here);
                b = b + 1;
            }
            proof {
                assert(segs[a as int] == rows@);
            }
            found = opt_min_exec(found, in_rows);
            a = a + 1;
        }
        found
    }
}


impl TbtNode {
    /// A segmentation of the tree on `[lower, upper]` that differs in time from
    /// `segmentations` by more than `tau_dif` where it can, using only choices of
    /// robustness above `rho_dif` (see `restricted`), with its time distance.
    pub fn get_segmentation_under_restriction(
        &self,
        tree_table: &mut Table,
        formula_table: &mut Table,
        trace: &Trace,
        lower: usize,
        upper: usize,
        tau_dif: usize,
        rho_dif: i64,
        segmentations: &Vec<Vec<Row>>,
        Ghost(dict): Ghost<Map<nat, TbtNode>>,
        Ghost(fdict): Ghost<Map<nat, Stl>>,
    ) -> (r: (usize, Vec<Row>))
        requires
            old(tree_table).wf(),
            old(tree_table).len() == trace.length,
            ready(*old(formula_table), *trace, fdict, false),
            upper < trace.length,
            self.covered(dict, fdict),
            self.fits(old(tree_table).num_ids(), old(formula_table).num_ids(), trace.atoms@.len()),
        ensures
            (r.0 as int, r.1@) == restricted(
                *self,
                old(tree_table).cells(),
                *trace,
                lower as int,
                upper as int,
                tau_dif as int,
                rho_dif as int,
                rows_of(segmentations@),
            ),
            final(tree_table).wf(),
            final(tree_table).cells() == old(tree_table).cells(),
            same_shape(*old(tree_table), *final(tree_table)),
            ready(*final(formula_table), *trace, fdict, false),
            same_shape(*old(formula_table), *final(formula_table)),
            keeps_filled(*old(formula_table), *final(formula_table)),
        decreases *self, 3int, 0int,
    {
        let ghost cells = old(tree_table).cells();
        let ghost segs = rows_of(segmentations@);
        match self {
            TbtNode::Leaf(i, f, _) => {
                let v = match tree_table.lookup(*i, lower, upper) {
                    Some(x) => x,
                    None => f.evaluate(formula_table, trace, lower, upper, false, Ghost(fdict)),
                };
                let t = match self.get_tau_dif(lower, upper, segmentations) {
                    Some(x) => x,
                    None => usize::MAX,
                };
                let mut rows: Vec<Row> = Vec::new();
                rows.push(Row { id: *i, leaf: true, lower, upper, value: v });
                proof {
                    assert(rows@ =~= seq![row(*i, true, lower as int, upper as int, v as int)]);
                }
                (t, rows)
            },
            TbtNode::Fallback(i, cs) => {
                let all = fallback_cands(self, cs, tree_table, lower, upper);
                let ranked = rank(all, Ghost(upper as int));
                let cands = keep_above(&ranked, rho_dif, Ghost(upper as int));
                let ghost cs_seq = cands@;
                let mut best_tau: usize = 0;
                let mut best_rows: Vec<Row> = Vec::new();
                let mut best_v: i64 = NEG_INF;
                let mut found = false;
                let mut k: usize = 0;
                while k < cands.len()
                    invariant
                tree_table.wf(),
                tree_table.cells() == cells,
                cells == old(tree_table).cells(),
                same_shape(*old(tree_table), *tree_table),
                ready(*formula_table, *trace, fdict, false),
                same_shape(*old(formula_table), *formula_table),
                keeps_filled(*old(formula_table), *formula_table),
                tree_table.len() == trace.length,
                upper < trace.length,
                        *self == TbtNode::Fallback(*i, *cs),
                        self.covered(dict, fdict),
                        self.fits(old(tree_table).num_ids(), old(formula_table).num_ids(), trace.atoms@.len()),
                        segs == rows_of(segmentations@),
                        cs_seq == cands@,
                        k <= cands@.len(),
                        restricted(*self, cells, *trace, lower as int, upper as int, tau_dif as int, rho_dif as int, segs)
                            == fallback_loop(*self, cells, *trace, lower as int, upper as int, tau_dif as int, rho_dif as int,
                                segs, cs_seq, k as int, best_tau as int, best_rows@, best_v as int, found),
                    decreases cands@.len() - k,
                {
                    let (v, (b, j)) = cands[k];
                    if j < cs.len() {
                        proof {
                            assert(decreases_to!(*self => cs@[j as int]));
                        }
                        let (ct, mut rows) = cs[j].get_segmentation_under_restriction(
                            tree_table,
                            formula_table,
                            trace,
                            b,
                            upper,
                            tau_dif,
                            rho_dif,
                            segmentations,
                            Ghost(dict),
                            Ghost(fdict),
                        );
                        if ct > tau_dif {
                            let mut res: Vec<Row> = Vec::new();
                            let ghost rv = rows@;
                            res.push(Row { id: *i, leaf: false, lower, upper, value: v });
                            res.append(&mut rows);
                            proof {
                                assert(res@ =~= seq![row(*i, false, lower as int, upper as int, v as int)] + rv);
                            }
                            return (ct, res);
                        } else if !found || ct > best_tau {
                            found = true;
                            best_tau = ct;
                            best_rows = rows;
                            best_v = v;
                        }
                    }
                    k = k + 1;
                }
                let mut res: Vec<Row> = Vec::new();
                let ghost bv = best_rows@;
                res.push(Row { id: *i, leaf: false, lower, upper, value: best_v });
                res.append(&mut best_rows);
                proof {
                    assert(res@ =~= seq![row(*i, false, lower as int, upper as int, best_v as int)] + bv);
                }
                (best_tau, res)
            },
            TbtNode::Parallel(i, m, cs) => {
                let all = parallel_cands(cs, tree_table, lower, upper);
                let ranked = rank(all, Ghost(cs@.len() as int));
                let cands = keep_above(&ranked, rho_dif, Ghost(cs@.len() as int));
                let ghost cs_seq = cands@;
                let v = if 1 <= *m && *m <= cands.len() {
                    cands[*m - 1].0
                } else {
                    NEG_INF
                };
                let count = if *m <= cands.len() {
                    *m
                } else {
                    cands.len()
                };
                let mut sum_tau_dif: usize = 0;
                let mut child_rows: Vec<Row> = Vec::new();
                let mut k: usize = 0;
                while k < count
                    invariant
                tree_table.wf(),
                tree_table.cells() == cells,
                cells == old(tree_table).cells(),
                same_shape(*old(tree_table), *tree_table),
                ready(*formula_table, *trace, fdict, false),
                same_shape(*old(formula_table), *formula_table),
                keeps_filled(*old(formula_table), *formula_table),
                tree_table.len() == trace.length,
                upper < trace.length,
                        *self == TbtNode::Parallel(*i, *m, *cs),
                        self.covered(dict, fdict),
                        self.fits(old(tree_table).num_ids(), old(formula_table).num_ids(), trace.atoms@.len()),
                        segs == rows_of(segmentations@),
                        cs_seq == cands@,
                        count <= cands@.len(),
                        k <= count,
                        parallel_loop(*self, cells, *trace, lower as int, upper as int, tau_dif as int, rho_dif as int,
                            segs, cs_seq, 0, count as int, 0, Seq::empty())
                            == parallel_loop(*self, cells, *trace, lower as int, upper as int, tau_dif as int, rho_dif as int,
                                segs, cs_seq, k as int, count as int, sum_tau_dif as int, child_rows@),
                    decreases count - k,
                {
                    let j = cands[k].1.0;
                    if j < cs.len() {
                        proof {
                            assert(decreases_to!(*self => cs@[j as int]));
                        }
                        let (ct, mut rows) = cs[j].get_segmentation_under_restriction(
                            tree_table,
                            formula_table,
                            trace,
                            lower,
                            upper,
                            tau_dif,
                            rho_dif,
                            segmentations,
                            Ghost(dict),
                            Ghost(fdict),
                        );
                        sum_tau_dif = sum_tau_dif.saturating_add(ct);
                        child_rows.append(&mut rows);
                    }
                    k = k + 1;
                }
                let mut res: Vec<Row> = Vec::new();
                let ghost cv = child_rows@;
                res.push(Row { id: *i, leaf: false, lower, upper, value: v });
                res.append(&mut child_rows);
                proof {
                    assert(min_spec(*m as int, cs_seq.len() as int) == count as int);
                    assert(res@ =~= seq![row(*i, false, lower as int, upper as int, v as int)] + cv);
                }
                (sum_tau_dif, res)
            },
            TbtNode::Sequence(i, l, r) => {
                self.split_restricted(*i, l, r, tree_table, formula_table, trace, lower, upper, tau_dif, rho_dif, segmentations, Ghost(dict), Ghost(fdict))
            },
            TbtNode::Timeout(i, t, c) => {
                let end = if lower > upper || *t - 1 >= upper - lower {
                    upper
                } else {
                    lower + *t - 1
                };
                let v = if lower > end {
                    NEG_INF
                } else {
                    match tree_table.lookup_segmentation_tree(c, lower, end) {
                        Some(x) => x,
                        None => NEG_INF,
                    }
                };
                if v <= rho_dif {
                    let mut res: Vec<Row> = Vec::new();
                    res.push(Row { id: *i, leaf: false, lower, upper, value: NEG_INF });
                    proof {
                        assert(res@ =~= seq![row(*i, false, lower as int, upper as int, NEG_INF as int)]);
                    }
                    return (0, res);
                }
                let (ct, mut rows) = c.get_segmentation_under_restriction(
                    tree_table,
                    formula_table,
                    trace,
                    lower,
                    end,
                    tau_dif,
                    rho_dif,
                    segmentations,
                    Ghost(dict),
                    Ghost(fdict),
                );
                let mut res: Vec<Row> = Vec::new();
                let ghost rv = rows@;
                res.push(Row { id: *i, leaf: false, lower, upper, value: v });
                res.append(&mut rows);
                proof {
                    assert(res@ =~= seq![row(*i, false, lower as int, upper as int, v as int)] + rv);
                }
                (ct, res)
            },
            TbtNode::Kleene(i, n, next, c) => {
                if lower <= upper && *n > 0 && next.is_some() {
                    let nx: &TbtNode = match next {
                        Some(x) => x,
                        None => c,
                    };
                    self.split_restricted(*i, c, nx, tree_table, formula_table, trace, lower, upper, tau_dif, rho_dif, segmentations, Ghost(dict), Ghost(fdict))
                } else if *n == 0 && lower < upper {
                    let v = match tree_table.lookup_segmentation_tree(c, lower, upper) {
                        Some(x) => x,
                        None => NEG_INF,
                    };
                    if v <= rho_dif {
                        let mut res: Vec<Row> = Vec::new();
                        res.push(Row { id: *i, leaf: false, lower, upper, value: NEG_INF });
                        proof {
                            assert(res@ =~= seq![row(*i, false, lower as int, upper as int, NEG_INF as int)]);
                        }
                        return (0, res);
                    }
                    let (ct, mut rows) = c.get_segmentation_under_restriction(
                        tree_table,
                        formula_table,
                        trace,
                        lower,
                        upper,
                        tau_dif,
                        rho_dif,
                        segmentations,
                        Ghost(dict),
                        Ghost(fdict),
                    );
                    let mut res: Vec<Row> = Vec::new();
                    let ghost rv = rows@;
                    res.push(Row { id: *i, leaf: false, lower, upper, value: v });
                    res.append(&mut rows);
                    proof {
                        assert(res@ =~= seq![row(*i, false, lower as int, upper as int, v as int)] + rv);
                    }
                    (ct, res)
                } else {
                    let mut res: Vec<Row> = Vec::new();
                    res.push(Row { id: *i, leaf: false, lower, upper, value: INF });
                    proof {
                        assert(res@ =~= seq![row(*i, false, lower as int, upper as int, INF as int)]);
                    }
                    (0, res)
                }
            },
        }
    }

    /// The split points of Sequence (and of Kleene of a positive level), with
    /// `l` the left part and `r` the right part.
    fn split_restricted(
        &self,
        id: usize,
        l: &TbtNode,
        r: &TbtNode,
        tree_table: &mut Table,
        formula_table: &mut Table,
        trace: &Trace,
        lower: usize,
        upper: usize,
        tau_dif: usize,
        rho_dif: i64,
        segmentations: &Vec<Vec<Row>>,
        Ghost(dict): Ghost<Map<nat, TbtNode>>,
        Ghost(fdict): Ghost<Map<nat, Stl>>,
    ) -> (res: (usize, Vec<Row>))
        requires
            match *self {
                TbtNode::Sequence(i, a, b) => i == id && *a == *l && *b == *r,
                TbtNode::Kleene(i, n, Some(nx), c) => i == id && *c == *l && *nx == *r && lower <= upper && n > 0,
                _ => false,
            },
            old(tree_table).wf(),
            old(tree_table).len() == trace.length,
            ready(*old(formula_table), *trace, fdict, false),
            upper < trace.length,
            l.covered(dict, fdict),
            r.covered(dict, fdict),
            l.fits(old(tree_table).num_ids(), old(formula_table).num_ids(), trace.atoms@.len()),
            r.fits(old(tree_table).num_ids(), old(formula_table).num_ids(), trace.atoms@.len()),
        ensures
            (res.0 as int, res.1@) == restricted(
                *self,
                old(tree_table).cells(),
                *trace,
                lower as int,
                upper as int,
                tau_dif as int,
                rho_dif as int,
                rows_of(segmentations@),
            ),
            final(tree_table).wf(),
            final(tree_table).cells() == old(tree_table).cells(),
            same_shape(*old(tree_table), *final(tree_table)),
            ready(*final(formula_table), *trace, fdict, false),
            same_shape(*old(formula_table), *final(formula_table)),
            keeps_filled(*old(formula_table), *final(formula_table)),
        decreases *self, 2int, 0int,
    {
        let ghost cells = old(tree_table).cells();
        let ghost segs = rows_of(segmentations@);
        proof {
            assert(decreases_to!(*self => *l));
            assert(decreases_to!(*self => *r));
        }
        let all = split_cands(tree_table, l.get_index(), r.get_index(), lower, upper);
        let ranked = rank(all, Ghost(upper as int));
        let cands = keep_above(&ranked, rho_dif, Ghost(upper as int));
        let ghost cs_seq = cands@;
        let mut best_tau: usize = 0;
        let mut best_left: Vec<Row> = Vec::new();
        let mut best_right: Vec<Row> = Vec::new();
        let mut best_v: i64 = NEG_INF;
        let mut found = false;
        let mut k: usize = 0;
        while k < cands.len()
            invariant
                tree_table.wf(),
                tree_table.cells() == cells,
                cells == old(tree_table).cells(),
                same_shape(*old(tree_table), *tree_table),
                ready(*formula_table, *trace, fdict, false),
                same_shape(*old(formula_table), *formula_table),
                keeps_filled(*old(formula_table), *formula_table),
                tree_table.len() == trace.length,
                upper < trace.length,
                match *self {
                    TbtNode::Sequence(i, a, b) => i == id && *a == *l && *b == *r,
                    TbtNode::Kleene(i, n, Some(nx), c) => i == id && *c == *l && *nx == *r && lower <= upper && n > 0,
                    _ => false,
                },
                decreases_to!(*self => *l),
                decreases_to!(*self => *r),
                l.covered(dict, fdict),
                r.covered(dict, fdict),
                l.fits(old(tree_table).num_ids(), old(formula_table).num_ids(), trace.atoms@.len()),
                r.fits(old(tree_table).num_ids(), old(formula_table).num_ids(), trace.atoms@.len()),
                segs == rows_of(segmentations@),
                cs_seq == cands@,
                forall|j: int| 0 <= j < cands@.len() ==> (#[trigger] cands@[j]).1.0 <= upper,
                k <= cands@.len(),
                restricted(*self, cells, *trace, lower as int, upper as int, tau_dif as int, rho_dif as int, segs)
                    == split_loop(*self, cells, *trace, lower as int, upper as int, tau_dif as int, rho_dif as int,
                        segs, cs_seq, k as int, best_tau as int, best_left@, best_right@, best_v as int, found),
            decreases cands@.len() - k,
        {
            let (v, (u, _)) = cands[k];
            let (lt, mut lrows) = l.get_segmentation_under_restriction(
                tree_table,
                formula_table,
                trace,
                lower,
                u,
                tau_dif,
                rho_dif,
                segmentations,
                Ghost(dict),
                Ghost(fdict),
            );
            let (rt, mut rrows) = r.get_segmentation_under_restriction(
                tree_table,
                formula_table,
                trace,
                u + 1,
                upper,
                tau_dif,
                rho_dif,
                segmentations,
                Ghost(dict),
                Ghost(fdict),
            );
            let sum = lt.saturating_add(rt);
            if sum > tau_dif {
                let mut res: Vec<Row> = Vec::new();
                let ghost lv = lrows@;
                let ghost rv = rrows@;
                res.push(Row { id, leaf: false, lower, upper, value: v });
                res.append(&mut lrows);
                res.append(&mut rrows);
                proof {
                    assert(res@ =~= seq![row(id, false, lower as int, upper as int, v as int)] + lv + rv);
                }
                return (sum, res);
            } else if !found || sum > best_tau {
                found = true;
                best_tau = sum;
                best_left = lrows;
                best_right = rrows;
                best_v = v;
            }
            k = k + 1;
        }
        let mut res: Vec<Row> = Vec::new();
        let ghost lv = best_left@;
        let ghost rv = best_right@;
        res.push(Row { id, leaf: false, lower, upper, value: best_v });
        res.append(&mut best_left);
        res.append(&mut best_right);
        proof {
            assert(res@ =~= seq![row(id, false, lower as int, upper as int, best_v as int)] + lv + rv);
        }
        (best_tau, res)
    }
}


/// A copy of a list of rows.
fn copy_rows(rows: &Vec<Row>) -> (r: Vec<Row>)
    ensures
        r@ == rows@,
{
    let mut r: Vec<Row> = Vec::new();
    let mut k: usize = 0;
    while k < rows.len()
        invariant
            k <= rows@.len(),
            r@ == rows@.take(k as int),
        decreases rows@.len() - k,
    {
        r.push(rows[k]);
        k = k + 1;
        proof {
            assert(r@ =~= rows@.take(k as int));
        }
    }
    proof {
        assert(rows@.take(k as int) =~= rows@);
    }
    r
}

impl TbtNode {
    /// `number` alternatives to `best_segmentation` on `[lower, upper]`, each
    /// restricted against the best one and the alternatives found before it.
    pub fn get_alternative_segmentation(
        &self,
        tree_table: &mut Table,
        formula_table: &mut Table,
        trace: &Trace,
        lower: usize,
        upper: usize,
        best_segmentation: &Vec<Row>,
        tau_dif: usize,
        rho_dif: i64,
        number: usize,
        Ghost(dict): Ghost<Map<nat, TbtNode>>,
        Ghost(fdict): Ghost<Map<nat, Stl>>,
    ) -> (r: Vec<(usize, Vec<Row>)>)
        requires
            old(tree_table).wf(),
            old(tree_table).len() == trace.length,
            ready(*old(formula_table), *trace, fdict, false),
            upper < trace.length,
            self.covered(dict, fdict),
            self.fits(old(tree_table).num_ids(), old(formula_table).num_ids(), trace.atoms@.len()),
        ensures
            r@.len() == number,
            forall|k: int| 0 <= k < number ==> rows_above((#[trigger] r@[k]).1@, rho_dif as int),
            forall|k: int|
                0 <= k < number ==> ((#[trigger] r@[k]).0 as int, r@[k].1@) == alternatives(
                    *self,
                    old(tree_table).cells(),
                    *trace,
                    lower as int,
                    upper as int,
                    tau_dif as int,
                    rho_dif as int,
                    best_segmentation@,
                    number as nat,
                )[k],
            final(tree_table).wf(),
            final(tree_table).cells() == old(tree_table).cells(),
            same_shape(*old(tree_table), *final(tree_table)),
            ready(*final(formula_table), *trace, fdict, false),
            same_shape(*old(formula_table), *final(formula_table)),
            keeps_filled(*old(formula_table), *final(formula_table)),
    {
        let ghost cells = old(tree_table).cells();
        let ghost best = best_segmentation@;
        let mut res_segmentation: Vec<(usize, Vec<Row>)> = Vec::new();
        let mut segmentations: Vec<Vec<Row>> = Vec::new();
        segmentations.push(copy_rows(best_segmentation));
        let mut i: usize = 0;
        while i < number
            invariant
                tree_table.wf(),
                tree_table.cells() == cells,
                cells == old(tree_table).cells(),
                same_shape(*old(tree_table), *tree_table),
                ready(*formula_table, *trace, fdict, false),
                same_shape(*old(formula_table), *formula_table),
                keeps_filled(*old(formula_table), *formula_table),
                tree_table.len() == trace.length,
                upper < trace.length,
                self.covered(dict, fdict),
                self.fits(old(tree_table).num_ids(), old(formula_table).num_ids(), trace.atoms@.len()),
                best == best_segmentation@,
                i <= number,
                res_segmentation@.len() == i,
                forall|k: int| 0 <= k < i ==> rows_above((#[trigger] res_segmentation@[k]).1@, rho_dif as int),
                segmentations@.len() == i + 1,
                rows_of(segmentations@) == seq![best] + alternatives(
                    *self, cells, *trace, lower as int, upper as int, tau_dif as int, rho_dif as int, best, i as nat,
                ).map_values(|p: (int, Seq<Row>)| p.1),
                forall|k: int|
                    0 <= k < i ==> ((#[trigger] res_segmentation@[k]).0 as int, res_segmentation@[k].1@)
                        == alternatives(*self, cells, *trace, lower as int, upper as int, tau_dif as int,
                            rho_dif as int, best, i as nat)[k],
            decreases number - i,
        {
            let ghost prev = alternatives(*self, cells, *trace, lower as int, upper as int, tau_dif as int, rho_dif as int, best, i as nat);
            let ghost segs_now = segmentations@;
            let segmentation = self.get_segmentation_under_restriction(
                tree_table,
                formula_table,
                trace,
                lower,
                upper,
                tau_dif,
                rho_dif,
                &segmentations,
                Ghost(dict),
                Ghost(fdict),
            );
            let ghost next = alternatives(*self, cells, *trace, lower as int, upper as int, tau_dif as int, rho_dif as int, best, (i + 1) as nat);
            proof {
                assert(next == prev.push((segmentation.0 as int, segmentation.1@)));
                lemma_restricted_rows_above(*self, cells, *trace, lower as int, upper as int, tau_dif as int,
                    rho_dif as int, rows_of(segs_now));
            }
            let ghost segs_before = segmentations@;
            segmentations.push(copy_rows(&segmentation.1));
            let ghost old_res = res_segmentation@;
            res_segmentation.push(segmentation);
            proof {
                assert(rows_of(segmentations@) =~= rows_of(segs_before).push(segmentation.1@));
                assert(next.map_values(|p: (int, Seq<Row>)| p.1) =~= prev.map_values(|p: (int, Seq<Row>)| p.1).push(segmentation.1@));
                assert(rows_of(segmentations@) =~= seq![best] + next.map_values(|p: (int, Seq<Row>)| p.1));
                assert forall|k: int| 0 <= k < i + 1 implies rows_above((#[trigger] res_segmentation@[k]).1@, rho_dif as int) by {
                    if k < i {
                        assert(res_segmentation@[k] == old_res[k]);
                    }
                }
                assert forall|k: int| 0 <= k < i + 1 implies ((#[trigger] res_segmentation@[k]).0 as int, res_segmentation@[k].1@)
                    == next[k] by {
                    if k < i {
                        assert(next[k] == prev[k]);
                    }
                }
            }
            i = i + 1;
        }
        res_segmentation
    }
}


/// Every row either belongs to a leaf, or reports a choice of robustness above
/// `t`, or minus infinity (no such choice), or plus infinity (a vacuous Kleene
/// node).
pub open spec fn rows_above(rows: Seq<Row>, t: int) -> bool {
    forall|k: int|
        0 <= k < rows.len() ==> (#[trigger] rows[k]).leaf || rows[k].value as int > t || rows[k].value
            == NEG_INF || rows[k].value == INF
}

proof fn lemma_above_exceeds(s: Seq<Cand>, t: int)
    ensures
        forall|k: int| 0 <= k < above(s, t).len() ==> (#[trigger] above(s, t)[k]).0 as int > t,
    decreases s.len(),
{
    if s.len() > 0 {
        lemma_above_exceeds(s.drop_last(), t);
        let prev = above(s.drop_last(), t);
        if s.last().0 > t {
            assert forall|k: int| 0 <= k < above(s, t).len() implies (#[trigger] above(s, t)[k]).0 as int > t by {
                if k < prev.len() {
                    assert(above(s, t)[k] == prev[k]);
                }
            }
        }
    }
}

proof fn lemma_rows_above_concat(a: Seq<Row>, b: Seq<Row>, t: int)
    requires
        rows_above(a, t),
        rows_above(b, t),
    ensures
        rows_above(a + b, t),
{
    assert forall|k: int| 0 <= k < (a + b).len() implies (#[trigger] (a + b)[k]).leaf || (a + b)[k].value as int > t
        || (a + b)[k].value == NEG_INF || (a + b)[k].value == INF by {
        if k < a.len() {
            assert((a + b)[k] == a[k]);
        } else {
            assert((a + b)[k] == b[k - a.len()]);
        }
    }
}

/// The choices an alternative segmentation reports stay above the threshold:
/// each row of `restricted` belongs to a leaf, reports a robustness above
/// `rho_t`, or reports minus infinity where no choice above `rho_t` exists (plus
/// infinity for a vacuous Kleene node).
pub proof fn lemma_restricted_rows_above(
    node: TbtNode,
    cells: Cells,
    tr: Trace,
    lo: int,
    hi: int,
    tau: int,
    rho_t: int,
    segs: Seq<Seq<Row>>,
)
    ensures
        rows_above(restricted(node, cells, tr, lo, hi, tau, rho_t, segs).1, rho_t),
    decreases node, 3int, 0int,
{
    match node {
        TbtNode::Leaf(_, _, _) => {},
        TbtNode::Fallback(_, cs) => {
            let cands = above(by_robustness(fallback_candidates(cs@, cells, lo, 0, hi)), rho_t);
            lemma_above_exceeds(by_robustness(fallback_candidates(cs@, cells, lo, 0, hi)), rho_t);
            lemma_fallback_loop_rows(node, cells, tr, lo, hi, tau, rho_t, segs, cands, 0, 0, Seq::empty(), NEG_INF as int, false);
        },
        TbtNode::Parallel(i, m, cs) => {
            let cands = above(by_robustness(parallel_choices(cs@, cells, 0, lo, hi)), rho_t);
            lemma_above_exceeds(by_robustness(parallel_choices(cs@, cells, 0, lo, hi)), rho_t);
            let count = min_spec(m as int, cands.len() as int);
            lemma_parallel_loop_rows(node, cells, tr, lo, hi, tau, rho_t, segs, cands, 0, count, 0, Seq::empty());
            let v = if 1 <= m <= cands.len() {
                cands[m - 1].0 as int
            } else {
                NEG_INF as int
            };
            let head = seq![row(i, false, lo, hi, v)];
            assert(rows_above(head, rho_t));
            lemma_rows_above_concat(head, parallel_loop(node, cells, tr, lo, hi, tau, rho_t, segs, cands, 0, count, 0, Seq::empty()).1, rho_t);
        },
        TbtNode::Sequence(_, l, r) => {
            let raw = by_robustness(split_candidates(l.id(), r.id(), cells, lo, lo, hi));
            lemma_above_exceeds(raw, rho_t);
            lemma_split_loop_rows(node, cells, tr, lo, hi, tau, rho_t, segs, above(raw, rho_t), 0, 0, Seq::empty(), Seq::empty(), NEG_INF as int, false);
        },
        TbtNode::Timeout(i, t, c) => {
            let end = min_spec(hi, lo + t - 1);
            lemma_restricted_rows_above(*c, cells, tr, lo, end, tau, rho_t, segs);
            let v = if lo > end {
                NEG_INF as int
            } else {
                match cells(c.id() as int, lo, end) {
                    Some(x) => x as int,
                    None => NEG_INF as int,
                }
            };
            if v > rho_t {
                let head = seq![row(i, false, lo, hi, v)];
                assert(rows_above(head, rho_t));
                lemma_rows_above_concat(head, restricted(*c, cells, tr, lo, end, tau, rho_t, segs).1, rho_t);
            }
        },
        TbtNode::Kleene(i, n, next, c) => if lo <= hi && n > 0 && next is Some {
            let raw = by_robustness(split_candidates(c.id(), next->0.id(), cells, lo, lo, hi));
            lemma_above_exceeds(raw, rho_t);
            lemma_split_loop_rows(node, cells, tr, lo, hi, tau, rho_t, segs, above(raw, rho_t), 0, 0, Seq::empty(), Seq::empty(), NEG_INF as int, false);
        } else if n == 0 && lo < hi {
            lemma_restricted_rows_above(*c, cells, tr, lo, hi, tau, rho_t, segs);
            let v = match cells(c.id() as int, lo, hi) {
                Some(x) => x as int,
                None => NEG_INF as int,
            };
            if v > rho_t {
                let head = seq![row(i, false, lo, hi, v)];
                assert(rows_above(head, rho_t));
                lemma_rows_above_concat(head, restricted(*c, cells, tr, lo, hi, tau, rho_t, segs).1, rho_t);
            }
        },
    }
}

proof fn lemma_fallback_loop_rows(
    node: TbtNode,
    cells: Cells,
    tr: Trace,
    lo: int,
    hi: int,
    tau: int,
    rho_t: int,
    segs: Seq<Seq<Row>>,
    cands: Seq<Cand>,
    k: int,
    best_tau: int,
    best_rows: Seq<Row>,
    best_v: int,
    found: bool,
)
    requires
        forall|x: int| 0 <= x < cands.len() ==> (#[trigger] cands[x]).0 as int > rho_t,
        rows_above(best_rows, rho_t),
        best_v == NEG_INF || (i64::MIN <= best_v <= i64::MAX && best_v > rho_t),
    ensures
        rows_above(fallback_loop(node, cells, tr, lo, hi, tau, rho_t, segs, cands, k, best_tau, best_rows, best_v, found).1, rho_t),
    decreases node, 2int, cands.len() - k,
{
    match node {
        TbtNode::Fallback(i, cs) => if k < 0 || k >= cands.len() {
            let head = seq![row(i, false, lo, hi, best_v)];
            assert(rows_above(head, rho_t));
            lemma_rows_above_concat(head, best_rows, rho_t);
        } else {
            let (v, (b, j)) = cands[k];
            if j < cs@.len() {
                lemma_restricted_rows_above(cs@[j as int], cells, tr, b as int, hi, tau, rho_t, segs);
                let (ct, rows) = restricted(cs@[j as int], cells, tr, b as int, hi, tau, rho_t, segs);
                if ct > tau {
                    let head = seq![row(i, false, lo, hi, v as int)];
                    assert(rows_above(head, rho_t));
                    lemma_rows_above_concat(head, rows, rho_t);
                } else if !found || ct > best_tau {
                    lemma_fallback_loop_rows(node, cells, tr, lo, hi, tau, rho_t, segs, cands, k + 1, ct, rows, v as int, true);
                } else {
                    lemma_fallback_loop_rows(node, cells, tr, lo, hi, tau, rho_t, segs, cands, k + 1, best_tau, best_rows, best_v, found);
                }
            } else {
                lemma_fallback_loop_rows(node, cells, tr, lo, hi, tau, rho_t, segs, cands, k + 1, best_tau, best_rows, best_v, found);
            }
        },
        _ => {},
    }
}

proof fn lemma_parallel_loop_rows(
    node: TbtNode,
    cells: Cells,
    tr: Trace,
    lo: int,
    hi: int,
    tau: int,
    rho_t: int,
    segs: Seq<Seq<Row>>,
    cands: Seq<Cand>,
    k: int,
    count: int,
    acc: int,
    rows: Seq<Row>,
)
    requires
        rows_above(rows, rho_t),
    ensures
        rows_above(parallel_loop(node, cells, tr, lo, hi, tau, rho_t, segs, cands, k, count, acc, rows).1, rho_t),
    decreases node, 2int, count - k,
{
    match node {
        TbtNode::Parallel(_, _, cs) => if !(k < 0 || k >= count || k >= cands.len()) {
            let j = cands[k].1.0;
            if j < cs@.len() {
                lemma_restricted_rows_above(cs@[j as int], cells, tr, lo, hi, tau, rho_t, segs);
                let (ct, crows) = restricted(cs@[j as int], cells, tr, lo, hi, tau, rho_t, segs);
                lemma_rows_above_concat(rows, crows, rho_t);
                lemma_parallel_loop_rows(node, cells, tr, lo, hi, tau, rho_t, segs, cands, k + 1, count, sat_add(acc, ct), rows + crows);
            } else {
                lemma_parallel_loop_rows(node, cells, tr, lo, hi, tau, rho_t, segs, cands, k + 1, count, acc, rows);
            }
        },
        _ => {},
    }
}

proof fn lemma_split_loop_rows(
    node: TbtNode,
    cells: Cells,
    tr: Trace,
    lo: int,
    hi: int,
    tau: int,
    rho_t: int,
    segs: Seq<Seq<Row>>,
    cands: Seq<Cand>,
    k: int,
    best_tau: int,
    best_left: Seq<Row>,
    best_right: Seq<Row>,
    best_v: int,
    found: bool,
)
    requires
        forall|x: int| 0 <= x < cands.len() ==> (#[trigger] cands[x]).0 as int > rho_t,
        rows_above(best_left, rho_t),
        rows_above(best_right, rho_t),
        best_v == NEG_INF || (i64::MIN <= best_v <= i64::MAX && best_v > rho_t),
    ensures
        rows_above(split_loop(node, cells, tr, lo, hi, tau, rho_t, segs, cands, k, best_tau, best_left, best_right, best_v, found).1, rho_t),
    decreases node, 2int, cands.len() - k,
{
    match node {
        TbtNode::Sequence(i, l, r) | TbtNode::Kleene(i, _, Some(r), l) => if k < 0 || k >= cands.len() {
            let head = seq![row(i, false, lo, hi, best_v)];
            assert(rows_above(head, rho_t));
            lemma_rows_above_concat(head, best_left, rho_t);
            lemma_rows_above_concat(head + best_left, best_right, rho_t);
        } else {
            let (v, (u, _)) = cands[k];
            lemma_restricted_rows_above(*l, cells, tr, lo, u as int, tau, rho_t, segs);
            lemma_restricted_rows_above(*r, cells, tr, u + 1, hi, tau, rho_t, segs);
            let (lt, lrows) = restricted(*l, cells, tr, lo, u as int, tau, rho_t, segs);
            let (rt, rrows) = restricted(*r, cells, tr, u + 1, hi, tau, rho_t, segs);
            let sum = sat_add(lt, rt);
            if sum > tau {
                let head = seq![row(i, false, lo, hi, v as int)];
                assert(rows_above(head, rho_t));
                lemma_rows_above_concat(head, lrows, rho_t);
                lemma_rows_above_concat(head + lrows, rrows, rho_t);
            } else if !found || sum > best_tau {
                lemma_split_loop_rows(node, cells, tr, lo, hi, tau, rho_t, segs, cands, k + 1, sum, lrows, rrows, v as int, true);
            } else {
                lemma_split_loop_rows(node, cells, tr, lo, hi, tau, rho_t, segs, cands, k + 1, best_tau, best_left, best_right, best_v, found);
            }
        },
        _ => {},
    }
}

} // verus!
