//! The segmentation that realizes the robustness of a tree, read from its
//! filled table.

use vstd::prelude::*;

use crate::behaviortree::{argmax, first_max_index, ints, TbtNode};
use crate::robustness::{min_spec, rmin, INF, MAX_TRACE_LEN, NEG_INF};
use crate::stl::{ready, rho, same_shape, Stl};
use crate::table::{keeps_filled, Table};
use crate::trace::Trace;

verus! {

/// One row of a segmentation: the node `id` (a leaf or not) is explained by
/// the window `[lower, upper]` with robustness `value`.
#[derive(Clone, Copy)]
pub struct Row {
    pub id: usize,
    pub leaf: bool,
    pub lower: usize,
    pub upper: usize,
    pub value: i64,
}

pub open spec fn row(id: usize, leaf: bool, lo: int, hi: int, v: int) -> Row {
    Row { id, leaf, lower: lo as usize, upper: hi as usize, value: v as i64 }
}

/// A table's cells, by `(id, lo, hi)`.
pub type Cells = spec_fn(int, int, int) -> Option<i64>;

/// Fallback: among the filled pairs of start point `i` in `[i, hi]` and child
/// `j`, in that order, the first of largest stored value, as
/// `(v, begin, child)`; `pick` is `-1` while no pair was seen, and a later pair
/// replaces the one seen only with a strictly larger value.
pub open spec fn fallback_pick(
    node: TbtNode,
    cells: Cells,
    i: int,
    j: int,
    hi: int,
    v: int,
    begin: int,
    pick: int,
) -> (int, int, int)
    decreases hi + 1 - i, (match node {
        TbtNode::Fallback(_, cs) => cs@.len() - j,
        _ => 0,
    }),
{
    match node {
        TbtNode::Fallback(_, cs) => if i > hi || j < 0 {
            (v, begin, pick)
        } else if j >= cs@.len() {
            fallback_pick(node, cells, i + 1, 0, hi, v, begin, pick)
        } else {
            match cells(cs@[j].id() as int, i, hi) {
                Some(s) => if pick < 0 || s > v {
                    fallback_pick(node, cells, i, j + 1, hi, s as int, i, j)
                } else {
                    fallback_pick(node, cells, i, j + 1, hi, v, begin, pick)
                },
                None => fallback_pick(node, cells, i, j + 1, hi, v, begin, pick),
            }
        },
        _ => (v, begin, pick),
    }
}

/// Stored value of child `j` of a Fallback node started at `i`, on `[i, hi]`.
pub open spec fn start_value(node: TbtNode, cells: Cells, i: int, j: int, hi: int) -> Option<i64> {
    match node {
        TbtNode::Fallback(_, cs) => if 0 <= j < cs@.len() {
            cells(cs@[j].id() as int, i, hi)
        } else {
            None
        },
        _ => None,
    }
}

/// The pair `(a, c)` comes at or after `(i, j)` in the scan order of Fallback:
/// by start point, then by child.
pub open spec fn at_or_after(a: int, c: int, i: int, j: int) -> bool {
    a > i || (a == i && c >= j)
}

proof fn lemma_fallback_pick_step(
    node: TbtNode,
    cells: Cells,
    i: int,
    j: int,
    hi: int,
    v: int,
    begin: int,
    pick: int,
)
    requires
        node is Fallback,
        j >= 0,
    ensures
        ({
            let (v2, b2, p2) = fallback_pick(node, cells, i, j, hi, v, begin, pick);
            &&& forall|a: int, c: int|
                at_or_after(a, c, i, j) && a <= hi && #[trigger] start_value(node, cells, a, c, hi) is Some
                    ==> start_value(node, cells, a, c, hi)->Some_0 as int <= v2
            &&& pick >= 0 ==> v <= v2
            &&& (pick >= 0 && b2 == begin && p2 == pick && v2 == v) || (at_or_after(b2, p2, i, j) && b2 <= hi
                && start_value(node, cells, b2, p2, hi) is Some && start_value(node, cells, b2, p2, hi)->Some_0
                as int == v2 && p2 >= 0 && (pick >= 0 ==> v < v2) && forall|a: int, c: int|
                at_or_after(a, c, i, j) && !at_or_after(a, c, b2, p2) && #[trigger] start_value(
                    node,
                    cells,
                    a,
                    c,
                    hi,
                ) is Some ==> start_value(node, cells, a, c, hi)->Some_0 < v2) || (pick < 0 && b2 == begin
                && p2 == pick && v2 == v && forall|a: int, c: int|
                at_or_after(a, c, i, j) && a <= hi ==> #[trigger] start_value(node, cells, a, c, hi) is None)
        }),
    decreases hi + 1 - i, node->Fallback_1@.len() - j,
{
    let cs = node->Fallback_1;
    if i <= hi {
        if j >= cs@.len() {
            lemma_fallback_pick_step(node, cells, i + 1, 0, hi, v, begin, pick);
        } else {
            match cells(cs@[j].id() as int, i, hi) {
                Some(s) => if pick < 0 || s > v {
                    lemma_fallback_pick_step(node, cells, i, j + 1, hi, s as int, i, j);
                } else {
                    lemma_fallback_pick_step(node, cells, i, j + 1, hi, v, begin, pick);
                },
                None => {
                    lemma_fallback_pick_step(node, cells, i, j + 1, hi, v, begin, pick);
                },
            }
        }
    }
}

/// The start point and child that Fallback segmentation picks realize the
/// largest stored value, and come first in scan order among those that do;
/// where no cell is filled no child is picked.
pub proof fn lemma_fallback_pick(node: TbtNode, cells: Cells, lo: int, hi: int)
    requires
        node is Fallback,
    ensures
        ({
            let (v, begin, pick) = fallback_pick(node, cells, lo, 0, hi, NEG_INF as int, lo, -1);
            ||| (lo <= begin <= hi && start_value(node, cells, begin, pick, hi) is Some
                && start_value(node, cells, begin, pick, hi)->Some_0 as int == v && (forall|a: int, c: int|
                lo <= a <= hi && #[trigger] start_value(node, cells, a, c, hi) is Some
                    ==> start_value(node, cells, a, c, hi)->Some_0 as int <= v) && forall|a: int, c: int|
                lo <= a && !at_or_after(a, c, begin, pick) && #[trigger] start_value(node, cells, a, c, hi) is Some
                    ==> start_value(node, cells, a, c, hi)->Some_0 < v)
            ||| (pick == -1 && forall|a: int, c: int|
                lo <= a <= hi ==> #[trigger] start_value(node, cells, a, c, hi) is None)
        }),
{
    lemma_fallback_pick_step(node, cells, lo, 0, hi, NEG_INF as int, lo, -1);
    let (v, begin, pick) = fallback_pick(node, cells, lo, 0, hi, NEG_INF as int, lo, -1);
    assert forall|a: int, c: int| lo <= a <= hi && #[trigger] start_value(node, cells, a, c, hi) is Some
        implies at_or_after(a, c, lo, 0) by {}
}

/// Value of the split point `u` of a Sequence on `[lo, hi]`: the smaller stored
/// value of the left part `l` on `[lo, u]` and the right part `r` on
/// `[u + 1, hi]`. A right part past `hi` counts as minus infinity. A split point
/// whose left value is missing is passed over (none), and so is one whose right
/// value is missing under lazy evaluation; otherwise a missing right value
/// counts as minus infinity.
pub open spec fn split_value(l: nat, r: nat, cells: Cells, lo: int, u: int, hi: int, lazy: bool) -> Option<int> {
    match cells(l as int, lo, u) {
        None => None,
        Some(t1) => {
            let t2 = if u + 1 > hi {
                Some(NEG_INF)
            } else {
                cells(r as int, u + 1, hi)
            };
            if t2 is None && lazy {
                None
            } else {
                Some(
                    min_spec(
                        t1 as int,
                        match t2 {
                            Some(x) => x as int,
                            None => NEG_INF as int,
                        },
                    ),
                )
            }
        },
    }
}

/// Sequence: scans the split points from `u` to `hi`; `(v, split)` is the best
/// seen so far, `found` whether there is one, and a later split point replaces
/// it only with a strictly larger value (see `lemma_sequence_pick`). `split`
/// stays `hi` where no split point has a value.
pub open spec fn sequence_pick(
    l: nat,
    r: nat,
    cells: Cells,
    lo: int,
    u: int,
    hi: int,
    lazy: bool,
    v: int,
    split: int,
    found: bool,
) -> (int, int)
    decreases hi + 1 - u,
{
    if u > hi {
        (v, split)
    } else {
        match split_value(l, r, cells, lo, u, hi, lazy) {
            None => sequence_pick(l, r, cells, lo, u + 1, hi, lazy, v, split, found),
            Some(m) => if !found || m > v {
                sequence_pick(l, r, cells, lo, u + 1, hi, lazy, m, u, true)
            } else {
                sequence_pick(l, r, cells, lo, u + 1, hi, lazy, v, split, found)
            },
        }
    }
}

proof fn lemma_sequence_pick_step(
    l: nat,
    r: nat,
    cells: Cells,
    lo: int,
    u: int,
    hi: int,
    lazy: bool,
    v: int,
    split: int,
    found: bool,
)
    ensures
        ({
            let (v2, s2) = sequence_pick(l, r, cells, lo, u, hi, lazy, v, split, found);
            &&& forall|w: int| u <= w <= hi && #[trigger] split_value(l, r, cells, lo, w, hi, lazy) is Some
                ==> split_value(l, r, cells, lo, w, hi, lazy)->Some_0 <= v2
            &&& found ==> v <= v2
            &&& (found && s2 == split && v2 == v) || (u <= s2 <= hi && split_value(l, r, cells, lo, s2, hi, lazy)
                == Some(v2) && (found ==> v < v2) && forall|w: int| u <= w < s2 && #[trigger] split_value(l, r, cells, lo, w, hi, lazy) is Some
                ==> split_value(l, r, cells, lo, w, hi, lazy)->Some_0 < v2)
                || (!found && s2 == split && v2 == v && forall|w: int| u <= w <= hi ==> #[trigger] split_value(l, r, cells, lo, w, hi, lazy) is None)
        }),
    decreases hi + 1 - u,
{
    if u <= hi {
        match split_value(l, r, cells, lo, u, hi, lazy) {
            None => {
                lemma_sequence_pick_step(l, r, cells, lo, u + 1, hi, lazy, v, split, found);
            },
            Some(m) => if !found || m > v {
                lemma_sequence_pick_step(l, r, cells, lo, u + 1, hi, lazy, m, u, true);
            } else {
                lemma_sequence_pick_step(l, r, cells, lo, u + 1, hi, lazy, v, split, found);
            },
        }
    }
}

/// The split point that Sequence segmentation picks realizes the largest split
/// value, and is the smallest split point that does; where no split point has a
/// value the split is `hi` and the value minus infinity.
pub proof fn lemma_sequence_pick(l: nat, r: nat, cells: Cells, lo: int, hi: int, lazy: bool)
    ensures
        ({
            let (v, split) = sequence_pick(l, r, cells, lo, lo, hi, lazy, NEG_INF as int, hi, false);
            ||| (lo <= split <= hi && split_value(l, r, cells, lo, split, hi, lazy) == Some(v)
                && (forall|w: int| lo <= w <= hi && #[trigger] split_value(l, r, cells, lo, w, hi, lazy) is Some
                ==> split_value(l, r, cells, lo, w, hi, lazy)->Some_0 <= v)
                && forall|w: int| lo <= w < split && #[trigger] split_value(l, r, cells, lo, w, hi, lazy) is Some
                ==> split_value(l, r, cells, lo, w, hi, lazy)->Some_0 < v)
            ||| (split == hi && v == NEG_INF && forall|w: int| lo <= w <= hi ==> #[trigger] split_value(l, r, cells, lo, w, hi, lazy) is None)
        }),
{
    lemma_sequence_pick_step(l, r, cells, lo, lo, hi, lazy, NEG_INF as int, hi, false);
}

/// Parallel: `(stored value, child index)` of the children from the `j`-th on;
/// a missing value is left out under lazy evaluation, minus infinity otherwise.
pub open spec fn parallel_candidates(
    cs: Seq<TbtNode>,
    cells: Cells,
    j: int,
    lo: int,
    hi: int,
    lazy: bool,
) -> Seq<(int, int)>
    decreases cs.len() - j,
{
    if j < 0 || j >= cs.len() {
        Seq::empty()
    } else {
        let rest = parallel_candidates(cs, cells, j + 1, lo, hi, lazy);
        match cells(cs[j].id() as int, lo, hi) {
            Some(v) => seq![(v as int, j)] + rest,
            None => if lazy {
                rest
            } else {
                seq![(NEG_INF as int, j)] + rest
            },
        }
    }
}

pub open spec fn firsts(s: Seq<(int, int)>) -> Seq<int> {
    s.map_values(|p: (int, int)| p.0)
}

/// The pairs by decreasing value; pairs of equal value keep their order.
pub open spec fn ranked(s: Seq<(int, int)>) -> Seq<(int, int)>
    decreases s.len(),
{
    if s.len() == 0 {
        Seq::empty()
    } else {
        let k = argmax(firsts(s));
        if 0 <= k < s.len() {
            seq![s[k]] + ranked(s.remove(k))
        } else {
            s
        }
    }
}

/// The segmentation of `node` on `[lo, hi]` read from the tree table's `cells`:
/// a row for the node, then the rows of the subtrees that realize its value.
pub open spec fn segmentation(
    node: TbtNode,
    cells: Cells,
    tr: Trace,
    lo: int,
    hi: int,
    lazy: bool,
) -> Seq<Row>
    decreases node, 2int, 0int,
{
    match node {
        TbtNode::Leaf(i, f, _) => {
            let v = match cells(i as int, lo, hi) {
                Some(x) => x as int,
                None => rho(f, tr, lo, hi, lazy),
            };
            seq![row(i, true, lo, hi, v)]
        },
        TbtNode::Fallback(i, cs) => {
            let (v, begin, pick) = fallback_pick(node, cells, lo, 0, hi, NEG_INF as int, lo, -1);
            if 0 <= pick < cs@.len() {
                seq![row(i, false, lo, hi, v)] + segmentation(cs@[pick], cells, tr, begin, hi, lazy)
            } else {
                seq![row(i, false, lo, hi, v)]
            }
        },
        TbtNode::Parallel(i, m, cs) => {
            let order = ranked(parallel_candidates(cs@, cells, 0, lo, hi, lazy));
            let v = if 1 <= m <= order.len() {
                order[m - 1].0
            } else {
                NEG_INF as int
            };
            seq![row(i, false, lo, hi, v)] + parallel_rows(
                node,
                cells,
                tr,
                order,
                0,
                min_spec(m as int, order.len() as int),
                lo,
                hi,
                lazy,
            )
        },
        TbtNode::Sequence(i, l, r) => {
            let (v, split) = sequence_pick(l.id(), r.id(), cells, lo, lo, hi, lazy, NEG_INF as int, hi, false);
            seq![row(i, false, lo, hi, v)] + segmentation(*l, cells, tr, lo, split, lazy)
                + segmentation(*r, cells, tr, split + 1, hi, lazy)
        },
        TbtNode::Timeout(i, t, c) => {
            let end = min_spec(hi, lo + t - 1);
            let v = if lo > end {
                NEG_INF as int
            } else {
                match cells(c.id() as int, lo, end) {
                    Some(x) => x as int,
                    None => NEG_INF as int,
                }
            };
            seq![row(i, false, lo, hi, v)] + segmentation(*c, cells, tr, lo, end, lazy)
        },
        TbtNode::Kleene(i, n, next, c) => if lo <= hi && n > 0 && next is Some {
            let nx = next->0;
            let (v, split) = sequence_pick(c.id(), nx.id(), cells, lo, lo, hi, lazy, NEG_INF as int, hi, false);
            seq![row(i, false, lo, hi, v)] + segmentation(*c, cells, tr, lo, split, lazy)
                + segmentation(*nx, cells, tr, split + 1, hi, lazy)
        } else if n == 0 && lo < hi {
            let v = match cells(c.id() as int, lo, hi) {
                Some(x) => x as int,
                None => NEG_INF as int,
            };
            seq![row(i, false, lo, hi, v)] + segmentation(*c, cells, tr, lo, hi, lazy)
        } else {
            seq![row(i, false, lo, hi, INF as int)]
        },
    }
}

/// Rows of the children `order[k..count]` of a Parallel node, in that order.
pub open spec fn parallel_rows(
    node: TbtNode,
    cells: Cells,
    tr: Trace,
    order: Seq<(int, int)>,
    k: int,
    count: int,
    lo: int,
    hi: int,
    lazy: bool,
) -> Seq<Row>
    decreases node, 1int, count - k,
{
    match node {
        TbtNode::Parallel(_, _, cs) => if k < 0 || k >= count || k >= order.len() {
            Seq::empty()
        } else {
            let j = order[k].1;
            let rest = parallel_rows(node, cells, tr, order, k + 1, count, lo, hi, lazy);
            if 0 <= j < cs@.len() {
                segmentation(cs@[j], cells, tr, lo, hi, lazy) + rest
            } else {
                rest
            }
        },
        _ => Seq::empty(),
    }
}


/// The pairs a vector of `(value, index)` holds, as integers.
pub open spec fn pairs(v: Seq<(i64, usize)>) -> Seq<(int, int)> {
    v.map_values(|p: (i64, usize)| (p.0 as int, p.1 as int))
}

/// Index of the first pair of largest value.
fn first_max_pair(v: &Vec<(i64, usize)>) -> (r: usize)
    requires
        v@.len() >= 1,
    ensures
        r == argmax(firsts(pairs(v@))),
        r < v@.len(),
{
    let mut vals: Vec<i64> = Vec::new();
    let mut k: usize = 0;
    while k < v.len()
        invariant
            k <= v@.len(),
            vals@.len() == k,
            forall|j: int| 0 <= j < k ==> #[trigger] vals@[j] == v@[j].0,
        decreases v@.len() - k,
    {
        vals.push(v[k].0);
        k = k + 1;
    }
    proof {
        assert(ints(vals@) =~= firsts(pairs(v@)));
    }
    first_max_index(&vals)
}

/// The split point and value that Sequence segmentation picks, read from the
/// cells of the left part `l` and the right part `r`.
fn sequence_split(tree_table: &mut Table, l: usize, r: usize, lower: usize, upper: usize, is_lazy: bool) -> (res: (i64, usize))
    requires
        old(tree_table).wf(),
        upper < old(tree_table).len(),
        upper < MAX_TRACE_LEN,
    ensures
        res.1 <= upper,
        (res.0 as int, res.1 as int) == sequence_pick(
            l as nat,
            r as nat,
            old(tree_table).cells(),
            lower as int,
            lower as int,
            upper as int,
            is_lazy,
            NEG_INF as int,
            upper as int,
            false,
        ),
        final(tree_table).wf(),
        final(tree_table).cells() == old(tree_table).cells(),
        same_shape(*old(tree_table), *final(tree_table)),
{
    let ghost cells = old(tree_table).cells();
    let mut v: i64 = NEG_INF;
    let mut split: usize = upper;
    let mut found = false;
    let mut u: usize = lower;
    while u <= upper
        invariant
            tree_table.wf(),
            tree_table.cells() == cells,
            same_shape(*old(tree_table), *tree_table),
            upper < tree_table.len(),
            upper < MAX_TRACE_LEN,
            split <= upper,
            lower <= u,
            sequence_pick(
                l as nat,
                r as nat,
                cells,
                lower as int,
                lower as int,
                upper as int,
                is_lazy,
                NEG_INF as int,
                upper as int,
                false,
            ) == sequence_pick(
                l as nat,
                r as nat,
                cells,
                lower as int,
                u as int,
                upper as int,
                is_lazy,
                v as int,
                split as int,
                found,
            ),
        decreases upper + 1 - u,
    {
        let t1 = tree_table.lookup(l, lower, u);
        proof {
            assert(t1 == cells(l as int, lower as int, u as int));
        }
        match t1 {
            None => {},
            Some(t1v) => {
                let t2 = if u + 1 > upper {
                    Some(NEG_INF)
                } else {
                    tree_table.lookup(r, u + 1, upper)
                };
                proof {
                    if u + 1 <= upper {
                        assert(t2 == cells(r as int, u + 1, upper as int));
                    }
                }
                if t2.is_none() && is_lazy {
                } else {
                    let t2v = match t2 {
                        Some(x) => x,
                        None => NEG_INF,
                    };
                    let m = rmin(t1v, t2v);
                    if !found || m > v {
                        v = m;
                        split = u;
                        found = true;
                    }
                }
            },
        }
        u = u + 1;
    }
    (v, split)
}

impl TbtNode {
    /// The segmentation of the tree on `[lower, upper]`, read from the filled
    /// tree table; a leaf whose cell is missing has its formula evaluated.
    pub fn get_segmentation(
        &self,
        tree_table: &mut Table,
        formula_table: &mut Table,
        trace: &Trace,
        lower: usize,
        upper: usize,
        is_lazy: bool,
        Ghost(dict): Ghost<Map<nat, TbtNode>>,
        Ghost(fdict): Ghost<Map<nat, Stl>>,
    ) -> (r: Vec<Row>)
        requires
            old(tree_table).wf(),
            old(tree_table).len() == trace.length,
            ready(*old(formula_table), *trace, fdict, is_lazy),
            self.covered(dict, fdict),
            self.fits(old(tree_table).num_ids(), old(formula_table).num_ids(), trace.atoms@.len()),
            upper < trace.length,
        ensures
            r@ == segmentation(*self, old(tree_table).cells(), *trace, lower as int, upper as int, is_lazy),
            final(tree_table).wf(),
            final(tree_table).cells() == old(tree_table).cells(),
            same_shape(*old(tree_table), *final(tree_table)),
            ready(*final(formula_table), *trace, fdict, is_lazy),
            same_shape(*old(formula_table), *final(formula_table)),
            keeps_filled(*old(formula_table), *final(formula_table)),
        decreases *self, 2int, 0int,
    {
        let ghost cells = old(tree_table).cells();
        match self {
            TbtNode::Leaf(i, f, _) => {
                let found = tree_table.lookup(*i, lower, upper);
                let v = match found {
                    Some(x) => x,
                    None => f.evaluate(formula_table, trace, lower, upper, is_lazy, Ghost(fdict)),
                };
                let mut rows: Vec<Row> = Vec::new();
                rows.push(Row { id: *i, leaf: true, lower, upper, value: v });
                proof {
                    assert(rows@ =~= segmentation(*self, cells, *trace, lower as int, upper as int, is_lazy));
                }
                rows
            },
            TbtNode::Fallback(i, cs) => {
                let (v, begin, pick) = fallback_choice(self, cs, tree_table, lower, upper);
                let mut rows: Vec<Row> = Vec::new();
                rows.push(Row { id: *i, leaf: false, lower, upper, value: v });
                if pick < cs.len() {
                    proof {
                        assert(decreases_to!(*self => cs@[pick as int]));
                    }
                    let mut child = cs[pick].get_segmentation(
                        tree_table,
                        formula_table,
                        trace,
                        begin,
                        upper,
                        is_lazy,
                        Ghost(dict),
                        Ghost(fdict),
                    );
                    rows.append(&mut child);
                }
                proof {
                    assert(rows@ =~= segmentation(*self, cells, *trace, lower as int, upper as int, is_lazy));
                }
                rows
            },
            TbtNode::Parallel(i, m, cs) => {
                let order = parallel_order(self, cs, tree_table, lower, upper, is_lazy);
                let v = if 1 <= *m && *m <= order.len() {
                    order[*m - 1].0
                } else {
                    NEG_INF
                };
                let count = if *m <= order.len() {
                    *m
                } else {
                    order.len()
                };
                let mut rows: Vec<Row> = Vec::new();
                rows.push(Row { id: *i, leaf: false, lower, upper, value: v });
                let ghost head = rows@;
                let ghost ord = pairs(order@);
                let mut k: usize = 0;
                while k < count
                    invariant
                        *self == TbtNode::Parallel(*i, *m, *cs),
                        self.covered(dict, fdict),
                        self.fits(old(tree_table).num_ids(), old(formula_table).num_ids(), trace.atoms@.len()),
                        tree_table.wf(),
                        tree_table.cells() == cells,
                        same_shape(*old(tree_table), *tree_table),
                        ready(*formula_table, *trace, fdict, is_lazy),
                        same_shape(*old(formula_table), *formula_table),
                        keeps_filled(*old(formula_table), *formula_table),
                        tree_table.len() == trace.length,
                        upper < trace.length,
                        count <= order@.len(),
                        k <= count,
                        ord == pairs(order@),
                        head + parallel_rows(*self, cells, *trace, ord, 0, count as int, lower as int, upper as int, is_lazy)
                            == rows@ + parallel_rows(*self, cells, *trace, ord, k as int, count as int, lower as int, upper as int, is_lazy),
                    decreases count - k,
                {
                    let j = order[k].1;
                    if j < cs.len() {
                        proof {
                            assert(decreases_to!(*self => cs@[j as int]));
                        }
                        let mut child = cs[j].get_segmentation(
                            tree_table,
                            formula_table,
                            trace,
                            lower,
                            upper,
                            is_lazy,
                            Ghost(dict),
                            Ghost(fdict),
                        );
                        let ghost before = rows@;
                        rows.append(&mut child);
                        proof {
                            let sj = segmentation(cs@[j as int], cells, *trace, lower as int, upper as int, is_lazy);
                            let pn = parallel_rows(*self, cells, *trace, ord, k + 1, count as int, lower as int, upper as int, is_lazy);
                            assert(rows@ =~= before + sj);
                            assert(before + (sj + pn) =~= (before + sj) + pn);
                        }
                    }
                    k = k + 1;
                }
                proof {
                    assert(min_spec(*m as int, ord.len() as int) == count as int);
                    assert(rows@ =~= segmentation(*self, cells, *trace, lower as int, upper as int, is_lazy));
                }
                rows
            },
            TbtNode::Sequence(i, l, r) => {
                let (v, split) = sequence_split(tree_table, l.get_index(), r.get_index(), lower, upper, is_lazy);
                let mut rows: Vec<Row> = Vec::new();
                rows.push(Row { id: *i, leaf: false, lower, upper, value: v });
                let mut left = l.get_segmentation(tree_table, formula_table, trace, lower, split, is_lazy, Ghost(dict), Ghost(fdict));
                let mut right = r.get_segmentation(tree_table, formula_table, trace, split + 1, upper, is_lazy, Ghost(dict), Ghost(fdict));
                rows.append(&mut left);
                rows.append(&mut right);
                proof {
                    assert(rows@ =~= segmentation(*self, cells, *trace, lower as int, upper as int, is_lazy));
                }
                rows
            },
            TbtNode::Timeout(i, t, c) => {
                let end = if lower > upper || *t - 1 >= upper - lower {
                    upper
                } else {
                    lower + *t - 1
                };
                let v = if lower > end {
                    NEG_INF
                } else {
                    match tree_table.lookup_segmentation_tree(c, lower, end) {
                        Some(x) => x,
                        None => NEG_INF,
                    }
                };
                let mut rows: Vec<Row> = Vec::new();
                rows.push(Row { id: *i, leaf: false, lower, upper, value: v });
                let mut child = c.get_segmentation(tree_table, formula_table, trace, lower, end, is_lazy, Ghost(dict), Ghost(fdict));
                rows.append(&mut child);
                proof {
                    assert(rows@ =~= segmentation(*self, cells, *trace, lower as int, upper as int, is_lazy));
                }
                rows
            },
            TbtNode::Kleene(i, n, next, c) => {
                let mut rows: Vec<Row> = Vec::new();
                if lower <= upper && *n > 0 && next.is_some() {
                    let nx: &TbtNode = match next {
                        Some(x) => x,
                        None => c,
                    };
                    let (v, split) = sequence_split(tree_table, c.get_index(), nx.get_index(), lower, upper, is_lazy);
                    rows.push(Row { id: *i, leaf: false, lower, upper, value: v });
                    let mut left = c.get_segmentation(tree_table, formula_table, trace, lower, split, is_lazy, Ghost(dict), Ghost(fdict));
                    let mut right = nx.get_segmentation(tree_table, formula_table, trace, split + 1, upper, is_lazy, Ghost(dict), Ghost(fdict));
                    rows.append(&mut left);
                    rows.append(&mut right);
                } else if *n == 0 && lower < upper {
                    let v = match tree_table.lookup_segmentation_tree(c, lower, upper) {
                        Some(x) => x,
                        None => NEG_INF,
                    };
                    rows.push(Row { id: *i, leaf: false, lower, upper, value: v });
                    let mut child = c.get_segmentation(tree_table, formula_table, trace, lower, upper, is_lazy, Ghost(dict), Ghost(fdict));
                    rows.append(&mut child);
                } else {
                    rows.push(Row { id: *i, leaf: false, lower, upper, value: INF });
                }
                proof {
                    assert(rows@ =~= segmentation(*self, cells, *trace, lower as int, upper as int, is_lazy));
                }
                rows
            },
        }
    }
}

/// Fallback: the value, start point and child that segmentation picks, or
/// no child (`cs.len()`) when no cell of a child is filled.
fn fallback_choice(node: &TbtNode, cs: &Vec<TbtNode>, tree_table: &mut Table, lower: usize, upper: usize) -> (res: (i64, usize, usize))
    requires
        *node == TbtNode::Fallback(node->Fallback_0, *cs),
        old(tree_table).wf(),
        upper < old(tree_table).len(),
        upper < MAX_TRACE_LEN,
    ensures
        ({
            let (v, begin, pick) = fallback_pick(*node, old(tree_table).cells(), lower as int, 0, upper as int, NEG_INF as int, lower as int, -1);
            &&& res.0 == v
            &&& res.1 == begin
            &&& (if 0 <= pick < cs@.len() { res.2 == pick } else { res.2 == cs@.len() })
        }),
        final(tree_table).wf(),
        final(tree_table).cells() == old(tree_table).cells(),
        same_shape(*old(tree_table), *final(tree_table)),
{
    let ghost cells = old(tree_table).cells();
    let mut v: i64 = NEG_INF;
    let mut begin: usize = lower;
    let mut pick: usize = cs.len();
    let mut i: usize = lower;
    while i <= upper
        invariant
            *node == TbtNode::Fallback(node->Fallback_0, *cs),
            tree_table.wf(),
            tree_table.cells() == cells,
            same_shape(*old(tree_table), *tree_table),
            upper < tree_table.len(),
            upper < MAX_TRACE_LEN,
            lower <= i,
            pick <= cs@.len(),
            fallback_pick(*node, cells, lower as int, 0, upper as int, NEG_INF as int, lower as int, -1)
                == fallback_pick(*node, cells, i as int, 0, upper as int, v as int, begin as int,
                    if pick < cs@.len() { pick as int } else { -1 }),
        decreases upper + 1 - i,
    {
        let mut j: usize = 0;
        while j < cs.len()
            invariant
                *node == TbtNode::Fallback(node->Fallback_0, *cs),
                tree_table.wf(),
                tree_table.cells() == cells,
                same_shape(*old(tree_table), *tree_table),
                upper < tree_table.len(),
                lower <= i <= upper,
                j <= cs@.len(),
                pick <= cs@.len(),
                fallback_pick(*node, cells, lower as int, 0, upper as int, NEG_INF as int, lower as int, -1)
                    == fallback_pick(*node, cells, i as int, j as int, upper as int, v as int, begin as int,
                        if pick < cs@.len() { pick as int } else { -1 }),
            decreases cs@.len() - j,
        {
            let s_v = tree_table.lookup(cs[j].get_index(), i, upper);
            match s_v {
                Some(x) => {
                    if pick == cs.len() || x > v {
                        v = x;
                        begin = i;
                        pick = j;
                    }
                },
                None => {},
            }
            j = j + 1;
        }
        i = i + 1;
    }
    (v, begin, pick)
}

/// Parallel: the children's `(stored value, index)` pairs by decreasing value.
fn parallel_order(node: &TbtNode, cs: &Vec<TbtNode>, tree_table: &mut Table, lower: usize, upper: usize, is_lazy: bool) -> (res: Vec<(i64, usize)>)
    requires
        old(tree_table).wf(),
    ensures
        pairs(res@) == ranked(parallel_candidates(cs@, old(tree_table).cells(), 0, lower as int, upper as int, is_lazy)),
        final(tree_table).wf(),
        final(tree_table).cells() == old(tree_table).cells(),
        same_shape(*old(tree_table), *final(tree_table)),
{
    let ghost cells = old(tree_table).cells();
    let ghost all = parallel_candidates(cs@, cells, 0, lower as int, upper as int, is_lazy);
    let mut cands: Vec<(i64, usize)> = Vec::new();
    let mut j: usize = 0;
    while j < cs.len()
        invariant
            tree_table.wf(),
            tree_table.cells() == cells,
            same_shape(*old(tree_table), *tree_table),
            j <= cs@.len(),
            all == parallel_candidates(cs@, cells, 0, lower as int, upper as int, is_lazy),
            pairs(cands@) + parallel_candidates(cs@, cells, j as int, lower as int, upper as int, is_lazy) == all,
        decreases cs@.len() - j,
    {
        let ghost before = cands@;
        let found = tree_table.lookup(cs[j].get_index(), lower, upper);
        match found {
            Some(x) => {
                cands.push((x, j));
            },
            None => {
                if !is_lazy {
                    cands.push((NEG_INF, j));
                }
            },
        }
        proof {
            let rest = parallel_candidates(cs@, cells, j + 1, lower as int, upper as int, is_lazy);
            assert(pairs(before + seq![(0i64, j)]).len() == pairs(before).len() + 1);
            if found is Some || !is_lazy {
                assert(pairs(cands@) =~= pairs(before) + seq![(cands@.last().0 as int, j as int)]);
                assert(pairs(cands@) + rest =~= pairs(before) + (seq![(cands@.last().0 as int, j as int)] + rest));
            } else {
                assert(cands@ == before);
            }
        }
        j = j + 1;
    }
    proof {
        assert(pairs(cands@) =~= all);
    }
    let mut order: Vec<(i64, usize)> = Vec::new();
    while cands.len() > 0
        invariant
            pairs(order@) + ranked(pairs(cands@)) == ranked(all),
            tree_table.wf(),
            tree_table.cells() == cells,
            same_shape(*old(tree_table), *tree_table),
        decreases cands@.len(),
    {
        let k = first_max_pair(&cands);
        let ghost before = cands@;
        let ghost ob = order@;
        let x = cands.remove(k);
        order.push(x);
        proof {
            assert(pairs(cands@) =~= pairs(before).remove(k as int));
            assert(firsts(pairs(before)).len() == pairs(before).len());
            assert(ranked(pairs(before)) == seq![pairs(before)[k as int]] + ranked(pairs(before).remove(k as int)));
            assert(pairs(order@) =~= pairs(ob) + seq![pairs(before)[k as int]]);
            assert(pairs(order@) + ranked(pairs(cands@)) =~= pairs(ob) + ranked(pairs(before)));
        }
    }
    proof {
        assert(ranked(pairs(cands@)) =~= Seq::<(int, int)>::empty());
        assert(pairs(order@) =~= ranked(all));
    }
    order
}

} // verus!
