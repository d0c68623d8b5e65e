//! Temporal behavior trees: constructors, robustness as a spec function, its
//! memoized evaluation, the laws it obeys, and the next-leaf index.

use std::collections::HashMap;
use vstd::prelude::*;

use crate::robustness::{in_range, max_spec, min_spec, rmax, rmin, INF, NEG_INF};
use crate::stl::{atoms_of, lemma_lazy_sign, ready, rho, same_shape, same_sign, Stl};
use crate::table::{keeps_filled, total_cells, Table};
use crate::trace::Trace;

verus! {

broadcast use vstd::std_specs::hash::group_hash_axioms;

/// A node of a temporal behavior tree. The first field of each variant is the
/// node's id, its key in the tree table. A Kleene node of level `n > 0` holds
/// the node of level `n - 1` that follows its child.
pub enum TbtNode {
    Leaf(usize, Stl, String),
    Fallback(usize, Vec<TbtNode>),
    Parallel(usize, usize, Vec<TbtNode>),
    Sequence(usize, Box<TbtNode>, Box<TbtNode>),
    Timeout(usize, usize, Box<TbtNode>),
    Kleene(usize, usize, Option<Box<TbtNode>>, Box<TbtNode>),
}

impl TbtNode {
    pub open spec fn id(self) -> nat {
        match self {
            TbtNode::Leaf(i, _, _) => i as nat,
            TbtNode::Fallback(i, _) => i as nat,
            TbtNode::Parallel(i, _, _) => i as nat,
            TbtNode::Sequence(i, _, _) => i as nat,
            TbtNode::Timeout(i, _, _) => i as nat,
            TbtNode::Kleene(i, _, _, _) => i as nat,
        }
    }

    /// Ids below `k`, formula ids below `kf`, atomic propositions below `a`;
    /// every Parallel asks for between one and all of its children, every
    /// Timeout has a positive window and every Kleene node of a positive level
    /// has its next level.
    pub open spec fn fits(self, k: nat, kf: nat, a: nat) -> bool
        decreases self,
    {
        self.id() < k && match self {
            TbtNode::Leaf(_, f, _) => f.fits(kf, a),
            TbtNode::Fallback(_, cs) => forall|j: int|
                0 <= j < cs@.len() ==> (#[trigger] cs@[j]).fits(k, kf, a),
            TbtNode::Parallel(_, m, cs) => 1 <= m <= cs@.len() && forall|j: int|
                0 <= j < cs@.len() ==> (#[trigger] cs@[j]).fits(k, kf, a),
            TbtNode::Sequence(_, l, r) => l.fits(k, kf, a) && r.fits(k, kf, a),
            TbtNode::Timeout(_, t, c) => t >= 1 && c.fits(k, kf, a),
            TbtNode::Kleene(_, n, next, c) => c.fits(k, kf, a) && match next {
                Some(nx) => nx.fits(k, kf, a),
                None => n == 0,
            },
        }
    }

    /// `dict` maps the id of every node to that node (up to copies: see `same`)
    /// and `fdict` the id of every formula of a leaf to that formula.
    pub open spec fn covered(self, dict: Map<nat, TbtNode>, fdict: Map<nat, Stl>) -> bool
        decreases self,
    {
        dict.contains_key(self.id()) && same(dict[self.id()], self) && match self {
            TbtNode::Leaf(_, f, _) => f.covered(fdict),
            TbtNode::Fallback(_, cs) => forall|j: int|
                0 <= j < cs@.len() ==> (#[trigger] cs@[j]).covered(dict, fdict),
            TbtNode::Parallel(_, _, cs) => forall|j: int|
                0 <= j < cs@.len() ==> (#[trigger] cs@[j]).covered(dict, fdict),
            TbtNode::Sequence(_, l, r) => l.covered(dict, fdict) && r.covered(dict, fdict),
            TbtNode::Timeout(_, _, c) => c.covered(dict, fdict),
            TbtNode::Kleene(_, _, next, c) => c.covered(dict, fdict) && match next {
                Some(nx) => nx.covered(dict, fdict),
                None => true,
            },
        }
    }
}

/// Largest element of `s` (minus infinity for an empty sequence).
pub open spec fn seq_max(s: Seq<int>) -> int
    decreases s.len(),
{
    if s.len() == 0 {
        NEG_INF as int
    } else if s.len() == 1 {
        s[0]
    } else {
        max_spec(s[0], seq_max(s.drop_first()))
    }
}

/// Smallest element of `s` (plus infinity for an empty sequence).
pub open spec fn seq_min(s: Seq<int>) -> int
    decreases s.len(),
{
    if s.len() == 0 {
        INF as int
    } else if s.len() == 1 {
        s[0]
    } else {
        min_spec(s[0], seq_min(s.drop_first()))
    }
}

/// Index of the first largest element of `s`.
pub open spec fn argmax(s: Seq<int>) -> int
    decreases s.len(),
{
    if s.len() <= 1 {
        0
    } else if s[0] >= seq_max(s.drop_first()) {
        0
    } else {
        1 + argmax(s.drop_first())
    }
}

/// The `m`-th largest element of `s`, counted from 1 with repetitions: the
/// largest once the `m - 1` largest have been taken away.
pub open spec fn mth_largest(s: Seq<int>, m: nat) -> int
    decreases m,
{
    if m <= 1 {
        seq_max(s)
    } else {
        mth_largest(s.remove(argmax(s)), (m - 1) as nat)
    }
}

/// Robustness of the tree `node` on `[lo, hi]`.
pub open spec fn rho_tbt(node: TbtNode, tr: Trace, lo: int, hi: int, lazy: bool) -> int
    decreases node, 3int, 0int,
{
    match node {
        TbtNode::Leaf(_, f, _) => rho(f, tr, lo, hi, lazy),
        TbtNode::Fallback(_, _) => fallback_fold(node, tr, lo, hi, lazy, NEG_INF as int),
        TbtNode::Parallel(_, m, _) => mth_largest(parallel_values(node, tr, 0, lo, hi, lazy), m as nat),
        TbtNode::Sequence(_, _, _) => sequence_fold(node, tr, lo, lo, hi, lazy, NEG_INF as int),
        TbtNode::Timeout(_, t, c) => rho_tbt(*c, tr, lo, min_spec(hi, lo + t - 1), lazy),
        TbtNode::Kleene(_, n, _, c) => if lo <= hi && n > 0 {
            sequence_fold(node, tr, lo, lo, hi, lazy, NEG_INF as int)
        } else if lo <= hi {
            rho_tbt(*c, tr, lo, hi, lazy)
        } else {
            INF as int
        },
    }
}

/// Fallback: running maximum over the start points `i` from `i` to `hi` and,
/// at each, over the children; under `lazy` the children of one start point
/// stop at the first positive running value.
pub open spec fn fallback_fold(node: TbtNode, tr: Trace, i: int, hi: int, lazy: bool, acc: int) -> int
    decreases node, 2int, hi + 1 - i,
{
    if i > hi {
        acc
    } else {
        fallback_fold(node, tr, i + 1, hi, lazy, fallback_children(node, tr, 0, i, hi, lazy, acc))
    }
}

pub open spec fn fallback_children(
    node: TbtNode,
    tr: Trace,
    j: int,
    i: int,
    hi: int,
    lazy: bool,
    acc: int,
) -> int
    decreases node, 1int, (match node {
        TbtNode::Fallback(_, cs) => cs@.len() - j,
        _ => 0,
    }),
{
    match node {
        TbtNode::Fallback(_, cs) => if j < 0 || j >= cs@.len() {
            acc
        } else {
            let a = max_spec(acc, rho_tbt(cs@[j], tr, i, hi, lazy));
            if lazy && a > 0 {
                a
            } else {
                fallback_children(node, tr, j + 1, i, hi, lazy, a)
            }
        },
        _ => acc,
    }
}

/// Robustness of the children of a Parallel node from the `j`-th on.
pub open spec fn parallel_values(
    node: TbtNode,
    tr: Trace,
    j: int,
    lo: int,
    hi: int,
    lazy: bool,
) -> Seq<int>
    decreases node, 1int, (match node {
        TbtNode::Parallel(_, _, cs) => cs@.len() - j,
        _ => 0,
    }),
{
    match node {
        TbtNode::Parallel(_, _, cs) => if j < 0 || j >= cs@.len() {
            Seq::empty()
        } else {
            seq![rho_tbt(cs@[j], tr, lo, hi, lazy)] + parallel_values(node, tr, j + 1, lo, hi, lazy)
        },
        _ => Seq::empty(),
    }
}

/// Sequence (and Kleene of a positive level): running maximum over the split
/// points `i` from `i` to `hi` of the smaller of the left part on `[lo, i]`
/// and the right part on `[i + 1, hi]`.
pub open spec fn sequence_fold(
    node: TbtNode,
    tr: Trace,
    lo: int,
    i: int,
    hi: int,
    lazy: bool,
    acc: int,
) -> int
    decreases node, 2int, hi + 1 - i,
{
    if i > hi {
        acc
    } else {
        match node {
            TbtNode::Sequence(_, l, r) => {
                let a = max_spec(
                    acc,
                    min_spec(rho_tbt(*l, tr, lo, i, lazy), rho_tbt(*r, tr, i + 1, hi, lazy)),
                );
                if lazy && a > 0 {
                    a
                } else {
                    sequence_fold(node, tr, lo, i + 1, hi, lazy, a)
                }
            },
            TbtNode::Kleene(_, _, Some(nx), c) => {
                let a = max_spec(
                    acc,
                    min_spec(rho_tbt(*c, tr, lo, i, lazy), rho_tbt(*nx, tr, i + 1, hi, lazy)),
                );
                if lazy && a > 0 {
                    a
                } else {
                    sequence_fold(node, tr, lo, i + 1, hi, lazy, a)
                }
            },
            _ => acc,
        }
    }
}


/// Every filled cell whose id `dict` names holds the robustness of that node.
pub open spec fn sound_tbt(table: Table, dict: Map<nat, TbtNode>, tr: Trace, lazy: bool) -> bool {
    forall|id: int, lo: int, hi: int|
        #![trigger table.cell(id, lo, hi)]
        0 <= id && dict.contains_key(id as nat) && table.cell(id, lo, hi).is_some() ==> {
            &&& table.cell(id, lo, hi).unwrap() as int == rho_tbt(dict[id as nat], tr, lo, hi, lazy)
            &&& in_range(table.cell(id, lo, hi).unwrap() as int)
        }
}

/// Both tables well formed, laid out for `tr` and sound for the two dictionaries.
pub open spec fn ready_tbt(
    tree_table: Table,
    formula_table: Table,
    tr: Trace,
    dict: Map<nat, TbtNode>,
    fdict: Map<nat, Stl>,
    lazy: bool,
) -> bool {
    &&& ready(formula_table, tr, fdict, lazy)
    &&& tree_table.wf()
    &&& tree_table.len() == tr.length
    &&& sound_tbt(tree_table, dict, tr, lazy)
}

/// The sequence of integers that a vector of robustness values holds.
pub open spec fn ints(v: Seq<i64>) -> Seq<int> {
    v.map_values(|x: i64| x as int)
}

proof fn lemma_parallel_values(node: TbtNode, tr: Trace, j: int, lo: int, hi: int, lazy: bool)
    requires
        node is Parallel,
        0 <= j <= node->Parallel_2@.len(),
    ensures
        parallel_values(node, tr, j, lo, hi, lazy).len() == node->Parallel_2@.len() - j,
        forall|k: int|
            0 <= k < node->Parallel_2@.len() - j ==> #[trigger] parallel_values(
                node,
                tr,
                j,
                lo,
                hi,
                lazy,
            )[k] == rho_tbt(node->Parallel_2@[j + k], tr, lo, hi, lazy),
    decreases node->Parallel_2@.len() - j,
{
    if j < node->Parallel_2@.len() {
        lemma_parallel_values(node, tr, j + 1, lo, hi, lazy);
        let s = parallel_values(node, tr, j, lo, hi, lazy);
        assert forall|k: int| 0 <= k < node->Parallel_2@.len() - j implies #[trigger] s[k]
            == rho_tbt(node->Parallel_2@[j + k], tr, lo, hi, lazy) by {
            if k > 0 {
                assert(s[k] == parallel_values(node, tr, j + 1, lo, hi, lazy)[k - 1]);
            }
        }
    }
}

/// Index of the first largest value of `v`.
pub(crate) fn first_max_index(v: &Vec<i64>) -> (r: usize)
    requires
        v@.len() >= 1,
    ensures
        r == argmax(ints(v@)),
        r < v@.len(),
        v@[r as int] as int == seq_max(ints(v@)),
{
    let n = v.len();
    let mut i: usize = n - 1;
    let mut best: i64 = v[i];
    let mut best_index: usize = i;
    proof {
        let s = ints(v@).subrange(i as int, n as int);
        assert(s.drop_first() =~= Seq::<int>::empty());
        assert(s[0] == v@[i as int] as int);
    }
    while i > 0
        invariant
            n == v@.len(),
            i < n,
            i <= best_index < n,
            best as int == seq_max(ints(v@).subrange(i as int, n as int)),
            best == v@[best_index as int],
            best_index - i == argmax(ints(v@).subrange(i as int, n as int)),
        decreases i,
    {
        let j = i - 1;
        let x = v[j];
        proof {
            let s = ints(v@).subrange(j as int, n as int);
            assert(s.drop_first() =~= ints(v@).subrange(i as int, n as int));
            assert(s[0] == x as int);
        }
        if x >= best {
            best = x;
            best_index = j;
        }
        i = j;
    }
    proof {
        assert(ints(v@).subrange(0, n as int) =~= ints(v@));
    }
    best_index
}

/// The `m`-th largest of the values, counted from 1 with repetitions.
fn select_mth(vals: Vec<i64>, m: usize) -> (r: i64)
    requires
        1 <= m <= vals@.len(),
        forall|k: int| 0 <= k < vals@.len() ==> in_range(#[trigger] vals@[k] as int),
    ensures
        r as int == mth_largest(ints(vals@), m as nat),
        in_range(r as int),
{
    let mut cur = vals;
    let mut left: usize = m;
    while left > 1
        invariant
            1 <= left <= cur@.len(),
            forall|k: int| 0 <= k < cur@.len() ==> in_range(#[trigger] cur@[k] as int),
            mth_largest(ints(vals@), m as nat) == mth_largest(ints(cur@), left as nat),
        decreases left,
    {
        let idx = first_max_index(&cur);
        let ghost before = cur@;
        cur.remove(idx);
        proof {
            assert(ints(cur@) =~= ints(before).remove(idx as int));
        }
        left = left - 1;
    }
    let idx = first_max_index(&cur);
    proof {
        assert(ints(cur@).len() >= 1);
    }
    cur[idx]
}

impl TbtNode {
    pub fn get_index(&self) -> (r: usize)
        ensures
            r == self.id(),
    {
        match self {
            TbtNode::Leaf(i, _, _) => *i,
            TbtNode::Fallback(i, _) => *i,
            TbtNode::Parallel(i, _, _) => *i,
            TbtNode::Sequence(i, _, _) => *i,
            TbtNode::Timeout(i, _, _) => *i,
            TbtNode::Kleene(i, _, _, _) => *i,
        }
    }

    /// Robustness of the tree on `[lower, upper]`, memoized in the two tables.
    pub fn evaluate(
        &self,
        tree_table: &mut Table,
        formula_table: &mut Table,
        trace: &Trace,
        lower: usize,
        upper: usize,
        lazy_eval: bool,
        Ghost(dict): Ghost<Map<nat, TbtNode>>,
        Ghost(fdict): Ghost<Map<nat, Stl>>,
    ) -> (r: i64)
        requires
            ready_tbt(*old(tree_table), *old(formula_table), *trace, dict, fdict, lazy_eval),
            self.covered(dict, fdict),
            self.fits(old(tree_table).num_ids(), old(formula_table).num_ids(), trace.atoms@.len()),
            upper < trace.length,
        ensures
            r as int == rho_tbt(*self, *trace, lower as int, upper as int, lazy_eval),
            in_range(r as int),
            lower <= upper ==> final(tree_table).cell(self.id() as int, lower as int, upper as int)
                == Some(r),
            lower > upper ==> *final(tree_table) == *old(tree_table)
                && *final(formula_table) == *old(formula_table),
            old(tree_table).cell(self.id() as int, lower as int, upper as int) is Some
                ==> final(tree_table).cells() == old(tree_table).cells()
                && final(tree_table).set_calls() == old(tree_table).set_calls()
                && *final(formula_table) == *old(formula_table),
            keeps_filled(*old(tree_table), *final(tree_table)),
            keeps_filled(*old(formula_table), *final(formula_table)),
            ready_tbt(*final(tree_table), *final(formula_table), *trace, dict, fdict, lazy_eval),
            same_shape(*old(tree_table), *final(tree_table)),
            same_shape(*old(formula_table), *final(formula_table)),
        decreases *self, 3int, 0int,
    {
        let index = self.get_index();
        proof {
            tree_table.lemma_filled_cells_in_bounds();
        }
        if lower <= upper {
            match tree_table.lookup(index, lower, upper) {
                Some(v) => {
                    proof {
                        lemma_same_rho(dict[index as nat], *self, *trace, lower as int, upper as int, lazy_eval);
                    }
                    return v;
                },
                None => {},
            }
        }
        let v: i64 = match self {
            TbtNode::Leaf(_, f, _) => f.evaluate(
                formula_table,
                trace,
                lower,
                upper,
                lazy_eval,
                Ghost(fdict),
            ),
            TbtNode::Fallback(_, _) => self.fallback_loop(
                tree_table,
                formula_table,
                trace,
                lower,
                upper,
                lazy_eval,
                Ghost(dict),
                Ghost(fdict),
            ),
            TbtNode::Parallel(_, _, _) => self.parallel_eval(
                tree_table,
                formula_table,
                trace,
                lower,
                upper,
                lazy_eval,
                Ghost(dict),
                Ghost(fdict),
            ),
            TbtNode::Sequence(_, l, r) => self.sequence_loop(
                l,
                r,
                tree_table,
                formula_table,
                trace,
                lower,
                upper,
                lazy_eval,
                Ghost(dict),
                Ghost(fdict),
            ),
            TbtNode::Timeout(_, t, c) => {
                let end = if lower > upper || *t - 1 >= upper - lower {
                    upper
                } else {
                    lower + *t - 1
                };
                c.evaluate(tree_table, formula_table, trace, lower, end, lazy_eval, Ghost(dict), Ghost(fdict))
            },
            TbtNode::Kleene(_, n, next, c) => {
                if lower <= upper && *n > 0 {
                    match next {
                        Some(nx) => self.sequence_loop(
                            c,
                            nx,
                            tree_table,
                            formula_table,
                            trace,
                            lower,
                            upper,
                            lazy_eval,
                            Ghost(dict),
                            Ghost(fdict),
                        ),
                        None => NEG_INF,
                    }
                } else if lower <= upper {
                    c.evaluate(tree_table, formula_table, trace, lower, upper, lazy_eval, Ghost(dict), Ghost(fdict))
                } else {
                    return INF;
                }
            },
        };
        if lower <= upper {
            proof {
                lemma_same_rho(dict[index as nat], *self, *trace, lower as int, upper as int, lazy_eval);
            }
            tree_table.set(index, lower, upper, v);
        }
        v
    }

    /// The split-point loop of Sequence and of Kleene of a positive level, with
    /// `l` the left part and `r` the right part.
    fn sequence_loop(
        &self,
        l: &TbtNode,
        r: &TbtNode,
        tree_table: &mut Table,
        formula_table: &mut Table,
        trace: &Trace,
        lower: usize,
        upper: usize,
        lazy_eval: bool,
        Ghost(dict): Ghost<Map<nat, TbtNode>>,
        Ghost(fdict): Ghost<Map<nat, Stl>>,
    ) -> (res: i64)
        requires
            match *self {
                TbtNode::Sequence(_, a, b) => *a == *l && *b == *r,
                TbtNode::Kleene(_, _, Some(nx), c) => *c == *l && *nx == *r,
                _ => false,
            },
            ready_tbt(*old(tree_table), *old(formula_table), *trace, dict, fdict, lazy_eval),
            l.covered(dict, fdict),
            r.covered(dict, fdict),
            l.fits(old(tree_table).num_ids(), old(formula_table).num_ids(), trace.atoms@.len()),
            r.fits(old(tree_table).num_ids(), old(formula_table).num_ids(), trace.atoms@.len()),
            upper < trace.length,
        ensures
            res as int == sequence_fold(
                *self,
                *trace,
                lower as int,
                lower as int,
                upper as int,
                lazy_eval,
                NEG_INF as int,
            ),
            in_range(res as int),
            ready_tbt(*final(tree_table), *final(formula_table), *trace, dict, fdict, lazy_eval),
            same_shape(*old(tree_table), *final(tree_table)),
            same_shape(*old(formula_table), *final(formula_table)),
            keeps_filled(*old(tree_table), *final(tree_table)),
            keeps_filled(*old(formula_table), *final(formula_table)),
            lower > upper ==> *final(tree_table) == *old(tree_table)
                && *final(formula_table) == *old(formula_table),
        decreases *self, 2int, 0int,
    {
        proof {
            assert(decreases_to!(*self => *l));
            assert(decreases_to!(*self => *r));
        }
        if lower > upper {
            return NEG_INF;
        }
        let mut v: i64 = NEG_INF;
        let mut i: usize = lower;
        while i <= upper
            invariant
                match *self {
                    TbtNode::Sequence(_, a, b) => *a == *l && *b == *r,
                    TbtNode::Kleene(_, _, Some(nx), c) => *c == *l && *nx == *r,
                    _ => false,
                },
                decreases_to!(*self => *l),
                decreases_to!(*self => *r),
                ready_tbt(*tree_table, *formula_table, *trace, dict, fdict, lazy_eval),
                same_shape(*old(tree_table), *tree_table),
                same_shape(*old(formula_table), *formula_table),
                keeps_filled(*old(tree_table), *tree_table),
                keeps_filled(*old(formula_table), *formula_table),
                l.covered(dict, fdict),
                r.covered(dict, fdict),
                l.fits(old(tree_table).num_ids(), old(formula_table).num_ids(), trace.atoms@.len()),
                r.fits(old(tree_table).num_ids(), old(formula_table).num_ids(), trace.atoms@.len()),
                upper < trace.length,
                lower <= i,
                in_range(v as int),
                sequence_fold(
                    *self,
                    *trace,
                    lower as int,
                    lower as int,
                    upper as int,
                    lazy_eval,
                    NEG_INF as int,
                ) == sequence_fold(
                    *self,
                    *trace,
                    lower as int,
                    i as int,
                    upper as int,
                    lazy_eval,
                    v as int,
                ),
            decreases upper + 1 - i,
        {
            let t1 = l.evaluate(tree_table, formula_table, trace, lower, i, lazy_eval, Ghost(dict), Ghost(fdict));
            let t2 = r.evaluate(tree_table, formula_table, trace, i + 1, upper, lazy_eval, Ghost(dict), Ghost(fdict));
            let a = rmax(v, rmin(t1, t2));
            v = a;
            if lazy_eval && a > 0 {
                i = upper + 1;
            } else {
                i = i + 1;
            }
        }
        v
    }

    /// The loops of Fallback: over the start points and, at each, the children.
    fn fallback_loop(
        &self,
        tree_table: &mut Table,
        formula_table: &mut Table,
        trace: &Trace,
        lower: usize,
        upper: usize,
        lazy_eval: bool,
        Ghost(dict): Ghost<Map<nat, TbtNode>>,
        Ghost(fdict): Ghost<Map<nat, Stl>>,
    ) -> (res: i64)
        requires
            *self is Fallback,
            ready_tbt(*old(tree_table), *old(formula_table), *trace, dict, fdict, lazy_eval),
            self.covered(dict, fdict),
            self.fits(old(tree_table).num_ids(), old(formula_table).num_ids(), trace.atoms@.len()),
            upper < trace.length,
        ensures
            res as int == fallback_fold(
                *self,
                *trace,
                lower as int,
                upper as int,
                lazy_eval,
                NEG_INF as int,
            ),
            in_range(res as int),
            ready_tbt(*final(tree_table), *final(formula_table), *trace, dict, fdict, lazy_eval),
            same_shape(*old(tree_table), *final(tree_table)),
            same_shape(*old(formula_table), *final(formula_table)),
            keeps_filled(*old(tree_table), *final(tree_table)),
            keeps_filled(*old(formula_table), *final(formula_table)),
            lower > upper ==> *final(tree_table) == *old(tree_table)
                && *final(formula_table) == *old(formula_table),
        decreases *self, 2int, 0int,
    {
        let cs: &Vec<TbtNode> = match self {
            TbtNode::Fallback(_, cs) => cs,
            _ => {
                return NEG_INF;
            },
        };
        if lower > upper {
            return NEG_INF;
        }
        let mut v: i64 = NEG_INF;
        let mut i: usize = lower;
        while i <= upper
            invariant
                *self == TbtNode::Fallback(self->Fallback_0, *cs),
                ready_tbt(*tree_table, *formula_table, *trace, dict, fdict, lazy_eval),
                same_shape(*old(tree_table), *tree_table),
                same_shape(*old(formula_table), *formula_table),
                keeps_filled(*old(tree_table), *tree_table),
                keeps_filled(*old(formula_table), *formula_table),
                self.covered(dict, fdict),
                self.fits(old(tree_table).num_ids(), old(formula_table).num_ids(), trace.atoms@.len()),
                upper < trace.length,
                lower <= i,
                in_range(v as int),
                fallback_fold(
                    *self,
                    *trace,
                    lower as int,
                    upper as int,
                    lazy_eval,
                    NEG_INF as int,
                ) == fallback_fold(*self, *trace, i as int, upper as int, lazy_eval, v as int),
            decreases upper + 1 - i,
        {
            let ghost v0: int = v as int;
            let mut j: usize = 0;
            while j < cs.len()
                invariant
                    *self == TbtNode::Fallback(self->Fallback_0, *cs),
                    ready_tbt(*tree_table, *formula_table, *trace, dict, fdict, lazy_eval),
                    same_shape(*old(tree_table), *tree_table),
                    same_shape(*old(formula_table), *formula_table),
                    keeps_filled(*old(tree_table), *tree_table),
                    keeps_filled(*old(formula_table), *formula_table),
                    self.covered(dict, fdict),
                    self.fits(old(tree_table).num_ids(), old(formula_table).num_ids(), trace.atoms@.len()),
                    upper < trace.length,
                    i <= upper,
                    j <= cs@.len(),
                    in_range(v as int),
                    fallback_children(*self, *trace, 0, i as int, upper as int, lazy_eval, v0)
                        == fallback_children(*self, *trace, j as int, i as int, upper as int, lazy_eval, v as int),
                decreases cs@.len() - j,
            {
                proof {
                    assert(decreases_to!(*self => cs@[j as int]));
                }
                let s_v = cs[j].evaluate(tree_table, formula_table, trace, i, upper, lazy_eval, Ghost(dict), Ghost(fdict));
                let a = rmax(s_v, v);
                v = a;
                if lazy_eval && a > 0 {
                    j = cs.len();
                } else {
                    j = j + 1;
                }
            }
            i = i + 1;
        }
        v
    }

    /// Parallel: the `m`-th largest robustness of the children on the window.
    fn parallel_eval(
        &self,
        tree_table: &mut Table,
        formula_table: &mut Table,
        trace: &Trace,
        lower: usize,
        upper: usize,
        lazy_eval: bool,
        Ghost(dict): Ghost<Map<nat, TbtNode>>,
        Ghost(fdict): Ghost<Map<nat, Stl>>,
    ) -> (res: i64)
        requires
            *self is Parallel,
            ready_tbt(*old(tree_table), *old(formula_table), *trace, dict, fdict, lazy_eval),
            self.covered(dict, fdict),
            self.fits(old(tree_table).num_ids(), old(formula_table).num_ids(), trace.atoms@.len()),
            upper < trace.length,
        ensures
            res as int == rho_tbt(*self, *trace, lower as int, upper as int, lazy_eval),
            in_range(res as int),
            ready_tbt(*final(tree_table), *final(formula_table), *trace, dict, fdict, lazy_eval),
            same_shape(*old(tree_table), *final(tree_table)),
            same_shape(*old(formula_table), *final(formula_table)),
            keeps_filled(*old(tree_table), *final(tree_table)),
            keeps_filled(*old(formula_table), *final(formula_table)),
            lower > upper ==> *final(tree_table) == *old(tree_table)
                && *final(formula_table) == *old(formula_table),
        decreases *self, 2int, 0int,
    {
        let (m, cs): (usize, &Vec<TbtNode>) = match self {
            TbtNode::Parallel(_, m, cs) => (*m, cs),
            _ => {
                return NEG_INF;
            },
        };
        let mut vals: Vec<i64> = Vec::new();
        let mut j: usize = 0;
        while j < cs.len()
            invariant
                *self == TbtNode::Parallel(self->Parallel_0, m, *cs),
                ready_tbt(*tree_table, *formula_table, *trace, dict, fdict, lazy_eval),
                same_shape(*old(tree_table), *tree_table),
                same_shape(*old(formula_table), *formula_table),
                keeps_filled(*old(tree_table), *tree_table),
                keeps_filled(*old(formula_table), *formula_table),
                self.covered(dict, fdict),
                self.fits(old(tree_table).num_ids(), old(formula_table).num_ids(), trace.atoms@.len()),
                upper < trace.length,
                j <= cs@.len(),
                vals@.len() == j,
                lower > upper ==> *tree_table == *old(tree_table) && *formula_table == *old(formula_table),
                forall|k: int| 0 <= k < j ==> in_range(#[trigger] vals@[k] as int),
                forall|k: int|
                    0 <= k < j ==> #[trigger] vals@[k] as int == rho_tbt(
                        cs@[k],
                        *trace,
                        lower as int,
                        upper as int,
                        lazy_eval,
                    ),
            decreases cs@.len() - j,
        {
            proof {
                assert(decreases_to!(*self => cs@[j as int]));
            }
            let s_v = cs[j].evaluate(tree_table, formula_table, trace, lower, upper, lazy_eval, Ghost(dict), Ghost(fdict));
            vals.push(s_v);
            j = j + 1;
        }
        proof {
            lemma_parallel_values(*self, *trace, 0, lower as int, upper as int, lazy_eval);
            assert(ints(vals@) =~= parallel_values(*self, *trace, 0, lower as int, upper as int, lazy_eval));
        }
        select_mth(vals, m)
    }
}


proof fn lemma_seq_max_ge(s: Seq<int>, k: int)
    requires
        0 <= k < s.len(),
    ensures
        seq_max(s) >= s[k],
    decreases s.len(),
{
    if s.len() > 1 && k > 0 {
        lemma_seq_max_ge(s.drop_first(), k - 1);
    }
}

proof fn lemma_seq_min_le(s: Seq<int>, k: int)
    requires
        0 <= k < s.len(),
    ensures
        seq_min(s) <= s[k],
    decreases s.len(),
{
    if s.len() > 1 && k > 0 {
        lemma_seq_min_le(s.drop_first(), k - 1);
    }
}

proof fn lemma_argmax(s: Seq<int>)
    requires
        s.len() >= 1,
    ensures
        0 <= argmax(s) < s.len(),
        s[argmax(s)] == seq_max(s),
    decreases s.len(),
{
    if s.len() > 1 {
        lemma_argmax(s.drop_first());
    }
}

proof fn lemma_seq_min_index(s: Seq<int>) -> (j: int)
    requires
        s.len() >= 1,
    ensures
        0 <= j < s.len(),
        s[j] == seq_min(s),
    decreases s.len(),
{
    if s.len() == 1 {
        0
    } else {
        let j = lemma_seq_min_index(s.drop_first());
        if s[0] <= seq_min(s.drop_first()) {
            0
        } else {
            j + 1
        }
    }
}

/// Taking away a largest element of a sequence of two or more keeps the minimum.
proof fn lemma_seq_min_remove(s: Seq<int>, k: int)
    requires
        s.len() >= 2,
        0 <= k < s.len(),
        s[k] == seq_max(s),
    ensures
        seq_min(s.remove(k)) == seq_min(s),
{
    let t = s.remove(k);
    assert(forall|i: int| 0 <= i < k ==> #[trigger] t[i] == s[i]);
    assert(forall|i: int| k <= i < t.len() ==> #[trigger] t[i] == s[i + 1]);
    let j = lemma_seq_min_index(s);
    let jt = lemma_seq_min_index(t);
    if jt < k {
        lemma_seq_min_le(s, jt);
    } else {
        lemma_seq_min_le(s, jt + 1);
    }
    if j < k {
        lemma_seq_min_le(t, j);
    } else if j > k {
        lemma_seq_min_le(t, j - 1);
    } else {
        let x = if k == 0 {
            1int
        } else {
            0int
        };
        lemma_seq_min_le(t, 0);
        lemma_seq_max_ge(s, x);
    }
}

/// The `|s|`-th largest element is the smallest one.
proof fn lemma_last_largest_is_min(s: Seq<int>)
    requires
        s.len() >= 1,
    ensures
        mth_largest(s, s.len()) == seq_min(s),
    decreases s.len(),
{
    if s.len() > 1 {
        lemma_argmax(s);
        let t = s.remove(argmax(s));
        lemma_last_largest_is_min(t);
        lemma_seq_min_remove(s, argmax(s));
        assert((s.len() - 1) as nat == t.len());
    }
}

/// A Parallel node asking for its only child is that child.
pub proof fn lemma_parallel_single(
    i: usize,
    c: TbtNode,
    cs: Vec<TbtNode>,
    tr: Trace,
    lo: int,
    hi: int,
    lazy: bool,
)
    requires
        cs@ == seq![c],
    ensures
        rho_tbt(TbtNode::Parallel(i, 1, cs), tr, lo, hi, lazy) == rho_tbt(c, tr, lo, hi, lazy),
{
    let node = TbtNode::Parallel(i, 1, cs);
    lemma_parallel_values(node, tr, 0, lo, hi, lazy);
}

/// A Parallel node asking for all of its `n` children has the robustness of the
/// weakest child; asking for one, that of the strongest.
pub proof fn lemma_parallel_all_or_one(
    i: usize,
    n: usize,
    cs: Vec<TbtNode>,
    tr: Trace,
    lo: int,
    hi: int,
    lazy: bool,
)
    requires
        n == cs@.len(),
        n >= 1,
    ensures
        rho_tbt(TbtNode::Parallel(i, n, cs), tr, lo, hi, lazy) == seq_min(
            Seq::new(cs@.len(), |k: int| rho_tbt(cs@[k], tr, lo, hi, lazy)),
        ),
        rho_tbt(TbtNode::Parallel(i, 1, cs), tr, lo, hi, lazy) == seq_max(
            Seq::new(cs@.len(), |k: int| rho_tbt(cs@[k], tr, lo, hi, lazy)),
        ),
{
    let all = TbtNode::Parallel(i, n, cs);
    let one = TbtNode::Parallel(i, 1, cs);
    let vals = Seq::new(cs@.len(), |k: int| rho_tbt(cs@[k], tr, lo, hi, lazy));
    lemma_parallel_values(all, tr, 0, lo, hi, lazy);
    lemma_parallel_values(one, tr, 0, lo, hi, lazy);
    assert(parallel_values(all, tr, 0, lo, hi, lazy) =~= vals);
    assert(parallel_values(one, tr, 0, lo, hi, lazy) =~= vals);
    lemma_last_largest_is_min(vals);
}

proof fn lemma_sequence_fold_monotone(
    a: TbtNode,
    b: TbtNode,
    tr: Trace,
    tr2: Trace,
    lo: int,
    i: int,
    hi: int,
    acc: int,
    acc2: int,
)
    requires
        a is Sequence,
        b is Sequence,
        lo <= i,
        acc <= acc2,
        forall|u: int|
            lo <= u <= hi ==> rho_tbt(*a->Sequence_1, tr, lo, u, false) <= rho_tbt(
                *b->Sequence_1,
                tr2,
                lo,
                u,
                false,
            ) && rho_tbt(*a->Sequence_2, tr, u + 1, hi, false) <= rho_tbt(
                *b->Sequence_2,
                tr2,
                u + 1,
                hi,
                false,
            ),
    ensures
        sequence_fold(a, tr, lo, i, hi, false, acc) <= sequence_fold(b, tr2, lo, i, hi, false, acc2),
    decreases hi + 1 - i,
{
    if i <= hi {
        let x = max_spec(
            acc,
            min_spec(
                rho_tbt(*a->Sequence_1, tr, lo, i, false),
                rho_tbt(*a->Sequence_2, tr, i + 1, hi, false),
            ),
        );
        let y = max_spec(
            acc2,
            min_spec(
                rho_tbt(*b->Sequence_1, tr2, lo, i, false),
                rho_tbt(*b->Sequence_2, tr2, i + 1, hi, false),
            ),
        );
        lemma_sequence_fold_monotone(a, b, tr, tr2, lo, i + 1, hi, x, y);
    }
}

/// Sequence is monotone: where the left and right parts of one Sequence are
/// pointwise no more robust than those of another, on every split point of
/// `[lo, hi]`, so is the Sequence itself.
pub proof fn lemma_sequence_monotone(
    i: usize,
    l: TbtNode,
    r: TbtNode,
    j: usize,
    l2: TbtNode,
    r2: TbtNode,
    tr: Trace,
    tr2: Trace,
    lo: int,
    hi: int,
)
    requires
        forall|u: int|
            lo <= u <= hi ==> rho_tbt(l, tr, lo, u, false) <= rho_tbt(l2, tr2, lo, u, false)
                && rho_tbt(r, tr, u + 1, hi, false) <= rho_tbt(r2, tr2, u + 1, hi, false),
    ensures
        rho_tbt(TbtNode::Sequence(i, Box::new(l), Box::new(r)), tr, lo, hi, false) <= rho_tbt(
            TbtNode::Sequence(j, Box::new(l2), Box::new(r2)),
            tr2,
            lo,
            hi,
            false,
        ),
{
    lemma_sequence_fold_monotone(
        TbtNode::Sequence(i, Box::new(l), Box::new(r)),
        TbtNode::Sequence(j, Box::new(l2), Box::new(r2)),
        tr,
        tr2,
        lo,
        lo,
        hi,
        NEG_INF as int,
        NEG_INF as int,
    );
}

/// A Timeout whose window covers the whole trace changes nothing on it.
pub proof fn lemma_timeout_whole_trace(i: usize, t: usize, c: TbtNode, tr: Trace, lazy: bool)
    requires
        tr.length >= 1,
        t >= tr.length,
    ensures
        rho_tbt(TbtNode::Timeout(i, t, Box::new(c)), tr, 0, tr.length - 1, lazy) == rho_tbt(
            c,
            tr,
            0,
            tr.length - 1,
            lazy,
        ),
{
}

/// Kleene of level zero on a non-empty window is its child.
pub proof fn lemma_kleene_zero(
    i: usize,
    next: Option<Box<TbtNode>>,
    c: TbtNode,
    tr: Trace,
    lo: int,
    hi: int,
    lazy: bool,
)
    requires
        lo <= hi,
    ensures
        rho_tbt(TbtNode::Kleene(i, 0, next, Box::new(c)), tr, lo, hi, lazy) == rho_tbt(
            c,
            tr,
            lo,
            hi,
            lazy,
        ),
{
}


/// Equality of trees, children compared one by one.
pub open spec fn same(a: TbtNode, b: TbtNode) -> bool
    decreases a,
{
    match a {
        TbtNode::Leaf(i, f, n) => b is Leaf && b->Leaf_0 == i && b->Leaf_1 == f && b->Leaf_2@ == n@,
        TbtNode::Fallback(i, cs) => b is Fallback && b->Fallback_0 == i && cs@.len()
            == b->Fallback_1@.len() && forall|j: int|
            0 <= j < cs@.len() ==> same(#[trigger] cs@[j], b->Fallback_1@[j]),
        TbtNode::Parallel(i, m, cs) => b is Parallel && b->Parallel_0 == i && b->Parallel_1 == m
            && cs@.len() == b->Parallel_2@.len() && forall|j: int|
            0 <= j < cs@.len() ==> same(#[trigger] cs@[j], b->Parallel_2@[j]),
        TbtNode::Sequence(i, l, r) => b is Sequence && b->Sequence_0 == i && same(
            *l,
            *b->Sequence_1,
        ) && same(*r, *b->Sequence_2),
        TbtNode::Timeout(i, t, c) => b is Timeout && b->Timeout_0 == i && b->Timeout_1 == t
            && same(*c, *b->Timeout_2),
        TbtNode::Kleene(i, n, nx, c) => b is Kleene && b->Kleene_0 == i && b->Kleene_1 == n
            && same(*c, *b->Kleene_3) && match nx {
            Some(x) => b->Kleene_2 is Some && same(*x, *b->Kleene_2->0),
            None => b->Kleene_2 is None,
        },
    }
}

/// The chain of Kleene nodes of levels `n` down to 0 over `child`, the node of
/// level `n` with id `id` and each next level with the next id.
pub open spec fn kleene_chain(id: int, n: nat, child: TbtNode) -> TbtNode
    decreases n,
{
    TbtNode::Kleene(
        id as usize,
        n as usize,
        if n > 0 {
            Some(Box::new(kleene_chain(id + 1, (n - 1) as nat, child)))
        } else {
            None
        },
        Box::new(child),
    )
}

// Constructors. Each takes the next free id from `count` and advances it.
impl TbtNode {
    /// A copy of the tree, ids included.
    pub fn copy(&self) -> (r: TbtNode)
        ensures
            same(r, *self),
        decreases *self,
    {
        match self {
            TbtNode::Leaf(i, f, name) => TbtNode::Leaf(*i, f.copy(), name.clone()),
            TbtNode::Fallback(i, cs) => TbtNode::Fallback(*i, copy_children(self, cs)),
            TbtNode::Parallel(i, m, cs) => TbtNode::Parallel(*i, *m, copy_children(self, cs)),
            TbtNode::Sequence(i, l, r) => TbtNode::Sequence(*i, Box::new(l.copy()), Box::new(r.copy())),
            TbtNode::Timeout(i, t, c) => TbtNode::Timeout(*i, *t, Box::new(c.copy())),
            TbtNode::Kleene(i, n, next, c) => {
                let nx = match next {
                    Some(k) => Some(Box::new(k.copy())),
                    None => None,
                };
                TbtNode::Kleene(*i, *n, nx, Box::new(c.copy()))
            },
        }
    }

    pub fn leaf(count: &mut usize, formula: Stl, name: String) -> (r: TbtNode)
        requires
            *old(count) < usize::MAX,
        ensures
            r == TbtNode::Leaf(*old(count), formula, name),
            *final(count) == *old(count) + 1,
    {
        let id = *count;
        *count = id + 1;
        TbtNode::Leaf(id, formula, name)
    }

    pub fn fallback(count: &mut usize, formulas: Vec<TbtNode>) -> (r: TbtNode)
        requires
            *old(count) < usize::MAX,
        ensures
            r == TbtNode::Fallback(*old(count), formulas),
            *final(count) == *old(count) + 1,
    {
        let id = *count;
        *count = id + 1;
        TbtNode::Fallback(id, formulas)
    }

    pub fn parallel(count: &mut usize, m: usize, formulas: Vec<TbtNode>) -> (r: TbtNode)
        requires
            *old(count) < usize::MAX,
        ensures
            r == TbtNode::Parallel(*old(count), m, formulas),
            *final(count) == *old(count) + 1,
    {
        let id = *count;
        *count = id + 1;
        TbtNode::Parallel(id, m, formulas)
    }

    pub fn sequence(count: &mut usize, left_child: TbtNode, right_child: TbtNode) -> (r: TbtNode)
        requires
            *old(count) < usize::MAX,
        ensures
            r == TbtNode::Sequence(*old(count), Box::new(left_child), Box::new(right_child)),
            *final(count) == *old(count) + 1,
    {
        let id = *count;
        *count = id + 1;
        TbtNode::Sequence(id, Box::new(left_child), Box::new(right_child))
    }

    pub fn timeout(count: &mut usize, t: usize, child: TbtNode) -> (r: TbtNode)
        requires
            *old(count) < usize::MAX,
        ensures
            r == TbtNode::Timeout(*old(count), t, Box::new(child)),
            *final(count) == *old(count) + 1,
    {
        let id = *count;
        *count = id + 1;
        TbtNode::Timeout(id, t, Box::new(child))
    }

    /// The `n`-fold sequential repetition of `child`, as a chain of Kleene nodes of
    /// levels `n` down to 0 that take the ids from the current one on.
    pub fn kleene(count: &mut usize, n: usize, child: TbtNode) -> (r: TbtNode)
        requires
            *old(count) + n < usize::MAX,
        ensures
            same(r, kleene_chain(*old(count) as int, n as nat, child)),
            *final(count) == *old(count) + n + 1,
    {
        let first = *count;
        *count = first + n + 1;
        kleene_from(first, n, &child)
    }

    /// At least one repetition of `child`: a Parallel node asking for one of the
    /// Kleene chains of levels `max(1, trace_length)` down to 1.
    pub fn kleene_inf(count: &mut usize, child: TbtNode, trace_length: usize) -> (r: TbtNode)
        requires
            *old(count) + trace_length + 3 < usize::MAX,
        ensures
            ({
                let n = if trace_length > 1 { trace_length } else { 1 };
                &&& *final(count) == *old(count) + n + 2
                &&& r is Parallel
                &&& r->Parallel_0 == *old(count) + n + 1
                &&& r->Parallel_1 == 1
                &&& r->Parallel_2@.len() == n
                &&& forall|k: int|
                    0 <= k < n ==> same(
                        #[trigger] r->Parallel_2@[k],
                        kleene_chain(*old(count) + k, (n - k) as nat, child),
                    )
            }),
    {
        let n: usize = if trace_length > 1 {
            trace_length
        } else {
            1
        };
        let first = *count;
        let mut formulas: Vec<TbtNode> = Vec::new();
        let mut k: usize = 0;
        while k < n
            invariant
                first + n + 2 < usize::MAX,
                k <= n,
                formulas@.len() == k,
                forall|j: int|
                    0 <= j < k ==> same(
                        #[trigger] formulas@[j],
                        kleene_chain(first + j, (n - j) as nat, child),
                    ),
            decreases n - k,
        {
            formulas.push(kleene_from(first + k, n - k, &child));
            k = k + 1;
        }
        *count = first + n + 1;
        TbtNode::parallel(count, 1, formulas)
    }
}

/// A Kleene chain of levels `n` down to 0 with ids from `first` on, each level
/// over a copy of `child`.
fn kleene_from(first: usize, n: usize, child: &TbtNode) -> (r: TbtNode)
    requires
        first + n < usize::MAX,
    ensures
        same(r, kleene_chain(first as int, n as nat, *child)),
{
    let mut level: usize = 0;
    let mut cur = TbtNode::Kleene(first + n, 0, None, Box::new(child.copy()));
    while level < n
        invariant
            first + n < usize::MAX,
            level <= n,
            same(cur, kleene_chain(first + n - level, level as nat, *child)),
        decreases n - level,
    {
        let c = child.copy();
        cur = TbtNode::Kleene(first + n - level - 1, level + 1, Some(Box::new(cur)), Box::new(c));
        level = level + 1;
    }
    cur
}

/// Copies of the children of `node`.
fn copy_children(node: &TbtNode, cs: &Vec<TbtNode>) -> (r: Vec<TbtNode>)
    requires
        match *node {
            TbtNode::Fallback(_, c) => c == *cs,
            TbtNode::Parallel(_, _, c) => c == *cs,
            _ => false,
        },
    ensures
        r@.len() == cs@.len(),
        forall|j: int| 0 <= j < cs@.len() ==> same(#[trigger] r@[j], cs@[j]),
    decreases *node, 0int,
{
    let mut r: Vec<TbtNode> = Vec::new();
    let mut j: usize = 0;
    while j < cs.len()
        invariant
            match *node {
                TbtNode::Fallback(_, c) => c == *cs,
                TbtNode::Parallel(_, _, c) => c == *cs,
                _ => false,
            },
            j <= cs@.len(),
            r@.len() == j,
            forall|k: int| 0 <= k < j ==> same(#[trigger] r@[k], cs@[k]),
        decreases cs@.len() - j,
    {
        proof {
            assert(decreases_to!(*node => cs@[j as int]));
        }
        r.push(cs[j].copy());
        j = j + 1;
    }
    r
}


/// A temporal behavior tree with the number of node ids and formula ids its
/// construction used, and for each leaf the leaves that may come right after it.
pub struct Tbt {
    pub next_nodes: HashMap<usize, Vec<usize>>,
    pub tree: TbtNode,
    pub node_count: usize,
    pub formula_count: usize,
}

impl Tbt {
    /// The tree fits tables of the counts over `trace`, and equal ids mean equal
    /// subtrees.
    pub open spec fn wf_for(&self, trace: &Trace) -> bool {
        &&& self.tree.fits(self.node_count as nat, self.formula_count as nat, trace.atoms@.len())
        &&& exists|d: Map<nat, TbtNode>, fd: Map<nat, Stl>| self.tree.covered(d, fd)
        &&& total_cells(self.node_count as int, trace.length as int) <= usize::MAX
        &&& total_cells(self.formula_count as int, trace.length as int) <= usize::MAX
    }

    pub fn new(tree: TbtNode, node_count: usize, formula_count: usize) -> (r: Tbt)
        ensures
            r.tree == tree,
            r.node_count == node_count,
            r.formula_count == formula_count,
            views(r.next_nodes@) == next_map(tree, None, Map::empty()),
    {
        let mut next_nodes: HashMap<usize, Vec<usize>> = HashMap::new();
        proof {
            assert(views(next_nodes@) =~= Map::<usize, Seq<usize>>::empty());
        }
        Tbt::init_next_nodes_map(&tree, &None, &mut next_nodes);
        Tbt { next_nodes, tree, node_count, formula_count }
    }

    /// Records, for each leaf under `node`, the leaves that may follow it:
    /// `pending` holds those of the nearest enclosing Sequence whose left part
    /// holds `node`.
    fn init_next_nodes_map(node: &TbtNode, pending: &Option<Vec<usize>>, map: &mut HashMap<usize, Vec<usize>>)
        ensures
            views(final(map)@) == next_map(*node, opt_view(*pending), views(old(map)@)),
        decreases *node, 2int, 0int,
    {
        match node {
            TbtNode::Leaf(index, _, _) => {
                match pending {
                    Some(next_leaves) => {
                        let v = copy_ids(next_leaves);
                        let ghost before = map@;
                        map.insert(*index, v);
                        proof {
                            assert(views(map@) =~= views(before).insert(*index, next_leaves@));
                        }
                    },
                    None => {},
                }
            },
            TbtNode::Fallback(_, cs) | TbtNode::Parallel(_, _, cs) => {
                let mut j: usize = 0;
                while j < cs.len()
                    invariant
                        match *node {
                            TbtNode::Fallback(_, c) => c == *cs,
                            TbtNode::Parallel(_, _, c) => c == *cs,
                            _ => false,
                        },
                        j <= cs@.len(),
                        next_map(*node, opt_view(*pending), views(old(map)@)) == next_map_children(
                            *node,
                            j as int,
                            opt_view(*pending),
                            views(map@),
                        ),
                    decreases cs@.len() - j,
                {
                    proof {
                        assert(decreases_to!(*node => cs@[j as int]));
                    }
                    Tbt::init_next_nodes_map(&cs[j], pending, map);
                    j = j + 1;
                }
            },
            TbtNode::Sequence(_, l, r) => {
                let first = Tbt::get_first_leaf(r);
                Tbt::init_next_nodes_map(l, &Some(first), map);
                Tbt::init_next_nodes_map(r, pending, map);
            },
            TbtNode::Timeout(_, _, c) | TbtNode::Kleene(_, _, _, c) => {
                Tbt::init_next_nodes_map(c, pending, map);
            },
        }
    }

    /// The leaves that may come first when `node` starts.
    fn get_first_leaf(node: &TbtNode) -> (r: Vec<usize>)
        ensures
            r@ == first_leaves(*node),
        decreases *node, 2int, 0int,
    {
        match node {
            TbtNode::Leaf(index, _, _) => {
                let mut v: Vec<usize> = Vec::new();
                v.push(*index);
                proof {
                    assert(v@ =~= seq![*index]);
                }
                v
            },
            TbtNode::Fallback(_, cs) | TbtNode::Parallel(_, _, cs) => {
                let mut vec_next: Vec<usize> = Vec::new();
                let mut j: usize = 0;
                proof {
                    assert(vec_next@ + first_leaves_children(*node, 0) =~= first_leaves_children(*node, 0));
                }
                while j < cs.len()
                    invariant
                        match *node {
                            TbtNode::Fallback(_, c) => c == *cs,
                            TbtNode::Parallel(_, _, c) => c == *cs,
                            _ => false,
                        },
                        j <= cs@.len(),
                        first_leaves(*node) == vec_next@ + first_leaves_children(*node, j as int),
                    decreases cs@.len() - j,
                {
                    proof {
                        assert(decreases_to!(*node => cs@[j as int]));
                    }
                    let ghost before = vec_next@;
                    let mut more = Tbt::get_first_leaf(&cs[j]);
                    vec_next.append(&mut more);
                    proof {
                        assert(before + first_leaves_children(*node, j as int) =~= vec_next@
                            + first_leaves_children(*node, j + 1));
                    }
                    j = j + 1;
                }
                proof {
                    assert(vec_next@ + first_leaves_children(*node, j as int) =~= vec_next@);
                }
                vec_next
            },
            TbtNode::Sequence(_, c, _) | TbtNode::Timeout(_, _, c) | TbtNode::Kleene(_, _, _, c) => {
                Tbt::get_first_leaf(c)
            },
        }
    }
}


/// The sequences a map of vectors holds.
pub open spec fn views(m: Map<usize, Vec<usize>>) -> Map<usize, Seq<usize>> {
    m.map_values(|v: Vec<usize>| v@)
}

pub open spec fn opt_view(o: Option<Vec<usize>>) -> Option<Seq<usize>> {
    match o {
        Some(v) => Some(v@),
        None => None,
    }
}

/// The leaves that may come first when `node` starts: the first leaves of every
/// child of a Fallback or Parallel, of the left part of a Sequence and of the
/// child of a Timeout or Kleene node.
pub open spec fn first_leaves(node: TbtNode) -> Seq<usize>
    decreases node, 2int, 0int,
{
    match node {
        TbtNode::Leaf(i, _, _) => seq![i],
        TbtNode::Fallback(_, _) => first_leaves_children(node, 0),
        TbtNode::Parallel(_, _, _) => first_leaves_children(node, 0),
        TbtNode::Sequence(_, l, _) => first_leaves(*l),
        TbtNode::Timeout(_, _, c) => first_leaves(*c),
        TbtNode::Kleene(_, _, _, c) => first_leaves(*c),
    }
}

pub open spec fn first_leaves_children(node: TbtNode, j: int) -> Seq<usize>
    decreases node, 1int, (match node {
        TbtNode::Fallback(_, cs) => cs@.len() - j,
        TbtNode::Parallel(_, _, cs) => cs@.len() - j,
        _ => 0,
    }),
{
    match node {
        TbtNode::Fallback(_, cs) | TbtNode::Parallel(_, _, cs) => if j < 0 || j >= cs@.len() {
            Seq::empty()
        } else {
            first_leaves(cs@[j]) + first_leaves_children(node, j + 1)
        },
        _ => Seq::empty(),
    }
}

/// `m` with, for each leaf under `node` that lies in the left part of a
/// Sequence, the first leaves of the right part of the nearest such Sequence
/// (`pending` for those of an enclosing one); later leaves overwrite earlier
/// ones of the same id.
pub open spec fn next_map(
    node: TbtNode,
    pending: Option<Seq<usize>>,
    m: Map<usize, Seq<usize>>,
) -> Map<usize, Seq<usize>>
    decreases node, 2int, 0int,
{
    match node {
        TbtNode::Leaf(i, _, _) => match pending {
            Some(s) => m.insert(i, s),
            None => m,
        },
        TbtNode::Fallback(_, _) => next_map_children(node, 0, pending, m),
        TbtNode::Parallel(_, _, _) => next_map_children(node, 0, pending, m),
        TbtNode::Sequence(_, l, r) => next_map(*r, pending, next_map(*l, Some(first_leaves(*r)), m)),
        TbtNode::Timeout(_, _, c) => next_map(*c, pending, m),
        TbtNode::Kleene(_, _, _, c) => next_map(*c, pending, m),
    }
}

pub open spec fn next_map_children(
    node: TbtNode,
    j: int,
    pending: Option<Seq<usize>>,
    m: Map<usize, Seq<usize>>,
) -> Map<usize, Seq<usize>>
    decreases node, 1int, (match node {
        TbtNode::Fallback(_, cs) => cs@.len() - j,
        TbtNode::Parallel(_, _, cs) => cs@.len() - j,
        _ => 0,
    }),
{
    match node {
        TbtNode::Fallback(_, cs) | TbtNode::Parallel(_, _, cs) => if j < 0 || j >= cs@.len() {
            m
        } else {
            next_map_children(node, j + 1, pending, next_map(cs@[j], pending, m))
        },
        _ => m,
    }
}

/// A copy of a list of ids.
fn copy_ids(v: &Vec<usize>) -> (r: Vec<usize>)
    ensures
        r@ == v@,
{
    let mut r: Vec<usize> = Vec::new();
    let mut k: usize = 0;
    while k < v.len()
        invariant
            k <= v@.len(),
            r@ == v@.take(k as int),
        decreases v@.len() - k,
    {
        r.push(v[k]);
        k = k + 1;
        proof {
            assert(r@ =~= v@.take(k as int));
        }
    }
    proof {
        assert(v@.take(k as int) =~= v@);
    }
    r
}


/// The first leaf (left to right) with id `id` under `node`.
pub open spec fn find_leaf(node: TbtNode, id: nat) -> Option<TbtNode>
    decreases node, 2int, 0int,
{
    match node {
        TbtNode::Leaf(i, _, _) => if i == id {
            Some(node)
        } else {
            None
        },
        TbtNode::Fallback(_, _) => find_leaf_children(node, 0, id),
        TbtNode::Parallel(_, _, _) => find_leaf_children(node, 0, id),
        TbtNode::Sequence(_, l, r) => match find_leaf(*l, id) {
            Some(x) => Some(x),
            None => find_leaf(*r, id),
        },
        TbtNode::Timeout(_, _, c) => find_leaf(*c, id),
        TbtNode::Kleene(_, _, _, c) => find_leaf(*c, id),
    }
}

pub open spec fn find_leaf_children(node: TbtNode, j: int, id: nat) -> Option<TbtNode>
    decreases node, 1int, (match node {
        TbtNode::Fallback(_, cs) => cs@.len() - j,
        TbtNode::Parallel(_, _, cs) => cs@.len() - j,
        _ => 0,
    }),
{
    match node {
        TbtNode::Fallback(_, cs) | TbtNode::Parallel(_, _, cs) => if j < 0 || j >= cs@.len() {
            None
        } else {
            match find_leaf(cs@[j], id) {
                Some(x) => Some(x),
                None => find_leaf_children(node, j + 1, id),
            }
        },
        _ => None,
    }
}

/// Atomic propositions of the formulas of the leaves under `node`, left to right.
pub open spec fn tree_atoms(node: TbtNode) -> Seq<usize>
    decreases node, 2int, 0int,
{
    match node {
        TbtNode::Leaf(_, f, _) => atoms_of(f),
        TbtNode::Fallback(_, _) => tree_atoms_children(node, 0),
        TbtNode::Parallel(_, _, _) => tree_atoms_children(node, 0),
        TbtNode::Sequence(_, l, r) => tree_atoms(*l) + tree_atoms(*r),
        TbtNode::Timeout(_, _, c) => tree_atoms(*c),
        TbtNode::Kleene(_, _, _, c) => tree_atoms(*c),
    }
}

pub open spec fn tree_atoms_children(node: TbtNode, j: int) -> Seq<usize>
    decreases node, 1int, (match node {
        TbtNode::Fallback(_, cs) => cs@.len() - j,
        TbtNode::Parallel(_, _, cs) => cs@.len() - j,
        _ => 0,
    }),
{
    match node {
        TbtNode::Fallback(_, cs) | TbtNode::Parallel(_, _, cs) => if j < 0 || j >= cs@.len() {
            Seq::empty()
        } else {
            tree_atoms(cs@[j]) + tree_atoms_children(node, j + 1)
        },
        _ => Seq::empty(),
    }
}

impl TbtNode {
    /// The first leaf (left to right) with id `leaf_index`.
    pub fn get_leaf(&self, leaf_index: usize) -> (r: Option<&TbtNode>)
        ensures
            match r {
                Some(x) => find_leaf(*self, leaf_index as nat) == Some(*x) && *x is Leaf
                    && x->Leaf_0 == leaf_index,
                None => find_leaf(*self, leaf_index as nat) is None,
            },
        decreases *self, 2int, 0int,
    {
        match self {
            TbtNode::Leaf(index, _, _) => {
                if leaf_index == *index {
                    Some(self)
                } else {
                    None
                }
            },
            TbtNode::Fallback(_, cs) | TbtNode::Parallel(_, _, cs) => {
                let mut j: usize = 0;
                while j < cs.len()
                    invariant
                        match *self {
                            TbtNode::Fallback(_, c) => c == *cs,
                            TbtNode::Parallel(_, _, c) => c == *cs,
                            _ => false,
                        },
                        j <= cs@.len(),
                        find_leaf(*self, leaf_index as nat) == find_leaf_children(*self, j as int, leaf_index as nat),
                    decreases cs@.len() - j,
                {
                    proof {
                        assert(decreases_to!(*self => cs@[j as int]));
                    }
                    let leaf = cs[j].get_leaf(leaf_index);
                    if leaf.is_some() {
                        return leaf;
                    }
                    j = j + 1;
                }
                None
            },
            TbtNode::Sequence(_, l_child, r_child) => {
                let leaf = l_child.get_leaf(leaf_index);
                if leaf.is_some() {
                    return leaf;
                }
                r_child.get_leaf(leaf_index)
            },
            TbtNode::Timeout(_, _, child) | TbtNode::Kleene(_, _, _, child) => child.get_leaf(leaf_index),
        }
    }

    /// The formula of the first leaf (left to right) with id `look_for_index`.
    pub fn get_leaf_formula(&self, look_for_index: usize) -> (r: Option<&Stl>)
        ensures
            match r {
                Some(f) => find_leaf(*self, look_for_index as nat) matches Some(TbtNode::Leaf(_, g, _)) && g == *f,
                None => find_leaf(*self, look_for_index as nat) is None,
            },
    {
        match self.get_leaf(look_for_index) {
            Some(TbtNode::Leaf(_, formula, _)) => Some(formula),
            _ => None,
        }
    }

    /// The atomic propositions of all leaf formulas, left to right.
    pub fn get_atomics(&self) -> (r: Vec<usize>)
        ensures
            r@ == tree_atoms(*self),
        decreases *self, 2int, 0int,
    {
        match self {
            TbtNode::Leaf(_, formula, _) => formula.get_atomics(),
            TbtNode::Fallback(_, cs) | TbtNode::Parallel(_, _, cs) => {
                let mut atomics: Vec<usize> = Vec::new();
                let mut j: usize = 0;
                proof {
                    assert(atomics@ + tree_atoms_children(*self, 0) =~= tree_atoms_children(*self, 0));
                }
                while j < cs.len()
                    invariant
                        match *self {
                            TbtNode::Fallback(_, c) => c == *cs,
                            TbtNode::Parallel(_, _, c) => c == *cs,
                            _ => false,
                        },
                        j <= cs@.len(),
                        tree_atoms(*self) == atomics@ + tree_atoms_children(*self, j as int),
                    decreases cs@.len() - j,
                {
                    proof {
                        assert(decreases_to!(*self => cs@[j as int]));
                    }
                    let ghost before = atomics@;
                    let mut more = cs[j].get_atomics();
                    atomics.append(&mut more);
                    proof {
                        assert(before + tree_atoms_children(*self, j as int) =~= atomics@
                            + tree_atoms_children(*self, j + 1));
                    }
                    j = j + 1;
                }
                proof {
                    assert(atomics@ + tree_atoms_children(*self, j as int) =~= atomics@);
                }
                atomics
            },
            TbtNode::Sequence(_, l_child, r_child) => {
                let mut atomics = l_child.get_atomics();
                let mut more = r_child.get_atomics();
                atomics.append(&mut more);
                atomics
            },
            TbtNode::Timeout(_, _, child) | TbtNode::Kleene(_, _, _, child) => child.get_atomics(),
        }
    }
}


/// Number of positive elements of `s`.
pub open spec fn count_pos(s: Seq<int>) -> nat
    decreases s.len(),
{
    if s.len() == 0 {
        0
    } else {
        (if s[0] > 0 { 1nat } else { 0nat }) + count_pos(s.drop_first())
    }
}

/// Number of non-negative elements of `s`.
pub open spec fn count_nonneg(s: Seq<int>) -> nat
    decreases s.len(),
{
    if s.len() == 0 {
        0
    } else {
        (if s[0] >= 0 { 1nat } else { 0nat }) + count_nonneg(s.drop_first())
    }
}

proof fn lemma_count_remove(s: Seq<int>, k: int)
    requires
        0 <= k < s.len(),
    ensures
        count_pos(s.remove(k)) + (if s[k] > 0 { 1nat } else { 0nat }) == count_pos(s),
        count_nonneg(s.remove(k)) + (if s[k] >= 0 { 1nat } else { 0nat }) == count_nonneg(s),
    decreases s.len(),
{
    if k == 0 {
        assert(s.remove(0) =~= s.drop_first());
    } else {
        assert(s.remove(k).drop_first() =~= s.drop_first().remove(k - 1));
        assert(s.remove(k)[0] == s[0]);
        lemma_count_remove(s.drop_first(), k - 1);
    }
}

proof fn lemma_count_bounds(s: Seq<int>)
    ensures
        (exists|k: int| 0 <= k < s.len() && s[k] > 0) <==> count_pos(s) >= 1,
        (exists|k: int| 0 <= k < s.len() && s[k] >= 0) <==> count_nonneg(s) >= 1,
    decreases s.len(),
{
    if s.len() > 0 {
        lemma_count_bounds(s.drop_first());
        if exists|k: int| 0 <= k < s.len() && s[k] > 0 {
            let k = choose|k: int| 0 <= k < s.len() && s[k] > 0;
            if k > 0 {
                assert(s.drop_first()[k - 1] > 0);
            }
        }
        if exists|k: int| 0 <= k < s.drop_first().len() && s.drop_first()[k] > 0 {
            let k = choose|k: int| 0 <= k < s.drop_first().len() && s.drop_first()[k] > 0;
            assert(s[k + 1] > 0);
        }
        if exists|k: int| 0 <= k < s.len() && s[k] >= 0 {
            let k = choose|k: int| 0 <= k < s.len() && s[k] >= 0;
            if k > 0 {
                assert(s.drop_first()[k - 1] >= 0);
            }
        }
        if exists|k: int| 0 <= k < s.drop_first().len() && s.drop_first()[k] >= 0 {
            let k = choose|k: int| 0 <= k < s.drop_first().len() && s.drop_first()[k] >= 0;
            assert(s[k + 1] >= 0);
        }
    }
}

/// The sign of the `m`-th largest element is decided by how many elements are
/// positive and how many are not negative.
proof fn lemma_mth_sign(s: Seq<int>, m: nat)
    requires
        1 <= m <= s.len(),
    ensures
        mth_largest(s, m) > 0 <==> count_pos(s) >= m,
        mth_largest(s, m) < 0 <==> count_nonneg(s) < m,
    decreases m,
{
    lemma_argmax(s);
    let k = argmax(s);
    lemma_count_bounds(s);
    assert forall|j: int| 0 <= j < s.len() implies s[j] <= seq_max(s) by {
        lemma_seq_max_ge(s, j);
    }
    if m > 1 {
        let t = s.remove(k);
        lemma_count_remove(s, k);
        lemma_mth_sign(t, (m - 1) as nat);
        if s[k] <= 0 {
            assert(count_pos(s) == 0) by {
                if count_pos(s) >= 1 {
                    let j = choose|j: int| 0 <= j < s.len() && s[j] > 0;
                }
            }
        }
        if s[k] < 0 {
            assert(count_nonneg(s) == 0) by {
                if count_nonneg(s) >= 1 {
                    let j = choose|j: int| 0 <= j < s.len() && s[j] >= 0;
                }
            }
        }
    }
}

proof fn lemma_same_counts(s: Seq<int>, s2: Seq<int>)
    requires
        s.len() == s2.len(),
        forall|k: int| 0 <= k < s.len() ==> same_sign(#[trigger] s[k], s2[k]),
    ensures
        count_pos(s) == count_pos(s2),
        count_nonneg(s) == count_nonneg(s2),
    decreases s.len(),
{
    if s.len() > 0 {
        assert(same_sign(s[0], s2[0]));
        let d = s.drop_first();
        let d2 = s2.drop_first();
        assert forall|k: int| 0 <= k < d.len() implies same_sign(#[trigger] d[k], d2[k]) by {
            assert(same_sign(s[k + 1], s2[k + 1]));
        }
        lemma_same_counts(d, d2);
    }
}

proof fn lemma_sequence_fold_grows(node: TbtNode, tr: Trace, lo: int, i: int, hi: int, acc: int)
    ensures
        sequence_fold(node, tr, lo, i, hi, false, acc) >= acc,
    decreases hi + 1 - i,
{
    if i <= hi {
        match node {
            TbtNode::Sequence(_, l, r) => {
                let a = max_spec(acc, min_spec(rho_tbt(*l, tr, lo, i, false), rho_tbt(*r, tr, i + 1, hi, false)));
                lemma_sequence_fold_grows(node, tr, lo, i + 1, hi, a);
            },
            TbtNode::Kleene(_, _, Some(nx), c) => {
                let a = max_spec(acc, min_spec(rho_tbt(*c, tr, lo, i, false), rho_tbt(*nx, tr, i + 1, hi, false)));
                lemma_sequence_fold_grows(node, tr, lo, i + 1, hi, a);
            },
            _ => {},
        }
    }
}

proof fn lemma_sequence_fold_sign(
    node: TbtNode,
    k: nat,
    kf: nat,
    a: nat,
    tr: Trace,
    lo: int,
    i: int,
    hi: int,
    acc: int,
    acc2: int,
)
    requires
        node.fits(k, kf, a),
        same_sign(acc, acc2),
    ensures
        same_sign(
            sequence_fold(node, tr, lo, i, hi, true, acc),
            sequence_fold(node, tr, lo, i, hi, false, acc2),
        ),
    decreases node, 2int, hi + 1 - i,
{
    if i <= hi {
        match node {
            TbtNode::Sequence(_, l, r) | TbtNode::Kleene(_, _, Some(r), l) => {
                lemma_tbt_lazy_sign(*l, k, kf, a, tr, lo, i);
                lemma_tbt_lazy_sign(*r, k, kf, a, tr, i + 1, hi);
                let x = max_spec(acc, min_spec(rho_tbt(*l, tr, lo, i, true), rho_tbt(*r, tr, i + 1, hi, true)));
                let x2 = max_spec(acc2, min_spec(rho_tbt(*l, tr, lo, i, false), rho_tbt(*r, tr, i + 1, hi, false)));
                if x > 0 {
                    lemma_sequence_fold_grows(node, tr, lo, i + 1, hi, x2);
                } else {
                    lemma_sequence_fold_sign(node, k, kf, a, tr, lo, i + 1, hi, x, x2);
                }
            },
            _ => {},
        }
    }
}

proof fn lemma_fallback_children_grows(node: TbtNode, tr: Trace, j: int, i: int, hi: int, acc: int)
    ensures
        fallback_children(node, tr, j, i, hi, false, acc) >= acc,
    decreases node->Fallback_1@.len() - j,
{
    match node {
        TbtNode::Fallback(_, cs) => if 0 <= j < cs@.len() {
            let a = max_spec(acc, rho_tbt(cs@[j], tr, i, hi, false));
            lemma_fallback_children_grows(node, tr, j + 1, i, hi, a);
        },
        _ => {},
    }
}

proof fn lemma_fallback_fold_grows(node: TbtNode, tr: Trace, i: int, hi: int, acc: int)
    ensures
        fallback_fold(node, tr, i, hi, false, acc) >= acc,
    decreases hi + 1 - i,
{
    if i <= hi {
        lemma_fallback_children_grows(node, tr, 0, i, hi, acc);
        lemma_fallback_fold_grows(node, tr, i + 1, hi, fallback_children(node, tr, 0, i, hi, false, acc));
    }
}

proof fn lemma_fallback_children_sign(
    node: TbtNode,
    k: nat,
    kf: nat,
    a: nat,
    tr: Trace,
    j: int,
    i: int,
    hi: int,
    acc: int,
    acc2: int,
)
    requires
        node.fits(k, kf, a),
        same_sign(acc, acc2),
    ensures
        same_sign(
            fallback_children(node, tr, j, i, hi, true, acc),
            fallback_children(node, tr, j, i, hi, false, acc2),
        ),
    decreases node, 1int, node->Fallback_1@.len() - j,
{
    match node {
        TbtNode::Fallback(_, cs) => if 0 <= j < cs@.len() {
            lemma_tbt_lazy_sign(cs@[j], k, kf, a, tr, i, hi);
            let x = max_spec(acc, rho_tbt(cs@[j], tr, i, hi, true));
            let x2 = max_spec(acc2, rho_tbt(cs@[j], tr, i, hi, false));
            if x > 0 {
                lemma_fallback_children_grows(node, tr, j + 1, i, hi, x2);
            } else {
                lemma_fallback_children_sign(node, k, kf, a, tr, j + 1, i, hi, x, x2);
            }
        },
        _ => {},
    }
}

proof fn lemma_fallback_fold_sign(
    node: TbtNode,
    k: nat,
    kf: nat,
    a: nat,
    tr: Trace,
    i: int,
    hi: int,
    acc: int,
    acc2: int,
)
    requires
        node.fits(k, kf, a),
        same_sign(acc, acc2),
    ensures
        same_sign(fallback_fold(node, tr, i, hi, true, acc), fallback_fold(node, tr, i, hi, false, acc2)),
    decreases node, 2int, hi + 1 - i,
{
    if i <= hi {
        lemma_fallback_children_sign(node, k, kf, a, tr, 0, i, hi, acc, acc2);
        lemma_fallback_fold_sign(
            node,
            k,
            kf,
            a,
            tr,
            i + 1,
            hi,
            fallback_children(node, tr, 0, i, hi, true, acc),
            fallback_children(node, tr, 0, i, hi, false, acc2),
        );
    }
}

/// Lazy evaluation keeps the sign: the lazy robustness of a well-formed tree is
/// positive, negative or zero exactly when its robustness is.
pub proof fn lemma_tbt_lazy_sign(node: TbtNode, k: nat, kf: nat, a: nat, tr: Trace, lo: int, hi: int)
    requires
        node.fits(k, kf, a),
    ensures
        same_sign(rho_tbt(node, tr, lo, hi, true), rho_tbt(node, tr, lo, hi, false)),
    decreases node, 3int, 0int,
{
    match node {
        TbtNode::Leaf(_, f, _) => {
            lemma_lazy_sign(f, tr, lo, hi);
        },
        TbtNode::Fallback(_, _) => {
            lemma_fallback_fold_sign(node, k, kf, a, tr, lo, hi, NEG_INF as int, NEG_INF as int);
        },
        TbtNode::Parallel(_, m, cs) => {
            lemma_parallel_values(node, tr, 0, lo, hi, true);
            lemma_parallel_values(node, tr, 0, lo, hi, false);
            let s = parallel_values(node, tr, 0, lo, hi, true);
            let s2 = parallel_values(node, tr, 0, lo, hi, false);
            assert forall|j: int| 0 <= j < s.len() implies same_sign(#[trigger] s[j], s2[j]) by {
                assert(decreases_to!(node => cs@[j]));
                lemma_tbt_lazy_sign(cs@[j], k, kf, a, tr, lo, hi);
            }
            lemma_same_counts(s, s2);
            lemma_mth_sign(s, m as nat);
            lemma_mth_sign(s2, m as nat);
        },
        TbtNode::Sequence(_, _, _) => {
            lemma_sequence_fold_sign(node, k, kf, a, tr, lo, lo, hi, NEG_INF as int, NEG_INF as int);
        },
        TbtNode::Timeout(_, t, c) => {
            lemma_tbt_lazy_sign(*c, k, kf, a, tr, lo, min_spec(hi, lo + t - 1));
        },
        TbtNode::Kleene(_, n, _, c) => {
            if lo <= hi && n > 0 {
                lemma_sequence_fold_sign(node, k, kf, a, tr, lo, lo, hi, NEG_INF as int, NEG_INF as int);
            } else if lo <= hi {
                lemma_tbt_lazy_sign(*c, k, kf, a, tr, lo, hi);
            }
        },
    }
}


/// Trees that are `same` have the same robustness.
pub proof fn lemma_same_rho(a: TbtNode, b: TbtNode, tr: Trace, lo: int, hi: int, lazy: bool)
    requires
        same(a, b),
    ensures
        rho_tbt(a, tr, lo, hi, lazy) == rho_tbt(b, tr, lo, hi, lazy),
    decreases a, 3int, 0int,
{
    match a {
        TbtNode::Leaf(_, _, _) => {},
        TbtNode::Fallback(_, _) => {
            lemma_same_fallback_fold(a, b, tr, lo, hi, lazy, NEG_INF as int);
        },
        TbtNode::Parallel(_, _, _) => {
            lemma_same_parallel_values(a, b, tr, 0, lo, hi, lazy);
        },
        TbtNode::Sequence(_, _, _) => {
            lemma_same_sequence_fold(a, b, tr, lo, lo, hi, lazy, NEG_INF as int);
        },
        TbtNode::Timeout(_, t, c) => {
            lemma_same_rho(*c, *b->Timeout_2, tr, lo, min_spec(hi, lo + t - 1), lazy);
        },
        TbtNode::Kleene(_, n, _, c) => {
            if lo <= hi && n > 0 {
                lemma_same_sequence_fold(a, b, tr, lo, lo, hi, lazy, NEG_INF as int);
            } else if lo <= hi {
                lemma_same_rho(*c, *b->Kleene_3, tr, lo, hi, lazy);
            }
        },
    }
}

proof fn lemma_same_fallback_fold(a: TbtNode, b: TbtNode, tr: Trace, i: int, hi: int, lazy: bool, acc: int)
    requires
        same(a, b),
        a is Fallback,
    ensures
        fallback_fold(a, tr, i, hi, lazy, acc) == fallback_fold(b, tr, i, hi, lazy, acc),
    decreases a, 2int, hi + 1 - i,
{
    if i <= hi {
        lemma_same_fallback_children(a, b, tr, 0, i, hi, lazy, acc);
        lemma_same_fallback_fold(a, b, tr, i + 1, hi, lazy, fallback_children(a, tr, 0, i, hi, lazy, acc));
    }
}

proof fn lemma_same_fallback_children(
    a: TbtNode,
    b: TbtNode,
    tr: Trace,
    j: int,
    i: int,
    hi: int,
    lazy: bool,
    acc: int,
)
    requires
        same(a, b),
        a is Fallback,
    ensures
        fallback_children(a, tr, j, i, hi, lazy, acc) == fallback_children(b, tr, j, i, hi, lazy, acc),
    decreases a, 1int, a->Fallback_1@.len() - j,
{
    match a {
        TbtNode::Fallback(_, cs) => if 0 <= j < cs@.len() {
            lemma_same_rho(cs@[j], b->Fallback_1@[j], tr, i, hi, lazy);
            let x = max_spec(acc, rho_tbt(cs@[j], tr, i, hi, lazy));
            if !(lazy && x > 0) {
                lemma_same_fallback_children(a, b, tr, j + 1, i, hi, lazy, x);
            }
        },
        _ => {},
    }
}

proof fn lemma_same_parallel_values(a: TbtNode, b: TbtNode, tr: Trace, j: int, lo: int, hi: int, lazy: bool)
    requires
        same(a, b),
        a is Parallel,
    ensures
        parallel_values(a, tr, j, lo, hi, lazy) == parallel_values(b, tr, j, lo, hi, lazy),
    decreases a, 1int, a->Parallel_2@.len() - j,
{
    match a {
        TbtNode::Parallel(_, _, cs) => if 0 <= j < cs@.len() {
            lemma_same_rho(cs@[j], b->Parallel_2@[j], tr, lo, hi, lazy);
            lemma_same_parallel_values(a, b, tr, j + 1, lo, hi, lazy);
        },
        _ => {},
    }
}

proof fn lemma_same_sequence_fold(
    a: TbtNode,
    b: TbtNode,
    tr: Trace,
    lo: int,
    i: int,
    hi: int,
    lazy: bool,
    acc: int,
)
    requires
        same(a, b),
    ensures
        sequence_fold(a, tr, lo, i, hi, lazy, acc) == sequence_fold(b, tr, lo, i, hi, lazy, acc),
    decreases a, 2int, hi + 1 - i,
{
    if i <= hi {
        match a {
            TbtNode::Sequence(_, l, r) => {
                lemma_same_rho(*l, *b->Sequence_1, tr, lo, i, lazy);
                lemma_same_rho(*r, *b->Sequence_2, tr, i + 1, hi, lazy);
                let x = max_spec(acc, min_spec(rho_tbt(*l, tr, lo, i, lazy), rho_tbt(*r, tr, i + 1, hi, lazy)));
                lemma_same_sequence_fold(a, b, tr, lo, i + 1, hi, lazy, x);
            },
            TbtNode::Kleene(_, _, Some(nx), c) => {
                lemma_same_rho(*c, *b->Kleene_3, tr, lo, i, lazy);
                lemma_same_rho(*nx, *b->Kleene_2->0, tr, i + 1, hi, lazy);
                let x = max_spec(acc, min_spec(rho_tbt(*c, tr, lo, i, lazy), rho_tbt(*nx, tr, i + 1, hi, lazy)));
                lemma_same_sequence_fold(a, b, tr, lo, i + 1, hi, lazy, x);
            },
            _ => {},
        }
    }
}

} // verus!
