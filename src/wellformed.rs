//! Run-time checks of the conditions that evaluation asks of a trace and a
//! tree: sizes, and ids that name one subtree each.

use vstd::prelude::*;

use crate::behaviortree::{same, Tbt, TbtNode};
use crate::robustness::{in_range, MAX_TRACE_LEN};
use crate::stl::Stl;
use crate::table::total_cells;
use crate::trace::Trace;

verus! {

/// The nodes a registry holds, by id.
pub open spec fn node_map(reg: Seq<Option<TbtNode>>) -> Map<nat, TbtNode> {
    Map::new(|id: nat| id < reg.len() && reg[id as int] is Some, |id: nat| reg[id as int]->Some_0)
}

/// The formulas a registry holds, by id.
pub open spec fn formula_map(reg: Seq<Option<Stl>>) -> Map<nat, Stl> {
    Map::new(|id: nat| id < reg.len() && reg[id as int] is Some, |id: nat| reg[id as int]->Some_0)
}

/// Every node of the registry is `same` as the one `d` gives for its id.
pub open spec fn agrees(d: Map<nat, TbtNode>, reg: Seq<Option<TbtNode>>) -> bool {
    forall|i: int|
        0 <= i < reg.len() && (#[trigger] reg[i]) is Some ==> d.contains_key(i as nat) && same(
            d[i as nat],
            reg[i]->Some_0,
        )
}

/// Every formula of the registry is the one `fd` gives for its id.
pub open spec fn fagrees(fd: Map<nat, Stl>, reg: Seq<Option<Stl>>) -> bool {
    forall|i: int|
        0 <= i < reg.len() && (#[trigger] reg[i]) is Some ==> fd.contains_key(i as nat) && fd[i as nat]
            == reg[i]->Some_0
}

/// `new` keeps every entry of `old`.
pub open spec fn extends<T>(old: Seq<Option<T>>, new: Seq<Option<T>>) -> bool {
    new.len() == old.len() && forall|i: int| 0 <= i < old.len() && old[i] is Some ==> #[trigger] new[i] == old[i]
}

proof fn lemma_formula_covered_grows(f: Stl, d: Map<nat, Stl>, d2: Map<nat, Stl>)
    requires
        f.covered(d),
        forall|k: nat| #[trigger] d.contains_key(k) ==> d2.contains_key(k) && d2[k] == d[k],
    ensures
        f.covered(d2),
    decreases f,
{
    match f {
        Stl::Atomic(_, _) => {},
        Stl::Conjunction(_, l, r) | Stl::Disjunction(_, l, r) | Stl::Until(_, l, r) | Stl::UntilInterval(
            _,
            _,
            _,
            l,
            r,
        ) => {
            lemma_formula_covered_grows(*l, d, d2);
            lemma_formula_covered_grows(*r, d, d2);
        },
        Stl::Neg(_, c) | Stl::Next(_, c) | Stl::Eventually(_, c) | Stl::Globally(_, c)
        | Stl::EventuallyInterval(_, _, _, c) | Stl::GloballyInterval(_, _, _, c) => {
            lemma_formula_covered_grows(*c, d, d2);
        },
    }
}

proof fn lemma_node_covered_grows(
    t: TbtNode,
    d: Map<nat, TbtNode>,
    fd: Map<nat, Stl>,
    d2: Map<nat, TbtNode>,
    fd2: Map<nat, Stl>,
)
    requires
        t.covered(d, fd),
        forall|k: nat| #[trigger] d.contains_key(k) ==> d2.contains_key(k) && d2[k] == d[k],
        forall|k: nat| #[trigger] fd.contains_key(k) ==> fd2.contains_key(k) && fd2[k] == fd[k],
    ensures
        t.covered(d2, fd2),
    decreases t,
{
    match t {
        TbtNode::Leaf(_, f, _) => {
            lemma_formula_covered_grows(f, fd, fd2);
        },
        TbtNode::Fallback(_, cs) | TbtNode::Parallel(_, _, cs) => {
            assert forall|j: int| 0 <= j < cs@.len() implies (#[trigger] cs@[j]).covered(d2, fd2) by {
                assert(decreases_to!(t => cs@[j]));
                lemma_node_covered_grows(cs@[j], d, fd, d2, fd2);
            }
        },
        TbtNode::Sequence(_, l, r) => {
            lemma_node_covered_grows(*l, d, fd, d2, fd2);
            lemma_node_covered_grows(*r, d, fd, d2, fd2);
        },
        TbtNode::Timeout(_, _, c) => {
            lemma_node_covered_grows(*c, d, fd, d2, fd2);
        },
        TbtNode::Kleene(_, _, next, c) => {
            lemma_node_covered_grows(*c, d, fd, d2, fd2);
            match next {
                Some(nx) => {
                    lemma_node_covered_grows(*nx, d, fd, d2, fd2);
                },
                None => {},
            }
        },
    }
}

proof fn lemma_extends_maps<T>(old: Seq<Option<T>>, new: Seq<Option<T>>)
    requires
        extends(old, new),
    ensures
        forall|k: nat|
            old.len() > k && old[k as int] is Some ==> new.len() > k && new[k as int] is Some && new[k as int]->Some_0
                == old[k as int]->Some_0,
{
    assert forall|k: nat| old.len() > k && old[k as int] is Some implies new.len() > k && new[k as int] is Some
        && new[k as int]->Some_0 == old[k as int]->Some_0 by {
        assert(new[k as int] == old[k as int]);
    }
}

proof fn lemma_node_map_grows(a: Seq<Option<TbtNode>>, b: Seq<Option<TbtNode>>)
    requires
        extends(a, b),
    ensures
        forall|k: nat|
            node_map(a).contains_key(k) ==> node_map(b).contains_key(k) && node_map(b)[k] == node_map(a)[k],
{
    lemma_extends_maps(a, b);
}

proof fn lemma_formula_map_grows(a: Seq<Option<Stl>>, b: Seq<Option<Stl>>)
    requires
        extends(a, b),
    ensures
        forall|k: nat|
            formula_map(a).contains_key(k) ==> formula_map(b).contains_key(k) && formula_map(b)[k]
                == formula_map(a)[k],
{
    lemma_extends_maps(a, b);
}

/// Whether two formulas are equal.
fn same_formula(a: &Stl, b: &Stl) -> (r: bool)
    ensures
        r == (*a == *b),
    decreases *a,
{
    match (a, b) {
        (Stl::Atomic(i, x), Stl::Atomic(j, y)) => *i == *j && *x == *y,
        (Stl::Conjunction(i, l, r), Stl::Conjunction(j, l2, r2))
        | (Stl::Disjunction(i, l, r), Stl::Disjunction(j, l2, r2))
        | (Stl::Until(i, l, r), Stl::Until(j, l2, r2)) => *i == *j && same_formula(l, l2) && same_formula(r, r2),
        (Stl::Neg(i, c), Stl::Neg(j, c2))
        | (Stl::Next(i, c), Stl::Next(j, c2))
        | (Stl::Eventually(i, c), Stl::Eventually(j, c2))
        | (Stl::Globally(i, c), Stl::Globally(j, c2)) => *i == *j && same_formula(c, c2),
        (Stl::EventuallyInterval(i, l, u, c), Stl::EventuallyInterval(j, l2, u2, c2))
        | (Stl::GloballyInterval(i, l, u, c), Stl::GloballyInterval(j, l2, u2, c2)) => *i == *j && *l == *l2 && *u
            == *u2 && same_formula(c, c2),
        (Stl::UntilInterval(i, l, u, a1, b1), Stl::UntilInterval(j, l2, u2, a2, b2)) => *i == *j && *l == *l2 && *u
            == *u2 && same_formula(a1, a2) && same_formula(b1, b2),
        _ => false,
    }
}


/// Whether two trees are `same`.
fn same_node(a: &TbtNode, b: &TbtNode) -> (r: bool)
    ensures
        r == same(*a, *b),
    decreases *a,
{
    match (a, b) {
        (TbtNode::Leaf(i, f, n), TbtNode::Leaf(j, g, m)) => *i == *j && same_formula(f, g) && n.eq(m),
        (TbtNode::Fallback(i, cs), TbtNode::Fallback(j, ds)) => *i == *j && same_children(a, cs, ds),
        (TbtNode::Parallel(i, k, cs), TbtNode::Parallel(j, l, ds)) => *i == *j && *k == *l && same_children(a, cs, ds),
        (TbtNode::Sequence(i, l, r), TbtNode::Sequence(j, l2, r2)) => *i == *j && same_node(l, l2) && same_node(r, r2),
        (TbtNode::Timeout(i, t, c), TbtNode::Timeout(j, u, c2)) => *i == *j && *t == *u && same_node(c, c2),
        (TbtNode::Kleene(i, n, nx, c), TbtNode::Kleene(j, m, ny, c2)) => {
            if *i != *j || *n != *m || !same_node(c, c2) {
                false
            } else {
                match (nx, ny) {
                    (Some(x), Some(y)) => same_node(x, y),
                    (None, None) => true,
                    _ => false,
                }
            }
        },
        _ => false,
    }
}

/// Whether the children `cs` of `node` are `same` as `ds`, one by one.
fn same_children(node: &TbtNode, cs: &Vec<TbtNode>, ds: &Vec<TbtNode>) -> (r: bool)
    requires
        match *node {
            TbtNode::Fallback(_, c) => c == *cs,
            TbtNode::Parallel(_, _, c) => c == *cs,
            _ => false,
        },
    ensures
        r == (cs@.len() == ds@.len() && forall|j: int| 0 <= j < cs@.len() ==> same(#[trigger] cs@[j], ds@[j])),
    decreases *node, 0int,
{
    if cs.len() != ds.len() {
        return false;
    }
    let mut j: usize = 0;
    while j < cs.len()
        invariant
            match *node {
                TbtNode::Fallback(_, c) => c == *cs,
                TbtNode::Parallel(_, _, c) => c == *cs,
                _ => false,
            },
            cs@.len() == ds@.len(),
            j <= cs@.len(),
            forall|k: int| 0 <= k < j ==> same(#[trigger] cs@[k], ds@[k]),
        decreases cs@.len() - j,
    {
        proof {
            assert(decreases_to!(*node => cs@[j as int]));
        }
        if !same_node(&cs[j], &ds[j]) {
            return false;
        }
        j = j + 1;
    }
    true
}

/// Records `f` and its subformulas in `reg` by id; false where an id is out of
/// range or already names another formula.
fn register_formula(f: &Stl, reg: &mut Vec<Option<Stl>>, Ghost(fd): Ghost<Map<nat, Stl>>, Ghost(a): Ghost<nat>) -> (r: bool)
    ensures
        extends(old(reg)@, final(reg)@),
        r ==> f.covered(formula_map(final(reg)@)),
        f.covered(fd) && fagrees(fd, old(reg)@) && f.fits(old(reg)@.len(), a) ==> r && fagrees(fd, final(reg)@),
    decreases *f,
{
    let ghost good = f.covered(fd) && fagrees(fd, reg@) && f.fits(reg@.len(), a);
    let id = f.get_index();
    if id >= reg.len() {
        return false;
    }
    let known = match &reg[id] {
        Some(x) => Some(same_formula(x, f)),
        None => None,
    };
    match known {
        Some(false) => {
            return false;
        },
        Some(true) => {},
        None => {
            reg[id] = Some(f.copy());
        },
    }
    let ghost here = reg@;
    proof {
        assert(formula_map(here).contains_key(id as nat));
        assert(formula_map(here)[id as nat] == *f);
        if good {
            assert forall|i: int| 0 <= i < here.len() && (#[trigger] here[i]) is Some implies fd.contains_key(
                i as nat,
            ) && fd[i as nat] == here[i]->Some_0 by {
                if i != id {
                    assert(here[i] == old(reg)@[i]);
                }
            }
        }
    }
    match f {
        Stl::Atomic(_, _) => true,
        Stl::Conjunction(_, l, r) | Stl::Disjunction(_, l, r) | Stl::Until(_, l, r) | Stl::UntilInterval(
            _,
            _,
            _,
            l,
            r,
        ) => {
            if !register_formula(l, reg, Ghost(fd), Ghost(a)) {
                return false;
            }
            let ghost mid = reg@;
            if !register_formula(r, reg, Ghost(fd), Ghost(a)) {
                return false;
            }
            proof {
                lemma_formula_map_grows(here, reg@);
                lemma_formula_map_grows(mid, reg@);
                lemma_formula_covered_grows(**l, formula_map(mid), formula_map(reg@));
            }
            true
        },
        Stl::Neg(_, c) | Stl::Next(_, c) | Stl::Eventually(_, c) | Stl::Globally(_, c)
        | Stl::EventuallyInterval(_, _, _, c) | Stl::GloballyInterval(_, _, _, c) => {
            let ok = register_formula(c, reg, Ghost(fd), Ghost(a));
            proof {
                lemma_formula_map_grows(here, reg@);
            }
            ok
        },
    }
}


/// Records `t`, its subtrees and their formulas by id; false where an id is out
/// of range or already names another subtree or formula.
fn register_node(
    t: &TbtNode,
    nodes: &mut Vec<Option<TbtNode>>,
    formulas: &mut Vec<Option<Stl>>,
    Ghost(d): Ghost<Map<nat, TbtNode>>,
    Ghost(fd): Ghost<Map<nat, Stl>>,
    Ghost(a): Ghost<nat>,
) -> (r: bool)
    ensures
        extends(old(nodes)@, final(nodes)@),
        extends(old(formulas)@, final(formulas)@),
        r ==> t.covered(node_map(final(nodes)@), formula_map(final(formulas)@)),
        t.covered(d, fd) && agrees(d, old(nodes)@) && fagrees(fd, old(formulas)@) && t.fits(
            old(nodes)@.len(),
            old(formulas)@.len(),
            a,
        ) ==> r && agrees(d, final(nodes)@) && fagrees(fd, final(formulas)@),
    decreases *t,
{
    let ghost good = t.covered(d, fd) && agrees(d, nodes@) && fagrees(fd, formulas@) && t.fits(
        nodes@.len(),
        formulas@.len(),
        a,
    );
    let id = t.get_index();
    if id >= nodes.len() {
        return false;
    }
    let known = match &nodes[id] {
        Some(x) => {
            proof {
                if good {
                    assert(nodes@[id as int] is Some);
                    lemma_same_symmetric(d[id as nat], *x);
                    lemma_same_transitive(*x, d[id as nat], *t);
                }
            }
            Some(same_node(x, t))
        },
        None => None,
    };
    match known {
        Some(false) => {
            return false;
        },
        Some(true) => {},
        None => {
            nodes[id] = Some(t.copy());
        },
    }
    let ghost here = nodes@;
    let ghost fhere = formulas@;
    proof {
        assert(node_map(here).contains_key(id as nat));
        assert(same(node_map(here)[id as nat], *t));
        if good {
            assert forall|i: int| 0 <= i < here.len() && (#[trigger] here[i]) is Some implies d.contains_key(
                i as nat,
            ) && same(d[i as nat], here[i]->Some_0) by {
                if i != id {
                    assert(here[i] == old(nodes)@[i]);
                } else if old(nodes)@[i] is None {
                    lemma_same_symmetric(here[i]->Some_0, *t);
                    lemma_same_transitive(d[i as nat], *t, here[i]->Some_0);
                }
            }
        }
    }
    match t {
        TbtNode::Leaf(_, f, _) => {
            let ok = register_formula(f, formulas, Ghost(fd), Ghost(a));
            proof {
                lemma_node_map_grows(here, nodes@);
            }
            ok
        },
        TbtNode::Fallback(_, cs) | TbtNode::Parallel(_, _, cs) => {
            let mut j: usize = 0;
            while j < cs.len()
                invariant
                    match *t {
                        TbtNode::Fallback(_, c) => c == *cs,
                        TbtNode::Parallel(_, _, c) => c == *cs,
                        _ => false,
                    },
                    j <= cs@.len(),
                    extends(old(nodes)@, nodes@),
                    extends(old(formulas)@, formulas@),
                    extends(here, nodes@),
                    extends(fhere, formulas@),
                    forall|k: int|
                        0 <= k < j ==> (#[trigger] cs@[k]).covered(node_map(nodes@), formula_map(formulas@)),
                    good == (t.covered(d, fd) && agrees(d, old(nodes)@) && fagrees(fd, old(formulas)@)
                        && t.fits(old(nodes)@.len(), old(formulas)@.len(), a)),
                    good ==> agrees(d, nodes@) && fagrees(fd, formulas@),
                    good ==> t.covered(d, fd) && t.fits(old(nodes)@.len(), old(formulas)@.len(), a),
                    nodes@.len() == old(nodes)@.len(),
                    formulas@.len() == old(formulas)@.len(),
                decreases cs@.len() - j,
            {
                proof {
                    assert(decreases_to!(*t => cs@[j as int]));
                    if good {
                        assert(t.covered(d, fd));
                        assert(cs@[j as int].covered(d, fd));
                        assert(cs@[j as int].fits(nodes@.len(), formulas@.len(), a));
                    }
                }
                let ghost before = nodes@;
                let ghost fbefore = formulas@;
                if !register_node(&cs[j], nodes, formulas, Ghost(d), Ghost(fd), Ghost(a)) {
                    return false;
                }
                proof {
                    lemma_node_map_grows(before, nodes@);
                    lemma_formula_map_grows(fbefore, formulas@);
                    assert forall|k: int| 0 <= k < j + 1 implies (#[trigger] cs@[k]).covered(
                        node_map(nodes@),
                        formula_map(formulas@),
                    ) by {
                        if k < j {
                            lemma_node_covered_grows(
                                cs@[k],
                                node_map(before),
                                formula_map(fbefore),
                                node_map(nodes@),
                                formula_map(formulas@),
                            );
                        }
                    }
                    assert(extends(here, nodes@));
                    assert(extends(fhere, formulas@));
                }
                j = j + 1;
            }
            proof {
                lemma_node_map_grows(here, nodes@);
            }
            true
        },
        TbtNode::Sequence(_, l, r) => {
            if !register_node(l, nodes, formulas, Ghost(d), Ghost(fd), Ghost(a)) {
                return false;
            }
            let ghost mid = nodes@;
            let ghost fmid = formulas@;
            if !register_node(r, nodes, formulas, Ghost(d), Ghost(fd), Ghost(a)) {
                return false;
            }
            proof {
                lemma_node_map_grows(here, nodes@);
                lemma_node_map_grows(mid, nodes@);
                lemma_formula_map_grows(fmid, formulas@);
                lemma_node_covered_grows(**l, node_map(mid), formula_map(fmid), node_map(nodes@), formula_map(formulas@));
            }
            true
        },
        TbtNode::Timeout(_, _, c) => {
            let ok = register_node(c, nodes, formulas, Ghost(d), Ghost(fd), Ghost(a));
            proof {
                lemma_node_map_grows(here, nodes@);
            }
            ok
        },
        TbtNode::Kleene(_, _, next, c) => {
            if !register_node(c, nodes, formulas, Ghost(d), Ghost(fd), Ghost(a)) {
                return false;
            }
            match next {
                Some(nx) => {
                    let ghost mid = nodes@;
                    let ghost fmid = formulas@;
                    if !register_node(nx, nodes, formulas, Ghost(d), Ghost(fd), Ghost(a)) {
                        return false;
                    }
                    proof {
                        lemma_node_map_grows(mid, nodes@);
                        lemma_formula_map_grows(fmid, formulas@);
                        lemma_node_covered_grows(**c, node_map(mid), formula_map(fmid), node_map(nodes@), formula_map(formulas@));
                    }
                },
                None => {},
            }
            proof {
                lemma_node_map_grows(here, nodes@);
            }
            true
        },
    }
}


/// Whether `f` fits tables of `k` formula ids over `a` atomic propositions.
fn formula_fits(f: &Stl, k: usize, a: usize) -> (r: bool)
    ensures
        r == f.fits(k as nat, a as nat),
    decreases *f,
{
    if f.get_index() >= k {
        return false;
    }
    match f {
        Stl::Atomic(_, atom) => *atom < a,
        Stl::Conjunction(_, l, r) | Stl::Disjunction(_, l, r) | Stl::Until(_, l, r) | Stl::UntilInterval(
            _,
            _,
            _,
            l,
            r,
        ) => formula_fits(l, k, a) && formula_fits(r, k, a),
        Stl::Neg(_, c) | Stl::Next(_, c) | Stl::Eventually(_, c) | Stl::Globally(_, c)
        | Stl::EventuallyInterval(_, _, _, c) | Stl::GloballyInterval(_, _, _, c) => formula_fits(c, k, a),
    }
}

/// Whether `t` fits tables of `k` node ids and `kf` formula ids over `a` atomic
/// propositions, with its operators' parameters in range.
fn node_fits(t: &TbtNode, k: usize, kf: usize, a: usize) -> (r: bool)
    ensures
        r == t.fits(k as nat, kf as nat, a as nat),
    decreases *t,
{
    if t.get_index() >= k {
        return false;
    }
    match t {
        TbtNode::Leaf(_, f, _) => formula_fits(f, kf, a),
        TbtNode::Fallback(_, cs) | TbtNode::Parallel(_, _, cs) => {
            let m_ok = match t {
                TbtNode::Parallel(_, m, _) => 1 <= *m && *m <= cs.len(),
                _ => true,
            };
            if !m_ok {
                return false;
            }
            let mut j: usize = 0;
            while j < cs.len()
                invariant
                    match *t {
                        TbtNode::Fallback(_, c) => c == *cs,
                        TbtNode::Parallel(_, _, c) => c == *cs,
                        _ => false,
                    },
                    j <= cs@.len(),
                    forall|i: int| 0 <= i < j ==> (#[trigger] cs@[i]).fits(k as nat, kf as nat, a as nat),
                decreases cs@.len() - j,
            {
                proof {
                    assert(decreases_to!(*t => cs@[j as int]));
                }
                if !node_fits(&cs[j], k, kf, a) {
                    return false;
                }
                j = j + 1;
            }
            true
        },
        TbtNode::Sequence(_, l, r) => node_fits(l, k, kf, a) && node_fits(r, k, kf, a),
        TbtNode::Timeout(_, time, c) => *time >= 1 && node_fits(c, k, kf, a),
        TbtNode::Kleene(_, n, next, c) => {
            if !node_fits(c, k, kf, a) {
                return false;
            }
            match next {
                Some(nx) => node_fits(nx, k, kf, a),
                None => *n == 0,
            }
        },
    }
}

/// Whether tables of `count` ids over a trace of length `n` fit in memory
/// addresses.
fn table_fits(count: usize, n: usize) -> (r: bool)
    ensures
        r == (total_cells(count as int, n as int) <= usize::MAX),
{
    let n128 = n as u128;
    let c128 = count as u128;
    assert(n128 * (n128 + 1) <= 0xffff_ffff_ffff_ffff * 0x1_0000_0000_0000_0000) by (nonlinear_arith)
        requires
            n128 <= 0xffff_ffff_ffff_ffff,
    ;
    let half = n128 * (n128 + 1) / 2;
    if count == 0 {
        assert(total_cells(count as int, n as int) == 0);
        return true;
    }
    if half > usize::MAX as u128 {
        assert(total_cells(count as int, n as int) >= half) by (nonlinear_arith)
            requires
                c128 >= 1,
                half >= 0,
                total_cells(count as int, n as int) == c128 * half,
        ;
        return false;
    }
    assert(c128 * half <= 0xffff_ffff_ffff_ffff * 0xffff_ffff_ffff_ffff) by (nonlinear_arith)
        requires
            c128 <= 0xffff_ffff_ffff_ffff,
            half <= 0xffff_ffff_ffff_ffff,
    ;
    c128 * half <= usize::MAX as u128
}

impl Trace {
    /// Whether the trace is well formed (see `wf`).
    pub fn is_well_formed(&self) -> (r: bool)
        ensures
            r == self.wf(),
    {
        if self.length < 1 || self.length > MAX_TRACE_LEN {
            return false;
        }
        let mut a: usize = 0;
        while a < self.atoms.len()
            invariant
                1 <= self.length <= MAX_TRACE_LEN,
                a <= self.atoms@.len(),
                forall|i: int| 0 <= i < a ==> (#[trigger] self.atoms@[i])@.len() == self.length,
                forall|i: int, t: int|
                    0 <= i < a && 0 <= t < self.length ==> in_range(#[trigger] self.atoms@[i]@[t] as int),
            decreases self.atoms@.len() - a,
        {
            let column = &self.atoms[a];
            if column.len() != self.length {
                proof {
                    assert(self.atoms@[a as int]@.len() != self.length);
                }
                return false;
            }
            let mut t: usize = 0;
            while t < column.len()
                invariant
                    a < self.atoms@.len(),
                    1 <= self.length <= MAX_TRACE_LEN,
                    column == self.atoms@[a as int],
                    column@.len() == self.length,
                    t <= column@.len(),
                    forall|u: int| 0 <= u < t ==> in_range(#[trigger] column@[u] as int),
                decreases column@.len() - t,
            {
                if column[t] == i64::MIN {
                    proof {
                        assert(!in_range(self.atoms@[a as int]@[t as int] as int));
                    }
                    return false;
                }
                t = t + 1;
            }
            a = a + 1;
        }
        true
    }
}

impl Tbt {
    /// Whether the tree can be evaluated on `trace`: it fits tables of its counts
    /// over the trace, the tables fit in memory, and equal ids name equal
    /// subtrees and formulas.
    pub fn is_well_formed_for(&self, trace: &Trace) -> (r: bool)
        ensures
            r == self.wf_for(trace),
    {
        if !node_fits(&self.tree, self.node_count, self.formula_count, trace.atoms.len()) {
            return false;
        }
        if !table_fits(self.node_count, trace.length) || !table_fits(self.formula_count, trace.length) {
            return false;
        }
        let mut nodes: Vec<Option<TbtNode>> = Vec::new();
        let mut k: usize = 0;
        while k < self.node_count
            invariant
                k <= self.node_count,
                nodes@.len() == k,
                forall|i: int| 0 <= i < k ==> (#[trigger] nodes@[i]) is None,
            decreases self.node_count - k,
        {
            nodes.push(None);
            k = k + 1;
        }
        let mut formulas: Vec<Option<Stl>> = Vec::new();
        let mut k: usize = 0;
        while k < self.formula_count
            invariant
                k <= self.formula_count,
                formulas@.len() == k,
                forall|i: int| 0 <= i < k ==> (#[trigger] formulas@[i]) is None,
            decreases self.formula_count - k,
        {
            formulas.push(None);
            k = k + 1;
        }
        let ghost (d, fd) = choose|d: Map<nat, TbtNode>, fd: Map<nat, Stl>| self.tree.covered(d, fd);
        proof {
            assert(agrees(d, nodes@));
            assert(fagrees(fd, formulas@));
        }
        let ok = register_node(
            &self.tree,
            &mut nodes,
            &mut formulas,
            Ghost(d),
            Ghost(fd),
            Ghost(trace.atoms@.len()),
        );
        proof {
            if ok {
                assert(self.tree.covered(node_map(nodes@), formula_map(formulas@)));
            }
        }
        ok
    }
}


proof fn lemma_same_symmetric(a: TbtNode, b: TbtNode)
    requires
        same(a, b),
    ensures
        same(b, a),
    decreases a,
{
    match a {
        TbtNode::Leaf(_, _, _) => {},
        TbtNode::Fallback(_, cs) => {
            assert forall|j: int| 0 <= j < b->Fallback_1@.len() implies same(#[trigger] b->Fallback_1@[j], cs@[j]) by {
                assert(decreases_to!(a => cs@[j]));
                lemma_same_symmetric(cs@[j], b->Fallback_1@[j]);
            }
        },
        TbtNode::Parallel(_, _, cs) => {
            assert forall|j: int| 0 <= j < b->Parallel_2@.len() implies same(#[trigger] b->Parallel_2@[j], cs@[j]) by {
                assert(decreases_to!(a => cs@[j]));
                lemma_same_symmetric(cs@[j], b->Parallel_2@[j]);
            }
        },
        TbtNode::Sequence(_, l, r) => {
            lemma_same_symmetric(*l, *b->Sequence_1);
            lemma_same_symmetric(*r, *b->Sequence_2);
        },
        TbtNode::Timeout(_, _, c) => {
            lemma_same_symmetric(*c, *b->Timeout_2);
        },
        TbtNode::Kleene(_, _, nx, c) => {
            lemma_same_symmetric(*c, *b->Kleene_3);
            match nx {
                Some(x) => {
                    lemma_same_symmetric(*x, *b->Kleene_2->Some_0);
                },
                None => {},
            }
        },
    }
}

proof fn lemma_same_transitive(a: TbtNode, b: TbtNode, c: TbtNode)
    requires
        same(a, b),
        same(b, c),
    ensures
        same(a, c),
    decreases a,
{
    match a {
        TbtNode::Leaf(_, _, _) => {},
        TbtNode::Fallback(_, cs) => {
            assert forall|j: int| 0 <= j < cs@.len() implies same(#[trigger] cs@[j], c->Fallback_1@[j]) by {
                assert(decreases_to!(a => cs@[j]));
                lemma_same_transitive(cs@[j], b->Fallback_1@[j], c->Fallback_1@[j]);
            }
        },
        TbtNode::Parallel(_, _, cs) => {
            assert forall|j: int| 0 <= j < cs@.len() implies same(#[trigger] cs@[j], c->Parallel_2@[j]) by {
                assert(decreases_to!(a => cs@[j]));
                lemma_same_transitive(cs@[j], b->Parallel_2@[j], c->Parallel_2@[j]);
            }
        },
        TbtNode::Sequence(_, l, r) => {
            lemma_same_transitive(*l, *b->Sequence_1, *c->Sequence_1);
            lemma_same_transitive(*r, *b->Sequence_2, *c->Sequence_2);
        },
        TbtNode::Timeout(_, _, x) => {
            lemma_same_transitive(*x, *b->Timeout_2, *c->Timeout_2);
        },
        TbtNode::Kleene(_, _, nx, x) => {
            lemma_same_transitive(*x, *b->Kleene_3, *c->Kleene_3);
            match nx {
                Some(y) => {
                    lemma_same_transitive(*y, *b->Kleene_2->Some_0, *c->Kleene_2->Some_0);
                },
                None => {},
            }
        },
    }
}

} // verus!
