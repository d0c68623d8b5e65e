//! Signal Temporal Logic formulas: their robustness over a horizon, as a spec
//! function, and its evaluation with a memoization table.

use vstd::prelude::*;

use crate::robustness::{in_range, max_spec, min_spec, rmax, rmin, INF, NEG_INF};
use crate::table::{keeps_filled, Table};
use crate::trace::Trace;

verus! {

/// A Signal Temporal Logic formula. The first field of each variant is the
/// formula's id, its key in the memoization table. An atomic proposition names
/// the column of the trace that holds its values.
pub enum Stl {
    Atomic(usize, usize),
    Conjunction(usize, Box<Stl>, Box<Stl>),
    Disjunction(usize, Box<Stl>, Box<Stl>),
    Neg(usize, Box<Stl>),
    Next(usize, Box<Stl>),
    Eventually(usize, Box<Stl>),
    Globally(usize, Box<Stl>),
    Until(usize, Box<Stl>, Box<Stl>),
    EventuallyInterval(usize, usize, usize, Box<Stl>),
    GloballyInterval(usize, usize, usize, Box<Stl>),
    UntilInterval(usize, usize, usize, Box<Stl>, Box<Stl>),
}

impl Stl {
    pub open spec fn id(self) -> nat {
        match self {
            Stl::Atomic(i, _) => i as nat,
            Stl::Conjunction(i, _, _) => i as nat,
            Stl::Disjunction(i, _, _) => i as nat,
            Stl::Neg(i, _) => i as nat,
            Stl::Next(i, _) => i as nat,
            Stl::Eventually(i, _) => i as nat,
            Stl::Globally(i, _) => i as nat,
            Stl::Until(i, _, _) => i as nat,
            Stl::EventuallyInterval(i, _, _, _) => i as nat,
            Stl::GloballyInterval(i, _, _, _) => i as nat,
            Stl::UntilInterval(i, _, _, _, _) => i as nat,
        }
    }

    /// Every id is below `k` and every atomic proposition names a column below `a`.
    pub open spec fn fits(self, k: nat, a: nat) -> bool
        decreases self,
    {
        self.id() < k && match self {
            Stl::Atomic(_, atom) => atom < a,
            Stl::Conjunction(_, l, r) => l.fits(k, a) && r.fits(k, a),
            Stl::Disjunction(_, l, r) => l.fits(k, a) && r.fits(k, a),
            Stl::Neg(_, c) => c.fits(k, a),
            Stl::Next(_, c) => c.fits(k, a),
            Stl::Eventually(_, c) => c.fits(k, a),
            Stl::Globally(_, c) => c.fits(k, a),
            Stl::Until(_, l, r) => l.fits(k, a) && r.fits(k, a),
            Stl::EventuallyInterval(_, _, _, c) => c.fits(k, a),
            Stl::GloballyInterval(_, _, _, c) => c.fits(k, a),
            Stl::UntilInterval(_, _, _, l, r) => l.fits(k, a) && r.fits(k, a),
        }
    }

    /// `dict` maps the id of every subformula to that subformula: equal ids mean
    /// equal subformulas, which is what makes the memoization table sound.
    pub open spec fn covered(self, dict: Map<nat, Stl>) -> bool
        decreases self,
    {
        dict.contains_key(self.id()) && dict[self.id()] == self && match self {
            Stl::Atomic(_, _) => true,
            Stl::Conjunction(_, l, r) => l.covered(dict) && r.covered(dict),
            Stl::Disjunction(_, l, r) => l.covered(dict) && r.covered(dict),
            Stl::Neg(_, c) => c.covered(dict),
            Stl::Next(_, c) => c.covered(dict),
            Stl::Eventually(_, c) => c.covered(dict),
            Stl::Globally(_, c) => c.covered(dict),
            Stl::Until(_, l, r) => l.covered(dict) && r.covered(dict),
            Stl::EventuallyInterval(_, _, _, c) => c.covered(dict),
            Stl::GloballyInterval(_, _, _, c) => c.covered(dict),
            Stl::UntilInterval(_, _, _, l, r) => l.covered(dict) && r.covered(dict),
        }
    }
}

/// Robustness of `phi` on the horizon `[lo, hi]`. An empty horizon (`lo > hi`)
/// gives the operator's neutral value. Under `lazy`, a maximum stops at the
/// first positive running value and a minimum at the first negative one.
pub open spec fn rho(phi: Stl, tr: Trace, lo: int, hi: int, lazy: bool) -> int
    decreases phi, 2int, 0int,
{
    if lo > hi {
        vacuous(phi, hi)
    } else {
        match phi {
            Stl::Atomic(_, a) => tr.sample(a as int, lo),
            Stl::Conjunction(_, l, r) => min_spec(rho(*l, tr, lo, hi, lazy), rho(*r, tr, lo, hi, lazy)),
            Stl::Disjunction(_, l, r) => max_spec(rho(*l, tr, lo, hi, lazy), rho(*r, tr, lo, hi, lazy)),
            Stl::Neg(_, c) => -rho(*c, tr, lo, hi, lazy),
            Stl::Next(_, c) => rho(*c, tr, lo + 1, hi, lazy),
            Stl::Eventually(_, c) => max_fold(*c, tr, 0, lo, hi, hi, lazy, NEG_INF as int),
            Stl::Globally(_, c) => min_fold(*c, tr, 0, lo, hi, hi, lazy, lazy, INF as int),
            Stl::Until(_, _, _) => until_fold(phi, tr, 0, lo, lo, hi, hi, lazy, NEG_INF as int),
            Stl::EventuallyInterval(_, l, u, c) => max_fold(
                *c,
                tr,
                lo,
                l as int,
                min_spec(hi, u as int),
                hi,
                lazy,
                NEG_INF as int,
            ),
            Stl::GloballyInterval(_, l, u, c) => if l > min_spec(hi, u as int) {
                NEG_INF as int
            } else {
                min_fold(*c, tr, lo, l as int, min_spec(hi, u as int), hi, lazy, lazy, INF as int)
            },
            Stl::UntilInterval(_, l, u, _, _) => until_fold(
                phi,
                tr,
                lo,
                l as int,
                l as int,
                min_spec(hi, u as int),
                hi,
                lazy,
                NEG_INF as int,
            ),
        }
    }
}

/// Value of `phi` on an empty horizon ending at `hi`.
pub open spec fn vacuous(phi: Stl, hi: int) -> int
    decreases phi, 1int, 0int,
{
    match phi {
        Stl::Atomic(_, _) => NEG_INF as int,
        Stl::Conjunction(_, l, r) => min_spec(vacuous(*l, hi), vacuous(*r, hi)),
        Stl::Disjunction(_, l, r) => max_spec(vacuous(*l, hi), vacuous(*r, hi)),
        Stl::Neg(_, c) => -vacuous(*c, hi),
        Stl::Next(_, c) => vacuous(*c, hi),
        Stl::Eventually(_, _) => NEG_INF as int,
        Stl::Globally(_, _) => INF as int,
        Stl::Until(_, _, _) => NEG_INF as int,
        Stl::EventuallyInterval(_, l, u, c) => if l <= min_spec(hi, u as int) {
            vacuous(*c, hi)
        } else {
            NEG_INF as int
        },
        Stl::GloballyInterval(_, l, u, c) => if l <= min_spec(hi, u as int) {
            vacuous(*c, hi)
        } else {
            NEG_INF as int
        },
        Stl::UntilInterval(_, l, u, _, r) => if l <= min_spec(hi, u as int) {
            vacuous(*r, hi)
        } else {
            NEG_INF as int
        },
    }
}

/// Running maximum of `rho(c, off + k, hi)` for `k` from `k` to `last`, from `acc`.
pub open spec fn max_fold(
    c: Stl,
    tr: Trace,
    off: int,
    k: int,
    last: int,
    hi: int,
    lazy: bool,
    acc: int,
) -> int
    decreases c, 3int, last + 1 - k,
{
    if k > last {
        acc
    } else {
        let a = max_spec(acc, rho(c, tr, off + k, hi, lazy));
        if lazy && a > 0 {
            a
        } else {
            max_fold(c, tr, off, k + 1, last, hi, lazy, a)
        }
    }
}

/// Running minimum of `rho(c, off + k, hi)` for `k` from `k` to `last`, from `acc`;
/// with `brk`, it stops at the first negative running value.
pub open spec fn min_fold(
    c: Stl,
    tr: Trace,
    off: int,
    k: int,
    last: int,
    hi: int,
    lazy: bool,
    brk: bool,
    acc: int,
) -> int
    decreases c, 3int, last + 1 - k,
{
    if k > last {
        acc
    } else {
        let a = min_spec(acc, rho(c, tr, off + k, hi, lazy));
        if brk && a < 0 {
            a
        } else {
            min_fold(c, tr, off, k + 1, last, hi, lazy, brk, a)
        }
    }
}

/// Running maximum, for `k` from `k` to `last`, of the right operand at `off + k`
/// taken with the minimum of the left operand over `[off + first, off + k)`.
pub open spec fn until_fold(
    phi: Stl,
    tr: Trace,
    off: int,
    first: int,
    k: int,
    last: int,
    hi: int,
    lazy: bool,
    acc: int,
) -> int
    decreases phi, 0int, last + 1 - k,
{
    if k > last {
        acc
    } else {
        match phi {
            Stl::Until(_, l, r) | Stl::UntilInterval(_, _, _, l, r) => {
                let m = min_fold(
                    *l,
                    tr,
                    off,
                    first,
                    k - 1,
                    hi,
                    lazy,
                    false,
                    rho(*r, tr, off + k, hi, lazy),
                );
                let a = max_spec(acc, m);
                if lazy && a > 0 {
                    a
                } else {
                    until_fold(phi, tr, off, first, k + 1, last, hi, lazy, a)
                }
            },
            _ => acc,
        }
    }
}

/// Every filled cell whose id `dict` names holds the robustness of that formula.
pub open spec fn sound(table: Table, dict: Map<nat, Stl>, tr: Trace, lazy: bool) -> bool {
    forall|id: int, lo: int, hi: int|
        #![trigger table.cell(id, lo, hi)]
        0 <= id && dict.contains_key(id as nat) && table.cell(id, lo, hi).is_some() ==> {
            &&& table.cell(id, lo, hi).unwrap() as int == rho(dict[id as nat], tr, lo, hi, lazy)
            &&& in_range(table.cell(id, lo, hi).unwrap() as int)
        }
}

/// A well-formed table laid out for `tr` and sound for `dict`.
pub open spec fn ready(table: Table, tr: Trace, dict: Map<nat, Stl>, lazy: bool) -> bool {
    &&& table.wf()
    &&& tr.wf()
    &&& table.len() == tr.length
    &&& sound(table, dict, tr, lazy)
}

/// Two tables with the same dimensions.
pub open spec fn same_shape(a: Table, b: Table) -> bool {
    a.num_ids() == b.num_ids() && a.len() == b.len()
}

impl Stl {
    pub fn get_index(&self) -> (r: usize)
        ensures
            r == self.id(),
    {
        match self {
            Stl::Atomic(i, _) => *i,
            Stl::Conjunction(i, _, _) => *i,
            Stl::Disjunction(i, _, _) => *i,
            Stl::Neg(i, _) => *i,
            Stl::Next(i, _) => *i,
            Stl::Eventually(i, _) => *i,
            Stl::Globally(i, _) => *i,
            Stl::Until(i, _, _) => *i,
            Stl::EventuallyInterval(i, _, _, _) => *i,
            Stl::GloballyInterval(i, _, _, _) => *i,
            Stl::UntilInterval(i, _, _, _, _) => *i,
        }
    }

    /// Value on an empty horizon ending at `upper`.
    pub fn evaluate_vacuous(&self, upper: usize) -> (r: i64)
        ensures
            r as int == vacuous(*self, upper as int),
            in_range(r as int),
        decreases *self,
    {
        match self {
            Stl::Atomic(_, _) => NEG_INF,
            Stl::Conjunction(_, l, r) => rmin(l.evaluate_vacuous(upper), r.evaluate_vacuous(upper)),
            Stl::Disjunction(_, l, r) => rmax(l.evaluate_vacuous(upper), r.evaluate_vacuous(upper)),
            Stl::Neg(_, c) => -c.evaluate_vacuous(upper),
            Stl::Next(_, c) => c.evaluate_vacuous(upper),
            Stl::Eventually(_, _) => NEG_INF,
            Stl::Globally(_, _) => INF,
            Stl::Until(_, _, _) => NEG_INF,
            Stl::EventuallyInterval(_, l, u, c) | Stl::GloballyInterval(_, l, u, c) => {
                let last = if upper <= *u {
                    upper
                } else {
                    *u
                };
                if *l <= last {
                    c.evaluate_vacuous(upper)
                } else {
                    NEG_INF
                }
            },
            Stl::UntilInterval(_, l, u, _, r) => {
                let last = if upper <= *u {
                    upper
                } else {
                    *u
                };
                if *l <= last {
                    r.evaluate_vacuous(upper)
                } else {
                    NEG_INF
                }
            },
        }
    }

    /// Robustness of the formula on `[lower, upper]`, memoized in `table`.
    pub fn evaluate(
        &self,
        table: &mut Table,
        trace: &Trace,
        lower: usize,
        upper: usize,
        is_lazy: bool,
        Ghost(dict): Ghost<Map<nat, Stl>>,
    ) -> (r: i64)
        requires
            ready(*old(table), *trace, dict, is_lazy),
            self.covered(dict),
            self.fits(old(table).num_ids(), trace.atoms@.len()),
            upper < trace.length,
        ensures
            r as int == rho(*self, *trace, lower as int, upper as int, is_lazy),
            in_range(r as int),
            lower <= upper ==> final(table).cell(self.id() as int, lower as int, upper as int)
                == Some(r),
            lower > upper ==> *final(table) == *old(table),
            old(table).cell(self.id() as int, lower as int, upper as int) is Some ==> final(table).cells()
                == old(table).cells() && final(table).set_calls() == old(table).set_calls(),
            keeps_filled(*old(table), *final(table)),
            ready(*final(table), *trace, dict, is_lazy),
            same_shape(*old(table), *final(table)),
        decreases *self, 2int, 0int,
    {
        if lower > upper {
            return self.evaluate_vacuous(upper);
        }
        let index = self.get_index();
        match table.lookup(index, lower, upper) {
            Some(v) => {
                return v;
            },
            None => {},
        }
        let v: i64 = match self {
            Stl::Atomic(_, a) => trace.atoms[*a][lower],
            Stl::Conjunction(_, l, r) => {
                let a = l.evaluate(table, trace, lower, upper, is_lazy, Ghost(dict));
                let b = r.evaluate(table, trace, lower, upper, is_lazy, Ghost(dict));
                rmin(a, b)
            },
            Stl::Disjunction(_, l, r) => {
                let a = l.evaluate(table, trace, lower, upper, is_lazy, Ghost(dict));
                let b = r.evaluate(table, trace, lower, upper, is_lazy, Ghost(dict));
                rmax(a, b)
            },
            Stl::Neg(_, c) => {
                let a = c.evaluate(table, trace, lower, upper, is_lazy, Ghost(dict));
                -a
            },
            Stl::Next(_, c) => c.evaluate(table, trace, lower + 1, upper, is_lazy, Ghost(dict)),
            Stl::Eventually(_, c) => max_loop(
                c,
                table,
                trace,
                0,
                lower,
                upper,
                upper,
                is_lazy,
                Ghost(dict),
            ),
            Stl::Globally(_, c) => min_loop(
                c,
                table,
                trace,
                0,
                lower,
                upper,
                upper,
                is_lazy,
                is_lazy,
                INF,
                Ghost(dict),
            ),
            Stl::Until(_, _, _) => self.until_loop(
                table,
                trace,
                0,
                lower,
                upper,
                upper,
                is_lazy,
                Ghost(dict),
            ),
            Stl::EventuallyInterval(_, l, u, c) => {
                let last = if upper <= *u {
                    upper
                } else {
                    *u
                };
                max_loop(c, table, trace, lower, *l, last, upper, is_lazy, Ghost(dict))
            },
            Stl::GloballyInterval(_, l, u, c) => {
                let last = if upper <= *u {
                    upper
                } else {
                    *u
                };
                if *l > last {
                    NEG_INF
                } else {
                    min_loop(c, table, trace, lower, *l, last, upper, is_lazy, is_lazy, INF, Ghost(dict))
                }
            },
            Stl::UntilInterval(_, l, u, _, _) => {
                let last = if upper <= *u {
                    upper
                } else {
                    *u
                };
                self.until_loop(table, trace, lower, *l, last, upper, is_lazy, Ghost(dict))
            },
        };
        proof {
            if table.cell(index as int, lower as int, upper as int) is Some {
                assert(dict.contains_key(index as nat));
            }
        }
        table.set(index, lower, upper, v);
        v
    }

    /// The outer loop of `Until` and `UntilInterval`.
    fn until_loop(
        &self,
        table: &mut Table,
        trace: &Trace,
        off: usize,
        first: usize,
        last: usize,
        upper: usize,
        is_lazy: bool,
        Ghost(dict): Ghost<Map<nat, Stl>>,
    ) -> (r: i64)
        requires
            ready(*old(table), *trace, dict, is_lazy),
            self.covered(dict),
            self.fits(old(table).num_ids(), trace.atoms@.len()),
            upper < trace.length,
            off <= upper,
            last <= upper,
        ensures
            r as int == until_fold(
                *self,
                *trace,
                off as int,
                first as int,
                first as int,
                last as int,
                upper as int,
                is_lazy,
                NEG_INF as int,
            ),
            in_range(r as int),
            ready(*final(table), *trace, dict, is_lazy),
            same_shape(*old(table), *final(table)),
            keeps_filled(*old(table), *final(table)),
        decreases *self, 1int, 0int,
    {
        let (lc, rc): (&Stl, &Stl) = match self {
            Stl::Until(_, l, r) => (l, r),
            Stl::UntilInterval(_, _, _, l, r) => (l, r),
            _ => {
                return NEG_INF;
            },
        };
        proof {
            assert(decreases_to!(*self => *rc));
            assert(decreases_to!(*self => *lc));
        }
        {
            {
                let mut v: i64 = NEG_INF;
                let mut k: usize = first;
                while k <= last
                    invariant
                        ready(*table, *trace, dict, is_lazy),
                        same_shape(*old(table), *table),
                        keeps_filled(*old(table), *table),
                        decreases_to!(*self => *rc),
                        decreases_to!(*self => *lc),
                        match *self {
                            Stl::Until(_, l, r) => *l == *lc && *r == *rc,
                            Stl::UntilInterval(_, _, _, l, r) => *l == *lc && *r == *rc,
                            _ => false,
                        },
                        lc.covered(dict),
                        rc.covered(dict),
                        lc.fits(old(table).num_ids(), trace.atoms@.len()),
                        rc.fits(old(table).num_ids(), trace.atoms@.len()),
                        upper < trace.length,
                        off <= upper,
                        last <= upper,
                        first <= k,
                        in_range(v as int),
                        until_fold(
                            *self,
                            *trace,
                            off as int,
                            first as int,
                            first as int,
                            last as int,
                            upper as int,
                            is_lazy,
                            NEG_INF as int,
                        ) == until_fold(
                            *self,
                            *trace,
                            off as int,
                            first as int,
                            k as int,
                            last as int,
                            upper as int,
                            is_lazy,
                            v as int,
                        ),
                    decreases last + 1 - k,
                {
                    let rv = rc.evaluate(table, trace, off + k, upper, is_lazy, Ghost(dict));
                    let m = if k == first {
                        rv
                    } else {
                        min_loop(
                            lc,
                            table,
                            trace,
                            off,
                            first,
                            k - 1,
                            upper,
                            is_lazy,
                            false,
                            rv,
                            Ghost(dict),
                        )
                    };
                    let a = rmax(v, m);
                    proof {
                        assert(m as int == min_fold(
                            *lc,
                            *trace,
                            off as int,
                            first as int,
                            k - 1,
                            upper as int,
                            is_lazy,
                            false,
                            rho(*rc, *trace, off + k, upper as int, is_lazy),
                        ));
                        assert(until_fold(
                            *self,
                            *trace,
                            off as int,
                            first as int,
                            k as int,
                            last as int,
                            upper as int,
                            is_lazy,
                            v as int,
                        ) == if is_lazy && a > 0 {
                            a as int
                        } else {
                            until_fold(
                                *self,
                                *trace,
                                off as int,
                                first as int,
                                k + 1,
                                last as int,
                                upper as int,
                                is_lazy,
                                a as int,
                            )
                        });
                    }
                    v = a;
                    if is_lazy && a > 0 {
                        k = last + 1;
                    } else {
                        k = k + 1;
                    }
                }
                v
            }
        }
    }
}

/// Running maximum of the robustness of `c` on `[off + k, upper]` for `k` in
/// `[first, last]`; under `is_lazy` it stops at the first positive value.
fn max_loop(
    c: &Stl,
    table: &mut Table,
    trace: &Trace,
    off: usize,
    first: usize,
    last: usize,
    upper: usize,
    is_lazy: bool,
    Ghost(dict): Ghost<Map<nat, Stl>>,
) -> (r: i64)
    requires
        ready(*old(table), *trace, dict, is_lazy),
        c.covered(dict),
        c.fits(old(table).num_ids(), trace.atoms@.len()),
        upper < trace.length,
        off <= upper,
        last <= upper,
    ensures
        r as int == max_fold(
            *c,
            *trace,
            off as int,
            first as int,
            last as int,
            upper as int,
            is_lazy,
            NEG_INF as int,
        ),
        in_range(r as int),
        ready(*final(table), *trace, dict, is_lazy),
        same_shape(*old(table), *final(table)),
        keeps_filled(*old(table), *final(table)),
    decreases *c, 3int, 0int,
{
    let mut v: i64 = NEG_INF;
    let mut k: usize = first;
    while k <= last
        invariant
            ready(*table, *trace, dict, is_lazy),
            same_shape(*old(table), *table),
            keeps_filled(*old(table), *table),
            c.covered(dict),
            c.fits(old(table).num_ids(), trace.atoms@.len()),
            upper < trace.length,
            off <= upper,
            last <= upper,
            in_range(v as int),
            max_fold(
                *c,
                *trace,
                off as int,
                first as int,
                last as int,
                upper as int,
                is_lazy,
                NEG_INF as int,
            ) == max_fold(
                *c,
                *trace,
                off as int,
                k as int,
                last as int,
                upper as int,
                is_lazy,
                v as int,
            ),
        decreases last + 1 - k,
    {
        let cv = c.evaluate(table, trace, off + k, upper, is_lazy, Ghost(dict));
        let a = rmax(v, cv);
        v = a;
        if is_lazy && a > 0 {
            k = last + 1;
        } else {
            k = k + 1;
        }
    }
    v
}

/// Running minimum, from `init`, of the robustness of `c` on `[off + k, upper]`
/// for `k` in `[first, last]`; with `brk` it stops at the first negative value.
fn min_loop(
    c: &Stl,
    table: &mut Table,
    trace: &Trace,
    off: usize,
    first: usize,
    last: usize,
    upper: usize,
    is_lazy: bool,
    brk: bool,
    init: i64,
    Ghost(dict): Ghost<Map<nat, Stl>>,
) -> (r: i64)
    requires
        ready(*old(table), *trace, dict, is_lazy),
        c.covered(dict),
        c.fits(old(table).num_ids(), trace.atoms@.len()),
        upper < trace.length,
        off <= upper,
        last <= upper,
        in_range(init as int),
    ensures
        r as int == min_fold(
            *c,
            *trace,
            off as int,
            first as int,
            last as int,
            upper as int,
            is_lazy,
            brk,
            init as int,
        ),
        in_range(r as int),
        ready(*final(table), *trace, dict, is_lazy),
        same_shape(*old(table), *final(table)),
        keeps_filled(*old(table), *final(table)),
    decreases *c, 3int, 0int,
{
    let mut v: i64 = init;
    let mut k: usize = first;
    while k <= last
        invariant
            ready(*table, *trace, dict, is_lazy),
            same_shape(*old(table), *table),
            keeps_filled(*old(table), *table),
            c.covered(dict),
            c.fits(old(table).num_ids(), trace.atoms@.len()),
            upper < trace.length,
            off <= upper,
            last <= upper,
            in_range(v as int),
            min_fold(
                *c,
                *trace,
                off as int,
                first as int,
                last as int,
                upper as int,
                is_lazy,
                brk,
                init as int,
            ) == min_fold(
                *c,
                *trace,
                off as int,
                k as int,
                last as int,
                upper as int,
                is_lazy,
                brk,
                v as int,
            ),
        decreases last + 1 - k,
    {
        let cv = c.evaluate(table, trace, off + k, upper, is_lazy, Ghost(dict));
        let a = rmin(v, cv);
        v = a;
        if brk && a < 0 {
            k = last + 1;
        } else {
            k = k + 1;
        }
    }
    v
}


/// Atomic propositions of `phi`, left to right, by the column each one reads.
pub open spec fn atoms_of(phi: Stl) -> Seq<usize>
    decreases phi,
{
    match phi {
        Stl::Atomic(_, a) => seq![a],
        Stl::Conjunction(_, l, r) => atoms_of(*l) + atoms_of(*r),
        Stl::Disjunction(_, l, r) => atoms_of(*l) + atoms_of(*r),
        Stl::Neg(_, c) => atoms_of(*c),
        Stl::Next(_, c) => atoms_of(*c),
        Stl::Eventually(_, c) => atoms_of(*c),
        Stl::Globally(_, c) => atoms_of(*c),
        Stl::Until(_, l, r) => atoms_of(*l) + atoms_of(*r),
        Stl::EventuallyInterval(_, _, _, c) => atoms_of(*c),
        Stl::GloballyInterval(_, _, _, c) => atoms_of(*c),
        Stl::UntilInterval(_, _, _, l, r) => atoms_of(*l) + atoms_of(*r),
    }
}

// Constructors. Each takes the next free id from `count` and advances it.
impl Stl {
    pub fn atomic(count: &mut usize, atom: usize) -> (r: Stl)
        requires
            *old(count) < usize::MAX,
        ensures
            r == Stl::Atomic(*old(count), atom),
            *final(count) == *old(count) + 1,
    {
        let id = *count;
        *count = id + 1;
        Stl::Atomic(id, atom)
    }

    pub fn conjunction(count: &mut usize, left_child: Stl, right_child: Stl) -> (r: Stl)
        requires
            *old(count) < usize::MAX,
        ensures
            r == Stl::Conjunction(*old(count), Box::new(left_child), Box::new(right_child)),
            *final(count) == *old(count) + 1,
    {
        let id = *count;
        *count = id + 1;
        Stl::Conjunction(id, Box::new(left_child), Box::new(right_child))
    }

    pub fn disjunction(count: &mut usize, left_child: Stl, right_child: Stl) -> (r: Stl)
        requires
            *old(count) < usize::MAX,
        ensures
            r == Stl::Disjunction(*old(count), Box::new(left_child), Box::new(right_child)),
            *final(count) == *old(count) + 1,
    {
        let id = *count;
        *count = id + 1;
        Stl::Disjunction(id, Box::new(left_child), Box::new(right_child))
    }

    pub fn neg(count: &mut usize, child: Stl) -> (r: Stl)
        requires
            *old(count) < usize::MAX,
        ensures
            r == Stl::Neg(*old(count), Box::new(child)),
            *final(count) == *old(count) + 1,
    {
        let id = *count;
        *count = id + 1;
        Stl::Neg(id, Box::new(child))
    }

    pub fn next(count: &mut usize, child: Stl) -> (r: Stl)
        requires
            *old(count) < usize::MAX,
        ensures
            r == Stl::Next(*old(count), Box::new(child)),
            *final(count) == *old(count) + 1,
    {
        let id = *count;
        *count = id + 1;
        Stl::Next(id, Box::new(child))
    }

    pub fn eventually(count: &mut usize, child: Stl) -> (r: Stl)
        requires
            *old(count) < usize::MAX,
        ensures
            r == Stl::Eventually(*old(count), Box::new(child)),
            *final(count) == *old(count) + 1,
    {
        let id = *count;
        *count = id + 1;
        Stl::Eventually(id, Box::new(child))
    }

    pub fn globally(count: &mut usize, child: Stl) -> (r: Stl)
        requires
            *old(count) < usize::MAX,
        ensures
            r == Stl::Globally(*old(count), Box::new(child)),
            *final(count) == *old(count) + 1,
    {
        let id = *count;
        *count = id + 1;
        Stl::Globally(id, Box::new(child))
    }

    pub fn until(count: &mut usize, left_child: Stl, right_child: Stl) -> (r: Stl)
        requires
            *old(count) < usize::MAX,
        ensures
            r == Stl::Until(*old(count), Box::new(left_child), Box::new(right_child)),
            *final(count) == *old(count) + 1,
    {
        let id = *count;
        *count = id + 1;
        Stl::Until(id, Box::new(left_child), Box::new(right_child))
    }

    pub fn eventually_interval(count: &mut usize, lower: usize, upper: usize, child: Stl) -> (r:
        Stl)
        requires
            *old(count) < usize::MAX,
        ensures
            r == Stl::EventuallyInterval(*old(count), lower, upper, Box::new(child)),
            *final(count) == *old(count) + 1,
    {
        let id = *count;
        *count = id + 1;
        Stl::EventuallyInterval(id, lower, upper, Box::new(child))
    }

    pub fn globally_interval(count: &mut usize, lower: usize, upper: usize, child: Stl) -> (r:
        Stl)
        requires
            *old(count) < usize::MAX,
        ensures
            r == Stl::GloballyInterval(*old(count), lower, upper, Box::new(child)),
            *final(count) == *old(count) + 1,
    {
        let id = *count;
        *count = id + 1;
        Stl::GloballyInterval(id, lower, upper, Box::new(child))
    }

    pub fn until_interval(
        count: &mut usize,
        lower: usize,
        upper: usize,
        left_child: Stl,
        right_child: Stl,
    ) -> (r: Stl)
        requires
            *old(count) < usize::MAX,
        ensures
            r == Stl::UntilInterval(
                *old(count),
                lower,
                upper,
                Box::new(left_child),
                Box::new(right_child),
            ),
            *final(count) == *old(count) + 1,
    {
        let id = *count;
        *count = id + 1;
        Stl::UntilInterval(id, lower, upper, Box::new(left_child), Box::new(right_child))
    }

    /// The atomic propositions of the formula, left to right.
    pub fn get_atomics(&self) -> (r: Vec<usize>)
        ensures
            r@ == atoms_of(*self),
        decreases *self,
    {
        match self {
            Stl::Atomic(_, a) => {
                let mut v: Vec<usize> = Vec::new();
                v.push(*a);
                proof {
                    assert(v@ =~= seq![*a]);
                }
                v
            },
            Stl::Conjunction(_, l, r)
            | Stl::Disjunction(_, l, r)
            | Stl::Until(_, l, r)
            | Stl::UntilInterval(_, _, _, l, r) => {
                let mut atomics = l.get_atomics();
                let mut rest = r.get_atomics();
                atomics.append(&mut rest);
                atomics
            },
            Stl::Neg(_, c)
            | Stl::Next(_, c)
            | Stl::Eventually(_, c)
            | Stl::Globally(_, c)
            | Stl::EventuallyInterval(_, _, _, c)
            | Stl::GloballyInterval(_, _, _, c) => c.get_atomics(),
        }
    }
}

/// Negating a formula twice gives back its robustness.
pub proof fn lemma_double_negation(
    phi: Stl,
    i: usize,
    j: usize,
    tr: Trace,
    lo: int,
    hi: int,
    lazy: bool,
)
    ensures
        rho(Stl::Neg(i, Box::new(Stl::Neg(j, Box::new(phi)))), tr, lo, hi, lazy) == rho(
            phi,
            tr,
            lo,
            hi,
            lazy,
        ),
{
    let inner = Stl::Neg(j, Box::new(phi));
    assert(rho(inner, tr, lo, hi, lazy) == -rho(phi, tr, lo, hi, lazy));
    assert(vacuous(inner, hi) == -vacuous(phi, hi));
}

proof fn lemma_min_max_dual(
    phi: Stl,
    n: usize,
    tr: Trace,
    off: int,
    k: int,
    last: int,
    hi: int,
    lazy: bool,
    acc: int,
)
    ensures
        min_fold(phi, tr, off, k, last, hi, lazy, lazy, acc) == -max_fold(
            Stl::Neg(n, Box::new(phi)),
            tr,
            off,
            k,
            last,
            hi,
            lazy,
            -acc,
        ),
    decreases last + 1 - k,
{
    if k <= last {
        let np = Stl::Neg(n, Box::new(phi));
        assert(rho(np, tr, off + k, hi, lazy) == -rho(phi, tr, off + k, hi, lazy));
        let a = min_spec(acc, rho(phi, tr, off + k, hi, lazy));
        lemma_min_max_dual(phi, n, tr, off, k + 1, last, hi, lazy, a);
    }
}

/// Globally is the dual of eventually: the robustness of `G phi` is minus that
/// of `F !phi`, on every trace and horizon, lazy or not.
pub proof fn lemma_globally_eventually_duality(
    phi: Stl,
    i: usize,
    j: usize,
    n: usize,
    tr: Trace,
    lo: int,
    hi: int,
    lazy: bool,
)
    ensures
        rho(Stl::Globally(i, Box::new(phi)), tr, lo, hi, lazy) == -rho(
            Stl::Eventually(j, Box::new(Stl::Neg(n, Box::new(phi)))),
            tr,
            lo,
            hi,
            lazy,
        ),
{
    if lo <= hi {
        lemma_min_max_dual(phi, n, tr, 0, lo, hi, hi, lazy, INF as int);
    }
}


impl Stl {
    /// A copy of the formula, ids included.
    pub fn copy(&self) -> (r: Stl)
        ensures
            r == *self,
        decreases *self,
    {
        match self {
            Stl::Atomic(i, a) => Stl::Atomic(*i, *a),
            Stl::Conjunction(i, l, r) => Stl::Conjunction(*i, Box::new(l.copy()), Box::new(r.copy())),
            Stl::Disjunction(i, l, r) => Stl::Disjunction(*i, Box::new(l.copy()), Box::new(r.copy())),
            Stl::Neg(i, c) => Stl::Neg(*i, Box::new(c.copy())),
            Stl::Next(i, c) => Stl::Next(*i, Box::new(c.copy())),
            Stl::Eventually(i, c) => Stl::Eventually(*i, Box::new(c.copy())),
            Stl::Globally(i, c) => Stl::Globally(*i, Box::new(c.copy())),
            Stl::Until(i, l, r) => Stl::Until(*i, Box::new(l.copy()), Box::new(r.copy())),
            Stl::EventuallyInterval(i, l, u, c) => Stl::EventuallyInterval(
                *i,
                *l,
                *u,
                Box::new(c.copy()),
            ),
            Stl::GloballyInterval(i, l, u, c) => Stl::GloballyInterval(
                *i,
                *l,
                *u,
                Box::new(c.copy()),
            ),
            Stl::UntilInterval(i, l, u, lc, rc) => Stl::UntilInterval(
                *i,
                *l,
                *u,
                Box::new(lc.copy()),
                Box::new(rc.copy()),
            ),
        }
    }
}


/// Two robustness values of the same sign: both positive, both negative, or
/// both zero.
pub open spec fn same_sign(a: int, b: int) -> bool {
    (a > 0 <==> b > 0) && (a < 0 <==> b < 0)
}

proof fn lemma_max_fold_grows(c: Stl, tr: Trace, off: int, k: int, last: int, hi: int, acc: int)
    ensures
        max_fold(c, tr, off, k, last, hi, false, acc) >= acc,
    decreases last + 1 - k,
{
    if k <= last {
        let a = max_spec(acc, rho(c, tr, off + k, hi, false));
        lemma_max_fold_grows(c, tr, off, k + 1, last, hi, a);
    }
}

proof fn lemma_min_fold_shrinks(c: Stl, tr: Trace, off: int, k: int, last: int, hi: int, acc: int)
    ensures
        min_fold(c, tr, off, k, last, hi, false, false, acc) <= acc,
    decreases last + 1 - k,
{
    if k <= last {
        let a = min_spec(acc, rho(c, tr, off + k, hi, false));
        lemma_min_fold_shrinks(c, tr, off, k + 1, last, hi, a);
    }
}

proof fn lemma_max_fold_sign(c: Stl, tr: Trace, off: int, k: int, last: int, hi: int, acc: int, acc2: int)
    requires
        same_sign(acc, acc2),
    ensures
        same_sign(
            max_fold(c, tr, off, k, last, hi, true, acc),
            max_fold(c, tr, off, k, last, hi, false, acc2),
        ),
    decreases c, 3int, last + 1 - k,
{
    if k <= last {
        lemma_lazy_sign(c, tr, off + k, hi);
        let a = max_spec(acc, rho(c, tr, off + k, hi, true));
        let a2 = max_spec(acc2, rho(c, tr, off + k, hi, false));
        if a > 0 {
            lemma_max_fold_grows(c, tr, off, k + 1, last, hi, a2);
        } else {
            lemma_max_fold_sign(c, tr, off, k + 1, last, hi, a, a2);
        }
    }
}

proof fn lemma_min_fold_sign(
    c: Stl,
    tr: Trace,
    off: int,
    k: int,
    last: int,
    hi: int,
    brk: bool,
    acc: int,
    acc2: int,
)
    requires
        same_sign(acc, acc2),
    ensures
        same_sign(
            min_fold(c, tr, off, k, last, hi, true, brk, acc),
            min_fold(c, tr, off, k, last, hi, false, false, acc2),
        ),
    decreases c, 3int, last + 1 - k,
{
    if k <= last {
        lemma_lazy_sign(c, tr, off + k, hi);
        let a = min_spec(acc, rho(c, tr, off + k, hi, true));
        let a2 = min_spec(acc2, rho(c, tr, off + k, hi, false));
        if brk && a < 0 {
            lemma_min_fold_shrinks(c, tr, off, k + 1, last, hi, a2);
        } else {
            lemma_min_fold_sign(c, tr, off, k + 1, last, hi, brk, a, a2);
        }
    }
}

proof fn lemma_until_fold_grows(
    phi: Stl,
    tr: Trace,
    off: int,
    first: int,
    k: int,
    last: int,
    hi: int,
    acc: int,
)
    requires
        phi is Until || phi is UntilInterval,
    ensures
        until_fold(phi, tr, off, first, k, last, hi, false, acc) >= acc,
    decreases last + 1 - k,
{
    if k <= last {
        let a = until_fold(phi, tr, off, first, k + 1, last, hi, false, acc);
        match phi {
            Stl::Until(_, l, r) | Stl::UntilInterval(_, _, _, l, r) => {
                let m = min_fold(*l, tr, off, first, k - 1, hi, false, false, rho(*r, tr, off + k, hi, false));
                lemma_until_fold_grows(phi, tr, off, first, k + 1, last, hi, max_spec(acc, m));
            },
            _ => {},
        }
    }
}

proof fn lemma_until_fold_sign(
    phi: Stl,
    tr: Trace,
    off: int,
    first: int,
    k: int,
    last: int,
    hi: int,
    acc: int,
    acc2: int,
)
    requires
        phi is Until || phi is UntilInterval,
        same_sign(acc, acc2),
    ensures
        same_sign(
            until_fold(phi, tr, off, first, k, last, hi, true, acc),
            until_fold(phi, tr, off, first, k, last, hi, false, acc2),
        ),
    decreases phi, 1int, last + 1 - k,
{
    if k <= last {
        match phi {
            Stl::Until(_, l, r) | Stl::UntilInterval(_, _, _, l, r) => {
                lemma_lazy_sign(*r, tr, off + k, hi);
                let rv = rho(*r, tr, off + k, hi, true);
                let rv2 = rho(*r, tr, off + k, hi, false);
                lemma_min_fold_sign(*l, tr, off, first, k - 1, hi, false, rv, rv2);
                let m = min_fold(*l, tr, off, first, k - 1, hi, true, false, rv);
                let m2 = min_fold(*l, tr, off, first, k - 1, hi, false, false, rv2);
                let a = max_spec(acc, m);
                let a2 = max_spec(acc2, m2);
                if a > 0 {
                    lemma_until_fold_grows(phi, tr, off, first, k + 1, last, hi, a2);
                } else {
                    lemma_until_fold_sign(phi, tr, off, first, k + 1, last, hi, a, a2);
                }
            },
            _ => {},
        }
    }
}

/// Lazy evaluation keeps the sign: the lazy robustness of a formula is
/// positive, negative or zero exactly when its robustness is.
pub proof fn lemma_lazy_sign(phi: Stl, tr: Trace, lo: int, hi: int)
    ensures
        same_sign(rho(phi, tr, lo, hi, true), rho(phi, tr, lo, hi, false)),
    decreases phi, 2int, 0int,
{
    if lo <= hi {
        match phi {
            Stl::Atomic(_, _) => {},
            Stl::Conjunction(_, l, r) | Stl::Disjunction(_, l, r) => {
                lemma_lazy_sign(*l, tr, lo, hi);
                lemma_lazy_sign(*r, tr, lo, hi);
            },
            Stl::Neg(_, c) => {
                lemma_lazy_sign(*c, tr, lo, hi);
            },
            Stl::Next(_, c) => {
                lemma_lazy_sign(*c, tr, lo + 1, hi);
            },
            Stl::Eventually(_, c) => {
                lemma_max_fold_sign(*c, tr, 0, lo, hi, hi, NEG_INF as int, NEG_INF as int);
            },
            Stl::Globally(_, c) => {
                lemma_min_fold_sign(*c, tr, 0, lo, hi, hi, true, INF as int, INF as int);
            },
            Stl::Until(_, _, _) => {
                lemma_until_fold_sign(phi, tr, 0, lo, lo, hi, hi, NEG_INF as int, NEG_INF as int);
            },
            Stl::EventuallyInterval(_, l, u, c) => {
                lemma_max_fold_sign(*c, tr, lo, l as int, min_spec(hi, u as int), hi, NEG_INF as int, NEG_INF as int);
            },
            Stl::GloballyInterval(_, l, u, c) => {
                lemma_min_fold_sign(*c, tr, lo, l as int, min_spec(hi, u as int), hi, true, INF as int, INF as int);
            },
            Stl::UntilInterval(_, l, u, _, _) => {
                lemma_until_fold_sign(phi, tr, lo, l as int, l as int, min_spec(hi, u as int), hi, NEG_INF as int, NEG_INF as int);
            },
        }
    }
}

} // verus!
