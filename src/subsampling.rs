//! The subsampling heuristic, from the sign streaks of atomic propositions.

use vstd::prelude::*;

use crate::behaviortree::{tree_atoms, TbtNode};
use crate::robustness::{max_spec, min_spec, rmax, rmin, INF, NEG_INF};
use crate::trace::Trace;

verus! {

/// Sign streaks of one atomic proposition, scanned left to right: the shortest
/// completed streak of non-negative values and of negative values, with the
/// value range recorded when each was found, and the running streaks.
pub struct Streaks {
    pub pos_min: usize,
    pub pos_dif: (i64, i64),
    pub pos_interval: (i64, i64),
    pub pos_count: usize,
    pub neg_min: usize,
    pub neg_dif: (i64, i64),
    pub neg_interval: (i64, i64),
    pub neg_count: usize,
}

pub open spec fn initial_streaks() -> Streaks {
    Streaks {
        pos_min: usize::MAX,
        pos_dif: (INF, NEG_INF),
        pos_interval: (INF, NEG_INF),
        pos_count: 0,
        neg_min: usize::MAX,
        neg_dif: (INF, NEG_INF),
        neg_interval: (INF, NEG_INF),
        neg_count: 0,
    }
}

pub open spec fn widen(i: (i64, i64), v: i64) -> (i64, i64) {
    (min_spec(i.0 as int, v as int) as i64, max_spec(i.1 as int, v as int) as i64)
}

/// One value of the scan. A non-negative value extends the running positive
/// streak and widens the range of non-negative values seen; a negative value
/// closes it. Negative values work the other way round, except that a closed
/// negative streak records the range of non-negative values.
pub open spec fn step(s: Streaks, v: i64) -> Streaks {
    let p = if v >= 0 {
        Streaks { pos_count: (s.pos_count + 1) as usize, pos_interval: widen(s.pos_interval, v), ..s }
    } else if s.pos_count > 0 {
        if s.pos_count < s.pos_min {
            Streaks { pos_min: s.pos_count, pos_dif: s.pos_interval, pos_count: 0, ..s }
        } else {
            Streaks { pos_count: 0, ..s }
        }
    } else {
        s
    };
    if v < 0 {
        Streaks { neg_count: (p.neg_count + 1) as usize, neg_interval: widen(p.neg_interval, v), ..p }
    } else if p.neg_count > 0 {
        if p.neg_count < p.neg_min {
            Streaks { neg_min: p.neg_count, neg_dif: p.pos_interval, neg_count: 0, ..p }
        } else {
            Streaks { neg_count: 0, ..p }
        }
    } else {
        p
    }
}

/// The streaks after the first `k` values of `col`.
pub open spec fn scan(col: Seq<i64>, k: int) -> Streaks
    decreases k,
{
    if k <= 0 {
        initial_streaks()
    } else {
        step(scan(col, k - 1), col[k - 1])
    }
}

/// Shortest streaks over the first `k` atomic propositions of `atoms`, as
/// `(positive, its range, negative, its range)`; the first of equal ones wins.
pub open spec fn global_streaks(tr: Trace, atoms: Seq<usize>, k: int) -> (usize, (i64, i64), usize, (i64, i64))
    decreases k,
{
    if k <= 0 {
        (usize::MAX, (INF, NEG_INF), usize::MAX, (INF, NEG_INF))
    } else {
        let g = global_streaks(tr, atoms, k - 1);
        let s = scan(tr.atoms@[atoms[k - 1] as int]@, tr.length as int);
        let (gp, gpd) = if s.pos_min < g.0 { (s.pos_min, s.pos_dif) } else { (g.0, g.1) };
        let (gn, gnd) = if s.neg_min < g.2 { (s.neg_min, s.neg_dif) } else { (g.2, g.3) };
        (gp, gpd, gn, gnd)
    }
}

/// The largest `j <= k` that is zero or divides 200, i.e. for which
/// `1 / (0.005 * j)` is a whole number.
pub open spec fn whole_rate(k: int) -> int
    decreases k,
{
    if k <= 0 {
        0
    } else if 200int % k == 0 {
        k
    } else {
        whole_rate(k - 1)
    }
}

/// A streak count is either unset or positive and within the trace.
pub open spec fn counts_ok(s: Streaks, n: int) -> bool {
    &&& s.pos_min == usize::MAX || 1 <= s.pos_min <= n
    &&& s.neg_min == usize::MAX || 1 <= s.neg_min <= n
}

fn scan_column(col: &Vec<i64>, n: usize) -> (r: Streaks)
    requires
        col@.len() == n,
        n < usize::MAX,
    ensures
        r == scan(col@, n as int),
        counts_ok(r, n as int),
{
    let mut s = Streaks {
        pos_min: usize::MAX,
        pos_dif: (INF, NEG_INF),
        pos_interval: (INF, NEG_INF),
        pos_count: 0,
        neg_min: usize::MAX,
        neg_dif: (INF, NEG_INF),
        neg_interval: (INF, NEG_INF),
        neg_count: 0,
    };
    let mut k: usize = 0;
    while k < n
        invariant
            col@.len() == n,
            n < usize::MAX,
            k <= n,
            s == scan(col@, k as int),
            s.pos_count <= k,
            s.neg_count <= k,
            counts_ok(s, k as int),
        decreases n - k,
    {
        let v = col[k];
        if v >= 0 {
            s.pos_count = s.pos_count + 1;
            s.pos_interval = (rmin(s.pos_interval.0, v), rmax(s.pos_interval.1, v));
        } else if s.pos_count > 0 {
            if s.pos_count < s.pos_min {
                s.pos_min = s.pos_count;
                s.pos_dif = s.pos_interval;
            }
            s.pos_count = 0;
        }
        if v < 0 {
            s.neg_count = s.neg_count + 1;
            s.neg_interval = (rmin(s.neg_interval.0, v), rmax(s.neg_interval.1, v));
        } else if s.neg_count > 0 {
            if s.neg_count < s.neg_min {
                s.neg_min = s.neg_count;
                s.neg_dif = s.pos_interval;
            }
            s.neg_count = 0;
        }
        k = k + 1;
    }
    s
}

/// Subsampling heuristic: from the shortest sign streak of any atomic
/// proposition of `tree`, the number of samples that can be skipped (see
/// `whole_rate`), with the value ranges recorded with the shortest positive and
/// negative streaks.
pub fn get_best_number_skipped(trace: &Trace, tree: &TbtNode) -> (r: (usize, (i64, i64), (i64, i64)))
    requires
        trace.wf(),
        forall|k: int|
            0 <= k < tree_atoms(*tree).len() ==> (#[trigger] tree_atoms(*tree)[k]) < trace.atoms@.len(),
    ensures
        ({
            let atoms = tree_atoms(*tree);
            let g = global_streaks(*trace, atoms, atoms.len() as int);
            &&& r.1 == g.1
            &&& r.2 == g.3
            &&& r.0 == if g.0 == usize::MAX || g.2 == usize::MAX {
                0
            } else {
                whole_rate(min_spec(g.0 as int, g.2 as int) - 1)
            }
        }),
{
    let atomics = tree.get_atomics();
    let ghost atoms = atomics@;
    let mut global_streak_pos: usize = usize::MAX;
    let mut global_streak_pos_dif: (i64, i64) = (INF, NEG_INF);
    let mut global_streak_neg: usize = usize::MAX;
    let mut global_streak_neg_dif: (i64, i64) = (INF, NEG_INF);
    let mut k: usize = 0;
    while k < atomics.len()
        invariant
            trace.wf(),
            atoms == atomics@,
            atoms == tree_atoms(*tree),
            forall|j: int| 0 <= j < atoms.len() ==> (#[trigger] atoms[j]) < trace.atoms@.len(),
            k <= atoms.len(),
            (global_streak_pos, global_streak_pos_dif, global_streak_neg, global_streak_neg_dif)
                == global_streaks(*trace, atoms, k as int),
            global_streak_pos == usize::MAX || 1 <= global_streak_pos,
            global_streak_neg == usize::MAX || 1 <= global_streak_neg,
        decreases atoms.len() - k,
    {
        let a = atomics[k];
        let s = scan_column(&trace.atoms[a], trace.length);
        if s.pos_min < global_streak_pos {
            global_streak_pos = s.pos_min;
            global_streak_pos_dif = s.pos_dif;
        }
        if s.neg_min < global_streak_neg {
            global_streak_neg = s.neg_min;
            global_streak_neg_dif = s.neg_dif;
        }
        k = k + 1;
    }
    if global_streak_pos == usize::MAX || global_streak_neg == usize::MAX {
        (0, global_streak_pos_dif, global_streak_neg_dif)
    } else {
        let smallest = if global_streak_pos < global_streak_neg {
            global_streak_pos
        } else {
            global_streak_neg
        };
        let mut number_skipped: usize = smallest - 1;
        while number_skipped > 0 && 200 % number_skipped != 0
            invariant
                whole_rate(smallest - 1) == whole_rate(number_skipped as int),
            decreases number_skipped,
        {
            number_skipped = number_skipped - 1;
        }
        (number_skipped, global_streak_pos_dif, global_streak_neg_dif)
    }
}

} // verus!
