//! Dominator sets, immediate dominators and loop headers of a control-flow
//! graph. A set of blocks is a row of zeros and ones, one entry per block.

use vstd::prelude::*;
use crate::graph::{Graph, GraphModel};

verus! {

/// Whether block `j` is in row `n` of `d`.
pub open spec fn has_bit(d: Seq<Vec<usize>>, n: int, j: int) -> bool {
    d[n]@[j] == 1
}

/// Whether `d` has `n` rows of `n` entries.
pub open spec fn is_square(d: Seq<Vec<usize>>, n: int) -> bool {
    d.len() == n && forall|i: int| 0 <= i < n ==> (#[trigger] d[i])@.len() == n
}

/// Whether every entry of `d` is zero or one.
pub open spec fn is_bits(d: Seq<Vec<usize>>) -> bool {
    forall|i: int, j: int|
        0 <= i < d.len() && 0 <= j < d[i]@.len() ==> (#[trigger] d[i]@[j]) == 0 || d[i]@[j] == 1
}

/// Whether `j` is in the set of every predecessor of `n`.
pub open spec fn all_preds_have<C>(g: GraphModel<C>, d: Seq<Vec<usize>>, n: int, j: int) -> bool {
    forall|p: int| #[trigger] g.is_pred(p, n) ==> has_bit(d, p, j)
}

/// Whether `j` is `n` itself or in the set of every predecessor of `n`.
pub open spec fn meets<C>(g: GraphModel<C>, d: Seq<Vec<usize>>, n: int, j: int) -> bool {
    j == n || all_preds_have(g, d, n, j)
}

/// Whether `d` solves the dominator equations of `g`: the entry is
/// dominated by itself alone, and the set of any other block is the block
/// itself together with what is common to the sets of its predecessors.
pub open spec fn is_dominator_solution<C>(g: GraphModel<C>, d: Seq<Vec<usize>>) -> bool {
    let n = g.blocks.len() as int;
    &&& is_square(d, n)
    &&& is_bits(d)
    &&& forall|j: int| 0 <= j < n ==> (#[trigger] has_bit(d, 0, j) <==> j == 0)
    &&& forall|i: int, j: int|
        0 < i < n && 0 <= j < n ==> (#[trigger] has_bit(d, i, j) <==> meets(g, d, i, j))
}

/// Whether every set of `x` lies within the set of `d` for the same block.
pub open spec fn covers(d: Seq<Vec<usize>>, x: Seq<Vec<usize>>) -> bool {
    forall|i: int, j: int|
        0 <= i < d.len() && 0 <= j < d[i]@.len() && #[trigger] has_bit(x, i, j) ==> has_bit(d, i, j)
}

/// Whether `h` is the target of an edge from a block that it dominates.
pub open spec fn is_loop_header<C>(g: GraphModel<C>, d: Seq<Vec<usize>>, h: int) -> bool {
    exists|u: int| #[trigger] g.is_pred(u, h) && has_bit(d, u, h)
}

/// The entrywise product of two rows: the intersection of two sets.
pub fn intersect(v1: &[usize], v2: &[usize]) -> (r: Vec<usize>)
    requires
        v1@.len() <= v2@.len(),
        forall|i: int| 0 <= i < v1@.len() ==> #[trigger] v1@[i] * v2@[i] <= usize::MAX,
    ensures
        r@.len() == v1@.len(),
        forall|i: int| 0 <= i < r@.len() ==> #[trigger] r@[i] == v1@[i] * v2@[i],
{
    let mut r: Vec<usize> = Vec::new();
    let mut i: usize = 0;
    while i < v1.len()
        invariant
            i <= v1@.len() <= v2@.len(),
            r@.len() == i,
            forall|k: int| 0 <= k < v1@.len() ==> #[trigger] v1@[k] * v2@[k] <= usize::MAX,
            forall|k: int| 0 <= k < i ==> #[trigger] r@[k] == v1@[k] * v2@[k],
        decreases v1@.len() - i,
    {
        assert(v1@[i as int] * v2@[i as int] <= usize::MAX);
        r.push(v1[i] * v2[i]);
        i = i + 1;
    }
    r
}

/// A row of `n` entries, each `value`.
pub fn filled(value: usize, n: usize) -> (r: Vec<usize>)
    ensures
        r@.len() == n,
        forall|i: int| 0 <= i < n ==> #[trigger] r@[i] == value,
{
    let mut r: Vec<usize> = Vec::new();
    let mut i: usize = 0;
    while i < n
        invariant
            i <= n,
            r@.len() == i,
            forall|k: int| 0 <= k < i ==> #[trigger] r@[k] == value,
        decreases n - i,
    {
        r.push(value);
        i = i + 1;
    }
    r
}

impl<CmdType> Graph<CmdType> {
    /// Marks the loop headers: block `h` gets a one where some block that
    /// `h` dominates has an edge to `h`, and a zero otherwise.
    pub fn loop_headers(&self, dom: &Vec<Vec<usize>>) -> (r: Vec<usize>)
        requires
            self.wf(),
            is_square(dom@, self@.blocks.len() as int),
        ensures
            r@.len() == self@.blocks.len(),
            forall|h: int|
                0 <= h < r@.len() ==> #[trigger] r@[h] == if is_loop_header(self@, dom@, h) {
                    1usize
                } else {
                    0usize
                },
    {
        let n = self.nodes.len();
        let mut result = filled(0, n);
        let mut i: usize = 0;
        while i < n
            invariant
                i <= n,
                n == self.nodes@.len(),
                self.wf(),
                is_square(dom@, n as int),
                result@.len() == n,
                forall|h: int| 0 <= h < n ==> #[trigger] result@[h] == 0 || result@[h] == 1,
                forall|h: int|
                    0 <= h < n ==> (#[trigger] result@[h] == 1 <==> exists|u: int|
                        0 <= u < i && #[trigger] self@.is_pred(u, h) && has_bit(dom@, u, h)),
            decreases n - i,
        {
            let mut j: usize = 0;
            while j < self.nodes[i].neighbors.len()
                invariant
                    i < n,
                    n == self.nodes@.len(),
                    self.wf(),
                    is_square(dom@, n as int),
                    result@.len() == n,
                    j <= self.nodes@[i as int].neighbors@.len(),
                    forall|h: int| 0 <= h < n ==> #[trigger] result@[h] == 0 || result@[h] == 1,
                    forall|h: int|
                        0 <= h < n ==> (#[trigger] result@[h] == 1 <==> (exists|u: int|
                            0 <= u < i && #[trigger] self@.is_pred(u, h) && has_bit(dom@, u, h)) || (
                        has_bit(dom@, i as int, h) && exists|k: int|
                            0 <= k < j && #[trigger] self@.blocks[i as int].succs[k] == h)),
                decreases self.nodes@[i as int].neighbors@.len() - j,
            {
                let t = self.nodes[i].neighbors[j];
                assert(self@.blocks[i as int].succs[j as int] == t);
                assert(t < n);
                if dom[i][t] == 1 {
                    result[t] = 1;
                }
                j = j + 1;
            }
            proof {
                assert forall|h: int| 0 <= h < n implies (#[trigger] result@[h] == 1 <==> exists|u: int|
                    0 <= u < i + 1 && #[trigger] self@.is_pred(u, h) && has_bit(dom@, u, h)) by {
                    if result@[h] == 1 {
                        if has_bit(dom@, i as int, h) && exists|k: int|
                            0 <= k < j && #[trigger] self@.blocks[i as int].succs[k] == h {
                            assert(self@.is_pred(i as int, h));
                        } else {
                            let u = choose|u: int|
                                0 <= u < i && #[trigger] self@.is_pred(u, h) && has_bit(dom@, u, h);
                            assert(0 <= u < i + 1 && self@.is_pred(u, h) && has_bit(dom@, u, h));
                        }
                    }
                    if exists|u: int|
                        0 <= u < i + 1 && #[trigger] self@.is_pred(u, h) && has_bit(dom@, u, h) {
                        let u = choose|u: int|
                            0 <= u < i + 1 && #[trigger] self@.is_pred(u, h) && has_bit(dom@, u, h);
                        if u < i {
                            assert(0 <= u < i && self@.is_pred(u, h) && has_bit(dom@, u, h));
                        }
                    }
                }
            }
            i = i + 1;
        }
        proof {
            assert forall|h: int| 0 <= h < result@.len() implies #[trigger] result@[h] == if is_loop_header(
                self@,
                dom@,
                h,
            ) {
                1usize
            } else {
                0usize
            } by {
                if is_loop_header(self@, dom@, h) {
                    let u = choose|u: int| #[trigger] self@.is_pred(u, h) && has_bit(dom@, u, h);
                    assert(0 <= u < i && self@.is_pred(u, h) && has_bit(dom@, u, h));
                }
            }
        }
        result
    }
}

/// How many entries of `row` are one.
pub open spec fn count_ones(row: Seq<usize>) -> nat
    decreases row.len(),
{
    if row.len() == 0 {
        0
    } else {
        count_ones(row.drop_last()) + if row.last() == 1 {
            1nat
        } else {
            0nat
        }
    }
}

/// How many entries of all rows of `d` are one.
pub open spec fn total_ones(d: Seq<Vec<usize>>) -> nat
    decreases d.len(),
{
    if d.len() == 0 {
        0
    } else {
        total_ones(d.drop_last()) + count_ones(d.last()@)
    }
}

/// A subset has no more members, and fewer if it differs.
pub proof fn lemma_count_subset(a: Seq<usize>, b: Seq<usize>)
    requires
        a.len() == b.len(),
        forall|j: int| 0 <= j < a.len() && a[j] == 1 ==> b[j] == 1,
    ensures
        count_ones(a) <= count_ones(b),
        (exists|j: int| 0 <= j < a.len() && a[j] != 1 && b[j] == 1) ==> count_ones(a) < count_ones(b),
    decreases a.len(),
{
    if a.len() > 0 {
        let a0 = a.drop_last();
        let b0 = b.drop_last();
        lemma_count_subset(a0, b0);
        if exists|j: int| 0 <= j < a.len() && a[j] != 1 && b[j] == 1 {
            let j = choose|j: int| 0 <= j < a.len() && a[j] != 1 && b[j] == 1;
            if j < a.len() - 1 {
                assert(a0[j] != 1 && b0[j] == 1);
            }
        }
    }
}

/// Replacing one row changes the total by the difference of the two rows.
pub proof fn lemma_total_update(d: Seq<Vec<usize>>, n: int, row: Vec<usize>)
    requires
        0 <= n < d.len(),
    ensures
        total_ones(d.update(n, row)) + count_ones(d[n]@) == total_ones(d) + count_ones(row@),
    decreases d.len(),
{
    if n == d.len() - 1 {
        assert(d.update(n, row).drop_last() =~= d.drop_last());
    } else {
        assert(d.update(n, row).drop_last() =~= d.drop_last().update(n, row));
        lemma_total_update(d.drop_last(), n, row);
    }
}

/// Whether the two rows are equal entry by entry.
fn same_row(a: &Vec<usize>, b: &Vec<usize>) -> (r: bool)
    requires
        a@.len() == b@.len(),
    ensures
        r == (a@ == b@),
{
    let mut j: usize = 0;
    while j < a.len()
        invariant
            j <= a@.len(),
            a@.len() == b@.len(),
            forall|k: int| 0 <= k < j ==> a@[k] == b@[k],
        decreases a@.len() - j,
    {
        if a[j] != b[j] {
            return false;
        }
        j = j + 1;
    }
    assert(a@ =~= b@);
    true
}

impl<CmdType> Graph<CmdType> {
    /// The set for block `m` that the sets `d` of its predecessors give:
    /// `m` itself and what all predecessors have in common.
    pub fn meet_row(&self, d: &Vec<Vec<usize>>, m: usize) -> (t: Vec<usize>)
        requires
            self.wf(),
            is_square(d@, self@.blocks.len() as int),
            is_bits(d@),
            m < self@.blocks.len(),
        ensures
            t@.len() == self@.blocks.len(),
            forall|j: int| 0 <= j < t@.len() ==> #[trigger] t@[j] == 0 || t@[j] == 1,
            forall|j: int| 0 <= j < t@.len() ==> (#[trigger] t@[j] == 1 <==> meets(self@, d@, m as int, j)),
    {
        let n = self.nodes.len();
        let preds = self.pred(m);
        let mut t = filled(1, n);
        let mut idx: usize = 0;
        while idx < preds.len()
            invariant
                idx <= preds@.len(),
                n == self@.blocks.len(),
                is_square(d@, n as int),
                is_bits(d@),
                t@.len() == n,
                forall|k: int| 0 <= k < preds@.len() ==> self@.is_pred(#[trigger] preds@[k] as int, m as int),
                forall|j: int| 0 <= j < n ==> #[trigger] t@[j] == 0 || t@[j] == 1,
                forall|j: int|
                    0 <= j < n ==> (#[trigger] t@[j] == 1 <==> forall|i: int|
                        0 <= i < idx ==> has_bit(d@, #[trigger] preds@[i] as int, j)),
            decreases preds@.len() - idx,
        {
            let k = preds[idx];
            assert(self@.is_pred(preds@[idx as int] as int, m as int));
            let ghost before = t@;
            assert forall|i: int| 0 <= i < d@[k as int]@.len() implies #[trigger] d@[k as int]@[i]
                * t@[i] <= usize::MAX by {
                assert(d@[k as int]@[i] == 0 || d@[k as int]@[i] == 1);
                assert(t@[i] == 0 || t@[i] == 1);
            }
            t = intersect(d[k].as_slice(), t.as_slice());
            assert forall|j: int| 0 <= j < n implies (#[trigger] t@[j] == 0 || t@[j] == 1) && (t@[j]
                == 1 <==> forall|i: int| 0 <= i < idx + 1 ==> has_bit(d@, #[trigger] preds@[i] as int, j)) by {
                assert(d@[k as int]@[j] == 0 || d@[k as int]@[j] == 1);
                assert(before[j] == 0 || before[j] == 1);
                let x = d@[k as int]@[j];
                let y = before[j];
                assert(t@[j] == x * y);
                assert(x * y == if x == 1 && y == 1 {
                    1int
                } else {
                    0int
                }) by (nonlinear_arith)
                    requires
                        x == 0 || x == 1,
                        y == 0 || y == 1,
                ;
                if t@[j] == 1 {
                    assert(has_bit(d@, k as int, j));
                    assert(before[j] == 1);
                } else {
                    if has_bit(d@, k as int, j) {
                        assert(before[j] != 1);
                    } else {
                        assert(!has_bit(d@, preds@[idx as int] as int, j));
                    }
                }
            }
            idx = idx + 1;
        }
        let ghost before = t@;
        t[m] = 1;
        proof {
            assert forall|j: int| 0 <= j < t@.len() implies (#[trigger] t@[j] == 1 <==> meets(
                self@,
                d@,
                m as int,
                j,
            )) by {
                if j != m {
                    if before[j] == 1 {
                        assert forall|p: int| #[trigger] self@.is_pred(p, m as int) implies has_bit(
                            d@,
                            p,
                            j,
                        ) by {
                            assert(preds@.contains(p as usize));
                            let i = choose|i: int| 0 <= i < preds@.len() && preds@[i] == p as usize;
                            assert(has_bit(d@, preds@[i] as int, j));
                        }
                    }
                    if all_preds_have(self@, d@, m as int, j) {
                        assert forall|i: int| 0 <= i < idx implies has_bit(
                            d@,
                            #[trigger] preds@[i] as int,
                            j,
                        ) by {
                            assert(self@.is_pred(preds@[i] as int, m as int));
                        }
                    }
                }
            }
        }
        t
    }
}

/// Whether the relation `x` between a block and a member of its set asks
/// for no more than the dominator equations allow: the entry has at most
/// itself, and a member of the set of another block is that block or a
/// member of the set of each of its predecessors.
pub open spec fn is_consistent<C>(g: GraphModel<C>, x: spec_fn(int, int) -> bool) -> bool {
    &&& forall|j: int| #[trigger] x(0, j) ==> j == 0
    &&& forall|n: int, j: int, p: int|
        0 < n < g.blocks.len() && #[trigger] x(n, j) && j != n && #[trigger] g.is_pred(p, n) ==> x(
            p,
            j,
        )
}

/// Whether the sets `d` hold every pair of the relation `x`.
pub open spec fn within(d: Seq<Vec<usize>>, x: spec_fn(int, int) -> bool) -> bool {
    forall|n: int, j: int| 0 <= n < d.len() && 0 <= j < d.len() && #[trigger] x(n, j) ==> has_bit(d, n, j)
}

/// Whether `d` holds the dominator sets of `g`: the solution of its
/// dominator equations that holds every consistent relation, and so the
/// largest one.
pub open spec fn is_dominator_sets<C>(g: GraphModel<C>, d: Seq<Vec<usize>>) -> bool {
    &&& is_dominator_solution(g, d)
    &&& forall|x: spec_fn(int, int) -> bool| #[trigger] is_consistent(g, x) ==> within(d, x)
}

/// What holds of the sets while they shrink towards the solution: the
/// entry has itself alone, every set holds what its equation asks for, and
/// every solution lies within.
pub open spec fn above_solutions<C>(g: GraphModel<C>, d: Seq<Vec<usize>>) -> bool {
    let n = g.blocks.len() as int;
    &&& is_square(d, n)
    &&& is_bits(d)
    &&& forall|j: int| 0 <= j < n ==> (#[trigger] has_bit(d, 0, j) <==> j == 0)
    &&& forall|i: int, j: int| 0 < i < n && 0 <= j < n && #[trigger] meets(g, d, i, j) ==> has_bit(d, i, j)
    &&& forall|x: Seq<Vec<usize>>| #[trigger] is_dominator_solution(g, x) ==> covers(d, x)
    &&& forall|x: spec_fn(int, int) -> bool| #[trigger] is_consistent(g, x) ==> within(d, x)
    &&& forall|i: int| 0 <= i < n ==> #[trigger] has_bit(d, i, 0)
}

/// Replacing the set of block `m` by what its equation gives keeps the
/// sets above every solution and takes nothing in.
pub proof fn lemma_refine_row<C>(g: GraphModel<C>, d: Seq<Vec<usize>>, m: int, t: Vec<usize>)
    requires
        above_solutions(g, d),
        0 < m < g.blocks.len(),
        t@.len() == g.blocks.len(),
        forall|j: int| 0 <= j < t@.len() ==> #[trigger] t@[j] == 0 || t@[j] == 1,
        forall|j: int| 0 <= j < t@.len() ==> (#[trigger] t@[j] == 1 <==> meets(g, d, m, j)),
    ensures
        above_solutions(g, d.update(m, t)),
        total_ones(d.update(m, t)) <= total_ones(d),
        t@ != d[m]@ ==> total_ones(d.update(m, t)) < total_ones(d),
{
    let n = g.blocks.len() as int;
    let e = d.update(m, t);
    assert forall|j: int| 0 <= j < n && t@[j] == 1 implies d[m]@[j] == 1 by {
        assert(meets(g, d, m, j));
        assert(has_bit(d, m, j));
    }
    assert forall|i: int, j: int| 0 <= i < n && 0 <= j < n && has_bit(e, i, j) implies has_bit(
        d,
        i,
        j,
    ) by {}
    assert forall|i: int, j: int| 0 < i < n && 0 <= j < n && #[trigger] meets(g, e, i, j) implies has_bit(
        e,
        i,
        j,
    ) by {
        if j != i {
            assert forall|p: int| #[trigger] g.is_pred(p, i) implies has_bit(d, p, j) by {
                assert(has_bit(e, p, j));
            }
        }
        assert(meets(g, d, i, j));
    }
    assert forall|x: Seq<Vec<usize>>| #[trigger] is_dominator_solution(g, x) implies covers(e, x) by {
        assert(covers(d, x));
        assert forall|i: int, j: int|
            0 <= i < e.len() && 0 <= j < e[i]@.len() && #[trigger] has_bit(x, i, j) implies has_bit(
            e,
            i,
            j,
        ) by {
            assert(has_bit(d, i, j));
            if i == m {
                assert(meets(g, x, m, j));
                if j != m {
                    assert forall|p: int| #[trigger] g.is_pred(p, m) implies has_bit(d, p, j) by {
                        assert(has_bit(x, p, j));
                    }
                }
                assert(meets(g, d, m, j));
            }
        }
    }
    assert forall|x: spec_fn(int, int) -> bool| #[trigger] is_consistent(g, x) implies within(e, x) by {
        assert(within(d, x));
        assert forall|i: int, j: int| 0 <= i < e.len() && 0 <= j < e.len() && #[trigger] x(i, j) implies has_bit(
            e,
            i,
            j,
        ) by {
            assert(has_bit(d, i, j));
            if i == m && j != m {
                assert forall|p: int| #[trigger] g.is_pred(p, m) implies has_bit(d, p, j) by {
                    assert(x(p, j));
                }
                assert(meets(g, d, m, j));
            }
        }
    }
    assert forall|i: int, j: int| 0 <= i < e.len() && 0 <= j < e[i]@.len() implies (#[trigger] e[i]@[j])
        == 0 || e[i]@[j] == 1 by {
        if i != m {
            assert(d[i]@[j] == 0 || d[i]@[j] == 1);
        }
    }
    assert(is_square(e, n)) by {
        assert forall|i: int| 0 <= i < n implies (#[trigger] e[i])@.len() == n by {
            if i != m {
                assert(d[i]@.len() == n);
            }
        }
    }
    assert(is_bits(e));
    assert forall|j: int| 0 <= j < n implies (#[trigger] has_bit(e, 0, j) <==> j == 0) by {
        assert(has_bit(d, 0, j) <==> j == 0);
    }
    assert forall|i: int| 0 <= i < n implies #[trigger] has_bit(e, i, 0) by {
        assert(has_bit(d, i, 0));
        if i == m {
            assert forall|p: int| #[trigger] g.is_pred(p, m) implies has_bit(d, p, 0) by {}
            assert(meets(g, d, m, 0));
        }
    }
    lemma_total_update(d, m, t);
    lemma_count_subset(t@, d[m]@);
    if t@ != d[m]@ {
        assert(!(t@ =~= d[m]@));
        let j = choose|j: int| 0 <= j < n && t@[j] != d[m]@[j];
        assert(d[m]@[j] == 0 || d[m]@[j] == 1);
        assert(t@[j] != 1 && d[m]@[j] == 1);
    }
}

impl<CmdType> Graph<CmdType> {
    /// The dominator sets of all blocks: entry `j` of row `n` is one where
    /// block `j` dominates block `n`. They are the largest sets that solve
    /// the dominator equations, so a block without predecessors other than
    /// the entry is dominated by every block.
    pub fn dominate_nodes(&self) -> (result: Vec<Vec<usize>>)
        requires
            self.wf(),
            self@.blocks.len() > 0,
        ensures
            is_dominator_sets(self@, result@),
            forall|x: Seq<Vec<usize>>| #[trigger] is_dominator_solution(self@, x) ==> covers(result@, x),
            forall|n: int| 0 <= n < result@.len() ==> #[trigger] has_bit(result@, n, 0),
            forall|n: int| 0 < n < result@.len() ==> has_strict_dominator(result@, n),
    {
        let n = self.nodes.len();
        let mut first = filled(0, n);
        first[0] = 1;
        let mut result: Vec<Vec<usize>> = Vec::new();
        result.push(first);
        let ghost entry = result@[0];
        let mut i: usize = 1;
        while i < n
            invariant
                1 <= i <= n,
                n == self@.blocks.len(),
                result@.len() == i,
                result@[0] == entry,
                forall|k: int| 0 <= k < i ==> (#[trigger] result@[k])@.len() == n,
                forall|j: int| 0 <= j < n ==> (#[trigger] entry@[j] == 1 <==> j == 0),
                forall|j: int| 0 <= j < n ==> #[trigger] entry@[j] == 0 || entry@[j] == 1,
                forall|k: int, j: int| 0 < k < i && 0 <= j < n ==> #[trigger] result@[k]@[j] == 1,
            decreases n - i,
        {
            result.push(filled(1, n));
            i = i + 1;
        }
        proof {
            assert forall|x: Seq<Vec<usize>>| #[trigger] is_dominator_solution(self@, x) implies covers(
                result@,
                x,
            ) by {
                assert forall|k: int, j: int|
                    0 <= k < result@.len() && 0 <= j < result@[k]@.len() && #[trigger] has_bit(
                        x,
                        k,
                        j,
                    ) implies has_bit(result@, k, j) by {
                    if k == 0 {
                        assert(has_bit(x, 0, j) <==> j == 0);
                    }
                }
            }
            assert forall|x: spec_fn(int, int) -> bool| #[trigger] is_consistent(self@, x) implies within(
                result@,
                x,
            ) by {
                assert forall|k: int, j: int|
                    0 <= k < result@.len() && 0 <= j < result@.len() && #[trigger] x(k, j) implies has_bit(
                    result@,
                    k,
                    j,
                ) by {
                    if k == 0 {
                        assert(j == 0);
                        assert(has_bit(result@, 0, 0));
                    }
                }
            }
            assert(above_solutions(self@, result@));
        }
        let mut changed = true;
        while changed
            invariant
                n == self@.blocks.len(),
                n > 0,
                self.wf(),
                above_solutions(self@, result@),
                !changed ==> is_dominator_solution(self@, result@),
            decreases
                total_ones(result@) + if changed {
                    1nat
                } else {
                    0nat
                },
        {
            let ghost start = result@;
            changed = false;
            let mut m: usize = 1;
            while m < n
                invariant
                    1 <= m,
                    m <= n || n == 1,
                    n == self@.blocks.len(),
                    n > 0,
                    self.wf(),
                    above_solutions(self@, result@),
                    !changed ==> result@ == start,
                    !changed ==> forall|k: int, j: int|
                        0 < k < m && 0 <= j < n ==> (#[trigger] has_bit(result@, k, j) <==> meets(
                            self@,
                            result@,
                            k,
                            j,
                        )),
                    total_ones(result@) <= total_ones(start),
                    changed ==> total_ones(result@) < total_ones(start),
                decreases n - m,
            {
                let t = self.meet_row(&result, m);
                let ghost before = result@;
                proof {
                    lemma_refine_row(self@, before, m as int, t);
                }
                if !same_row(&t, &result[m]) {
                    result[m] = t;
                    assert(result@ =~= before.update(m as int, t));
                    changed = true;
                } else {
                    assert(forall|j: int| 0 <= j < n ==> (has_bit(result@, m as int, j) <==> t@[j] == 1));
                }
                m = m + 1;
            }
        }
        proof {
            assert forall|k: int| 0 < k < result@.len() implies has_strict_dominator(result@, k) by {
                assert(has_bit(result@, k, 0));
            }
        }
        result
    }
}

/// The row `row` without the members of `by`, except for `s` itself.
pub open spec fn struck(row: Seq<usize>, by: Seq<usize>, s: int) -> Seq<usize> {
    Seq::new(
        row.len(),
        |t: int|
            if t != s && by[t] == 1 {
                0usize
            } else {
                row[t]
            },
    )
}

/// The strict dominators of `n` that are left once the blocks below `k`
/// have had their turn: a block that is still there on its turn takes out
/// every other block that dominates it.
pub open spec fn residual(d: Seq<Vec<usize>>, n: int, k: int) -> Seq<usize>
    decreases k,
{
    if k <= 0 {
        d[n]@.update(n, 0usize)
    } else {
        let prev = residual(d, n, k - 1);
        if prev[k - 1] == 1 {
            struck(prev, d[k - 1]@, k - 1)
        } else {
            prev
        }
    }
}

/// Whether `t` is the position of the first one in `row`.
pub open spec fn is_first_one(row: Seq<usize>, t: int) -> bool {
    &&& 0 <= t < row.len()
    &&& row[t] == 1
    &&& forall|u: int| 0 <= u < t ==> row[u] != 1
}

/// Whether `idom` lists the immediate dominators that the sets `d` give:
/// for every block but the first, the first strict dominator that is left
/// in the end; for the first block, zero.
pub open spec fn is_idom_list(d: Seq<Vec<usize>>, idom: Seq<usize>) -> bool {
    &&& idom.len() == d.len()
    &&& idom.len() > 0 ==> idom[0] == 0
    &&& forall|n: int|
        0 < n < idom.len() ==> is_first_one(residual(d, n, idom.len() as int), #[trigger] idom[n] as int)
}

/// Whether block `n` has a dominator other than itself.
pub open spec fn has_strict_dominator(d: Seq<Vec<usize>>, n: int) -> bool {
    exists|t: int| 0 <= t < d[n]@.len() && t != n && #[trigger] has_bit(d, n, t)
}

/// The rows keep their length, and a row that has a member keeps one.
pub proof fn lemma_residual_keeps_one(d: Seq<Vec<usize>>, n: int, k: int)
    requires
        is_square(d, d.len() as int),
        0 <= n < d.len(),
        0 <= k <= d.len(),
        has_strict_dominator(d, n),
    ensures
        residual(d, n, k).len() == d.len(),
        exists|t: int| 0 <= t < d.len() && #[trigger] residual(d, n, k)[t] == 1,
    decreases k,
{
    if k <= 0 {
        let t = choose|t: int| 0 <= t < d[n]@.len() && t != n && #[trigger] has_bit(d, n, t);
        assert(residual(d, n, k)[t] == 1);
    } else {
        lemma_residual_keeps_one(d, n, k - 1);
        let prev = residual(d, n, k - 1);
        if prev[k - 1] == 1 {
            assert(residual(d, n, k)[k - 1] == 1);
        } else {
            let t = choose|t: int| 0 <= t < d.len() && #[trigger] prev[t] == 1;
            assert(residual(d, n, k)[t] == 1);
        }
    }
}

/// Takes out of `row` every member of `by` except `s`.
fn strike(row: &mut Vec<usize>, by: &Vec<usize>, s: usize)
    requires
        old(row)@.len() == by@.len(),
    ensures
        final(row)@ == struck(old(row)@, by@, s as int),
{
    let n = row.len();
    let mut t: usize = 0;
    while t < n
        invariant
            t <= n,
            n == by@.len(),
            row@.len() == n,
            old(row)@.len() == n,
            forall|u: int| 0 <= u < t ==> #[trigger] row@[u] == struck(old(row)@, by@, s as int)[u],
            forall|u: int| t <= u < n ==> #[trigger] row@[u] == old(row)@[u],
        decreases n - t,
    {
        if t != s && by[t] == 1 {
            row[t] = 0;
        }
        t = t + 1;
    }
    assert(row@ =~= struck(old(row)@, by@, s as int));
}

/// A copy of `row` with entry `n` set to zero.
fn without(row: &Vec<usize>, n: usize) -> (r: Vec<usize>)
    requires
        n < row@.len(),
    ensures
        r@ == row@.update(n as int, 0usize),
{
    let mut r: Vec<usize> = Vec::new();
    let mut j: usize = 0;
    while j < row.len()
        invariant
            j <= row@.len(),
            n < row@.len(),
            r@.len() == j,
            forall|u: int| 0 <= u < j ==> #[trigger] r@[u] == row@.update(n as int, 0usize)[u],
        decreases row@.len() - j,
    {
        r.push(if j == n {
            0
        } else {
            row[j]
        });
        j = j + 1;
    }
    assert(r@ =~= row@.update(n as int, 0usize));
    r
}

/// The position of the first one in `row`.
fn first_one(row: &Vec<usize>) -> (t: usize)
    requires
        exists|u: int| 0 <= u < row@.len() && #[trigger] row@[u] == 1,
    ensures
        is_first_one(row@, t as int),
{
    let mut t: usize = 0;
    while t < row.len()
        invariant
            t <= row@.len(),
            forall|u: int| 0 <= u < t ==> row@[u] != 1,
        decreases row@.len() - t,
    {
        if row[t] == 1 {
            return t;
        }
        t = t + 1;
    }
    proof {
        let u = choose|u: int| 0 <= u < row@.len() && #[trigger] row@[u] == 1;
        assert(row@[u] != 1);
    }
    0
}

impl<CmdType> Graph<CmdType> {
    /// The immediate dominator of every block but the entry, taken from the
    /// dominator sets `dom`: the first strict dominator that is left when
    /// each remaining one has taken out its own dominators. The entry of
    /// the result for block 0 is zero and means nothing.
    pub fn idom_nodes(&self, dom: &Vec<Vec<usize>>) -> (idom: Vec<usize>)
        requires
            is_square(dom@, self@.blocks.len() as int),
            forall|n: int| 0 < n < self@.blocks.len() ==> has_strict_dominator(dom@, n),
        ensures
            is_idom_list(dom@, idom@),
    {
        let n = self.nodes.len();
        let mut idom = filled(0, n);
        let mut i: usize = 1;
        while i < n
            invariant
                1 <= i,
                n == self@.blocks.len(),
                is_square(dom@, n as int),
                forall|k: int| 0 < k < n ==> has_strict_dominator(dom@, k),
                idom@.len() == n,
                n > 0 ==> idom@[0] == 0,
                forall|k: int|
                    0 < k < i && k < n ==> is_first_one(residual(dom@, k, n as int), #[trigger] idom@[k] as int),
            decreases n - i,
        {
            let mut row = without(&dom[i], i);
            let mut s: usize = 0;
            while s < n
                invariant
                    s <= n,
                    i < n,
                    is_square(dom@, n as int),
                    row@ == residual(dom@, i as int, s as int),
                    row@.len() == n,
                decreases n - s,
            {
                if row[s] == 1 {
                    strike(&mut row, &dom[s], s);
                }
                s = s + 1;
            }
            proof {
                lemma_residual_keeps_one(dom@, i as int, n as int);
            }
            idom[i] = first_one(&row);
            i = i + 1;
        }
        idom
    }
}

} // verus!
