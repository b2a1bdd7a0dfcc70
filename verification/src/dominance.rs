//! Dominance by paths: a block dominates another where it lies on every
//! path from the entry to it. The dominator sets say the same, and the
//! dominators of a block that can be reached form a chain.

use vstd::prelude::*;
use crate::dominators::{
    has_bit, is_consistent, is_dominator_sets, is_dominator_solution, meets, within,
};
use crate::graph::GraphModel;

verus! {

/// Whether `p` is a path of `g` that starts at the entry.
pub open spec fn is_path<C>(g: GraphModel<C>, p: Seq<int>) -> bool {
    &&& p.len() > 0
    &&& p[0] == 0
    &&& 0 < g.blocks.len()
    &&& forall|i: int| 0 < i < p.len() ==> g.is_pred(p[i - 1], #[trigger] p[i])
}

/// Whether `p` is a path from the entry to `n`.
pub open spec fn is_path_to<C>(g: GraphModel<C>, p: Seq<int>, n: int) -> bool {
    is_path(g, p) && p.last() == n
}

/// Whether `n` can be reached from the entry.
pub open spec fn reachable<C>(g: GraphModel<C>, n: int) -> bool {
    exists|p: Seq<int>| is_path_to(g, p, n)
}

/// Whether `j` lies on every path from the entry to `n`.
pub open spec fn on_every_path<C>(g: GraphModel<C>, n: int, j: int) -> bool {
    forall|p: Seq<int>| #[trigger] is_path_to(g, p, n) ==> p.contains(j)
}

/// Every block of a path is a block of the graph.
pub proof fn lemma_path_in_range<C>(g: GraphModel<C>, p: Seq<int>, i: int)
    requires
        is_path(g, p),
        g.wf(),
        0 <= i < p.len(),
    ensures
        0 <= p[i] < g.blocks.len(),
    decreases i,
{
    if i > 0 {
        lemma_path_in_range(g, p, i - 1);
        assert(g.is_pred(p[i - 1], p[i]));
        let k = choose|k: int|
            0 <= k < g.blocks[p[i - 1]].succs.len() && #[trigger] g.blocks[p[i - 1]].succs[k] == p[i];
        assert(g.blocks[p[i - 1]].succs[k] < g.blocks.len());
    }
}

/// The start of a path is a path to where it ends.
pub proof fn lemma_prefix_is_path<C>(g: GraphModel<C>, p: Seq<int>, k: int)
    requires
        is_path(g, p),
        0 <= k < p.len(),
    ensures
        is_path_to(g, p.take(k + 1), p[k]),
{
    let q = p.take(k + 1);
    assert forall|i: int| 0 < i < q.len() implies g.is_pred(q[i - 1], #[trigger] q[i]) by {
        assert(g.is_pred(p[i - 1], p[i]));
    }
}

/// A member of the set of a block lies on every path to the block.
pub proof fn lemma_dominator_on_path<C>(g: GraphModel<C>, d: Seq<Vec<usize>>, p: Seq<int>, j: int)
    requires
        g.wf(),
        is_dominator_solution(g, d),
        is_path(g, p),
        0 <= j < g.blocks.len(),
        has_bit(d, p.last(), j),
    ensures
        p.contains(j),
    decreases p.len(),
{
    let n = p.last();
    lemma_path_in_range(g, p, p.len() - 1);
    if p.len() == 1 {
        assert(p[0] == j);
    } else if j == n {
        assert(p[p.len() - 1] == j);
    } else {
        let q = p.drop_last();
        lemma_prefix_is_path(g, p, p.len() - 2);
        assert(p.take(p.len() - 1) =~= q);
        let m = q.last();
        assert(g.is_pred(p[p.len() - 2], p[p.len() - 1]));
        assert(g.is_pred(m, n));
        if n == 0 {
            assert(has_bit(d, 0, j) <==> j == 0);
        } else {
            assert(has_bit(d, n, j) <==> meets(g, d, n, j));
            assert(has_bit(d, m, j));
        }
        lemma_dominator_on_path(g, d, q, j);
        let i = choose|i: int| 0 <= i < q.len() && q[i] == j;
        assert(p[i] == j);
    }
}

/// A block that lies on every path to another is a member of its set.
pub proof fn lemma_on_every_path_dominates<C>(g: GraphModel<C>, d: Seq<Vec<usize>>, n: int, j: int)
    requires
        g.wf(),
        is_dominator_sets(g, d),
        0 <= n < g.blocks.len(),
        0 <= j < g.blocks.len(),
        on_every_path(g, n, j),
    ensures
        has_bit(d, n, j),
{
    let x = |a: int, b: int| on_every_path(g, a, b);
    assert(is_consistent(g, x)) by {
        assert forall|b: int| #[trigger] x(0, b) implies b == 0 by {
            let p = seq![0int];
            assert(is_path_to(g, p, 0));
            assert(p.contains(b));
        }
        assert forall|a: int, b: int, c: int|
            0 < a < g.blocks.len() && #[trigger] x(a, b) && b != a && #[trigger] g.is_pred(
                c,
                a,
            ) implies x(c, b) by {
            assert forall|p: Seq<int>| #[trigger] is_path_to(g, p, c) implies p.contains(b) by {
                let q = p.push(a);
                assert forall|i: int| 0 < i < q.len() implies g.is_pred(q[i - 1], #[trigger] q[i]) by {
                    if i < p.len() {
                        assert(g.is_pred(p[i - 1], p[i]));
                    }
                }
                assert(is_path_to(g, q, a));
                assert(q.contains(b));
                let i = choose|i: int| 0 <= i < q.len() && q[i] == b;
                assert(p[i] == b);
            }
        }
    }
    assert(within(d, x));
    assert(x(n, j));
}

/// Every block of the graph is a member of its own set.
pub proof fn lemma_dominates_itself<C>(g: GraphModel<C>, d: Seq<Vec<usize>>, n: int)
    requires
        is_dominator_solution(g, d),
        0 <= n < g.blocks.len(),
    ensures
        has_bit(d, n, n),
{
    if n == 0 {
        assert(has_bit(d, 0, 0) <==> 0 == 0);
    } else {
        assert(has_bit(d, n, n) <==> meets(g, d, n, n));
    }
}

/// The entry is a member of every set.
pub proof fn lemma_entry_dominates<C>(g: GraphModel<C>, d: Seq<Vec<usize>>, n: int)
    requires
        g.wf(),
        is_dominator_sets(g, d),
        0 <= n < g.blocks.len(),
    ensures
        has_bit(d, n, 0),
{
    assert forall|p: Seq<int>| #[trigger] is_path_to(g, p, n) implies p.contains(0) by {
        assert(p[0] == 0);
    }
    lemma_on_every_path_dominates(g, d, n, 0);
}

/// A dominator of a block that can be reached can be reached.
pub proof fn lemma_dominator_reachable<C>(g: GraphModel<C>, d: Seq<Vec<usize>>, n: int, j: int)
    requires
        g.wf(),
        is_dominator_solution(g, d),
        reachable(g, n),
        0 <= j < g.blocks.len(),
        has_bit(d, n, j),
    ensures
        reachable(g, j),
{
    let p = choose|p: Seq<int>| is_path_to(g, p, n);
    lemma_dominator_on_path(g, d, p, j);
    let i = choose|i: int| 0 <= i < p.len() && p[i] == j;
    lemma_prefix_is_path(g, p, i);
}

/// Dominance is transitive.
pub proof fn lemma_dominance_transitive<C>(
    g: GraphModel<C>,
    d: Seq<Vec<usize>>,
    a: int,
    b: int,
    c: int,
)
    requires
        g.wf(),
        is_dominator_sets(g, d),
        0 <= a < g.blocks.len(),
        0 <= b < g.blocks.len(),
        0 <= c < g.blocks.len(),
        has_bit(d, b, a),
        has_bit(d, c, b),
    ensures
        has_bit(d, c, a),
{
    assert forall|p: Seq<int>| #[trigger] is_path_to(g, p, c) implies p.contains(a) by {
        lemma_dominator_on_path(g, d, p, b);
        let i = choose|i: int| 0 <= i < p.len() && p[i] == b;
        lemma_prefix_is_path(g, p, i);
        let q = p.take(i + 1);
        lemma_dominator_on_path(g, d, q, a);
        let k = choose|k: int| 0 <= k < q.len() && q[k] == a;
        assert(p[k] == a);
    }
    lemma_on_every_path_dominates(g, d, c, a);
}

/// Where a path leads to one of two different blocks, they do not dominate
/// each other.
pub proof fn lemma_no_path_to_mutual<C>(
    g: GraphModel<C>,
    d: Seq<Vec<usize>>,
    a: int,
    b: int,
    p: Seq<int>,
)
    requires
        g.wf(),
        is_dominator_solution(g, d),
        0 <= a < g.blocks.len(),
        0 <= b < g.blocks.len(),
        a != b,
        has_bit(d, b, a),
        is_path(g, p),
        p.last() == a || p.last() == b,
    ensures
        !has_bit(d, a, b),
    decreases p.len(),
{
    if has_bit(d, a, b) {
        let other = if p.last() == a {
            b
        } else {
            a
        };
        lemma_dominator_on_path(g, d, p, other);
        let i = choose|i: int| 0 <= i < p.len() && p[i] == other;
        lemma_prefix_is_path(g, p, i);
        lemma_no_path_to_mutual(g, d, a, b, p.take(i + 1));
    }
}

/// Two different blocks of which one can be reached do not dominate each
/// other.
pub proof fn lemma_dominance_antisymmetric<C>(g: GraphModel<C>, d: Seq<Vec<usize>>, a: int, b: int)
    requires
        g.wf(),
        is_dominator_solution(g, d),
        0 <= a < g.blocks.len(),
        0 <= b < g.blocks.len(),
        a != b,
        reachable(g, a),
        has_bit(d, b, a),
    ensures
        !has_bit(d, a, b),
{
    if has_bit(d, a, b) {
        let p = choose|p: Seq<int>| is_path_to(g, p, a);
        lemma_no_path_to_mutual(g, d, a, b, p);
    }
}

/// A block that occurs in a sequence occurs in it for a last time.
pub proof fn lemma_last_occurrence(p: Seq<int>, a: int) -> (i: int)
    requires
        p.contains(a),
    ensures
        0 <= i < p.len(),
        p[i] == a,
        forall|k: int| i < k < p.len() ==> p[k] != a,
    decreases p.len(),
{
    if p.last() == a {
        p.len() - 1
    } else {
        let q = p.drop_last();
        let w = choose|w: int| 0 <= w < p.len() && p[w] == a;
        assert(q[w] == a);
        let i = lemma_last_occurrence(q, a);
        assert forall|k: int| i < k < p.len() implies p[k] != a by {
            if k < q.len() {
                assert(q[k] == p[k]);
            }
        }
        i
    }
}

/// A path to a block of another path, followed by what comes after that
/// block there, is a path to where the other path ends.
pub proof fn lemma_splice<C>(g: GraphModel<C>, q: Seq<int>, p: Seq<int>, k: int)
    requires
        is_path(g, q),
        is_path(g, p),
        0 <= k < p.len(),
        q.last() == p[k],
    ensures
        is_path_to(g, q + p.subrange(k + 1, p.len() as int), p.last()),
{
    let tail = p.subrange(k + 1, p.len() as int);
    let r = q + tail;
    assert forall|i: int| 0 < i < r.len() implies g.is_pred(r[i - 1], #[trigger] r[i]) by {
        if i < q.len() {
            assert(g.is_pred(q[i - 1], q[i]));
        } else if i == q.len() {
            assert(r[i] == p[k + 1]);
            assert(g.is_pred(p[k], p[k + 1]));
        } else {
            let m = i - q.len() + k + 1;
            assert(r[i] == p[m]);
            assert(r[i - 1] == p[m - 1]);
            assert(g.is_pred(p[m - 1], p[m]));
        }
    }
    if tail.len() == 0 {
        assert(r =~= q);
    } else {
        assert(r.last() == tail.last());
    }
}

/// Of two dominators of a block that can be reached, one dominates the
/// other.
pub proof fn lemma_dominators_chain<C>(g: GraphModel<C>, d: Seq<Vec<usize>>, n: int, a: int, b: int)
    requires
        g.wf(),
        is_dominator_sets(g, d),
        0 <= n < g.blocks.len(),
        0 <= a < g.blocks.len(),
        0 <= b < g.blocks.len(),
        reachable(g, n),
        has_bit(d, n, a),
        has_bit(d, n, b),
    ensures
        has_bit(d, b, a) || has_bit(d, a, b),
{
    if a == b {
        lemma_dominates_itself(g, d, a);
    } else if !has_bit(d, b, a) && !has_bit(d, a, b) {
        let p = choose|p: Seq<int>| is_path_to(g, p, n);
        lemma_dominator_on_path(g, d, p, a);
        lemma_dominator_on_path(g, d, p, b);
        let ia = lemma_last_occurrence(p, a);
        let ib = lemma_last_occurrence(p, b);
        if !on_every_path(g, b, a) {
            if !on_every_path(g, a, b) {
                let qb = choose|q: Seq<int>| #[trigger] is_path_to(g, q, b) && !q.contains(a);
                let qa = choose|q: Seq<int>| #[trigger] is_path_to(g, q, a) && !q.contains(b);
                if ia < ib {
                    lemma_avoiding_path(g, d, p, qb, ib, a);
                } else {
                    lemma_avoiding_path(g, d, p, qa, ia, b);
                }
            } else {
                lemma_on_every_path_dominates(g, d, a, b);
            }
        } else {
            lemma_on_every_path_dominates(g, d, b, a);
        }
    }
}

/// A path that avoids a block and leads to a block of another path, after
/// which that path avoids the block too, shows that the block does not
/// dominate the end of the other path.
pub proof fn lemma_avoiding_path<C>(
    g: GraphModel<C>,
    d: Seq<Vec<usize>>,
    p: Seq<int>,
    q: Seq<int>,
    k: int,
    a: int,
)
    requires
        g.wf(),
        is_dominator_solution(g, d),
        is_path(g, p),
        is_path(g, q),
        0 <= k < p.len(),
        q.last() == p[k],
        !q.contains(a),
        forall|i: int| k < i < p.len() ==> p[i] != a,
        0 <= a < g.blocks.len(),
    ensures
        !has_bit(d, p.last(), a),
{
    if has_bit(d, p.last(), a) {
        lemma_splice(g, q, p, k);
        let tail = p.subrange(k + 1, p.len() as int);
        let r = q + tail;
        lemma_dominator_on_path(g, d, r, a);
        let i = choose|i: int| 0 <= i < r.len() && r[i] == a;
        if i < q.len() {
            assert(q[i] == a);
        } else {
            assert(r[i] == p[i - q.len() + k + 1]);
        }
    }
}

} // verus!
