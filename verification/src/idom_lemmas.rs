//! The immediate dominator is unique: of the strict dominators of a block
//! that can be reached, exactly one is left, the one that all others
//! dominate.

use vstd::prelude::*;
use crate::dominance::{
    lemma_dominance_antisymmetric, lemma_dominance_transitive, lemma_dominator_reachable,
    lemma_dominators_chain, lemma_entry_dominates, reachable,
};
use crate::dominators::{
    has_bit, has_strict_dominator, is_dominator_sets, is_first_one, is_idom_list, is_square,
    lemma_residual_keeps_one, residual,
};
use crate::graph::GraphModel;

verus! {

/// Whether `r` is the closest strict dominator of `n`: a dominator of `n`
/// other than `n` that every other such dominator dominates.
pub open spec fn is_closest_dominator(d: Seq<Vec<usize>>, n: int, r: int) -> bool {
    &&& 0 <= r < d.len()
    &&& r != n
    &&& has_bit(d, n, r)
    &&& forall|t: int| 0 <= t < d.len() && t != n && #[trigger] has_bit(d, n, t) ==> has_bit(d, r, t)
}

/// Whether `s` is still there on its turn.
pub open spec fn is_active(d: Seq<Vec<usize>>, n: int, s: int) -> bool {
    residual(d, n, s)[s] == 1
}

/// What is left at some turn was there at every turn before, and is a
/// strict dominator.
pub proof fn lemma_residual_shrinks(d: Seq<Vec<usize>>, n: int, j: int, k: int, t: int)
    requires
        is_square(d, d.len() as int),
        0 <= n < d.len(),
        0 <= j <= k <= d.len(),
        0 <= t < d.len(),
        residual(d, n, k)[t] == 1,
    ensures
        residual(d, n, j).len() == d.len(),
        residual(d, n, k).len() == d.len(),
        residual(d, n, j)[t] == 1,
        t != n,
        has_bit(d, n, t),
    decreases k - j, k,
{
    lemma_residual_len(d, n, j);
    lemma_residual_len(d, n, k);
    if j < k {
        lemma_residual_len(d, n, k - 1);
        assert(residual(d, n, k - 1)[t] == 1);
        lemma_residual_shrinks(d, n, j, k - 1, t);
    } else if k > 0 {
        lemma_residual_len(d, n, k - 1);
        assert(residual(d, n, k - 1)[t] == 1);
        lemma_residual_shrinks(d, n, k - 1, k - 1, t);
    }
}

/// The rows keep their length.
pub proof fn lemma_residual_len(d: Seq<Vec<usize>>, n: int, k: int)
    requires
        is_square(d, d.len() as int),
        0 <= n < d.len(),
        0 <= k <= d.len(),
    ensures
        residual(d, n, k).len() == d.len(),
    decreases k,
{
    if k > 0 {
        lemma_residual_len(d, n, k - 1);
    }
}

/// What a block that was there on its turn dominates, other than itself,
/// is not left afterwards.
pub proof fn lemma_struck_stays_out(d: Seq<Vec<usize>>, n: int, s: int, r: int, k: int)
    requires
        is_square(d, d.len() as int),
        0 <= n < d.len(),
        0 <= s < k <= d.len(),
        0 <= r < d.len(),
        is_active(d, n, s),
        r != s,
        has_bit(d, s, r),
    ensures
        residual(d, n, k)[r] != 1,
{
    lemma_residual_len(d, n, s);
    lemma_residual_len(d, n, s + 1);
    assert(residual(d, n, s + 1)[r] != 1);
    if residual(d, n, k)[r] == 1 {
        lemma_residual_shrinks(d, n, s + 1, k, r);
    }
}

/// A strict dominator that is not left after `k` turns is dominated by
/// another block that was there on its turn, before turn `k`.
pub proof fn lemma_struck_by_active(d: Seq<Vec<usize>>, n: int, t: int, k: int) -> (s: int)
    requires
        is_square(d, d.len() as int),
        0 <= n < d.len(),
        0 <= k <= d.len(),
        0 <= t < d.len(),
        t != n,
        has_bit(d, n, t),
        residual(d, n, k)[t] != 1,
    ensures
        0 <= s < k,
        is_active(d, n, s),
        s != t,
        has_bit(d, s, t),
    decreases k,
{
    lemma_residual_len(d, n, k);
    if k == 0 {
        assert(residual(d, n, 0)[t] == d[n]@[t]);
        0
    } else {
        lemma_residual_len(d, n, k - 1);
        if residual(d, n, k - 1)[t] != 1 {
            lemma_struck_by_active(d, n, t, k - 1)
        } else {
            k - 1
        }
    }
}

/// Of the strict dominators of a block that can be reached, what is left
/// in the end is the closest one.
pub proof fn lemma_left_is_closest<C>(g: GraphModel<C>, d: Seq<Vec<usize>>, n: int, r: int)
    requires
        g.wf(),
        is_dominator_sets(g, d),
        0 < n < g.blocks.len(),
        reachable(g, n),
        0 <= r < g.blocks.len(),
        residual(d, n, g.blocks.len() as int)[r] == 1,
    ensures
        is_closest_dominator(d, n, r),
{
    let len = g.blocks.len() as int;
    lemma_residual_shrinks(d, n, 0, len, r);
    assert forall|t: int| 0 <= t < d.len() && t != n && #[trigger] has_bit(d, n, t) implies has_bit(
        d,
        r,
        t,
    ) by {
        if t == r {
            crate::dominance::lemma_dominates_itself(g, d, r);
        } else if !has_bit(d, r, t) {
            lemma_dominators_chain(g, d, n, r, t);
            assert(has_bit(d, t, r));
            if is_active(d, n, t) {
                lemma_struck_stays_out(d, n, t, r, len);
            } else {
                let s = lemma_struck_by_active(d, n, t, t);
                lemma_residual_shrinks(d, n, 0, s, s);
                lemma_dominance_transitive(g, d, r, t, s);
                lemma_struck_stays_out(d, n, s, r, len);
            }
        }
    }
}

/// A block other than the entry that can be reached has exactly one
/// immediate dominator: of its strict dominators exactly one is left in
/// the end, and that one is the closest.
pub proof fn lemma_idom_unique<C>(g: GraphModel<C>, d: Seq<Vec<usize>>, n: int) -> (r: int)
    requires
        g.wf(),
        is_dominator_sets(g, d),
        0 < n < g.blocks.len(),
        reachable(g, n),
    ensures
        is_closest_dominator(d, n, r),
        forall|t: int|
            0 <= t < g.blocks.len() ==> (#[trigger] residual(d, n, g.blocks.len() as int)[t] == 1 <==> t
                == r),
        forall|t: int| is_closest_dominator(d, n, t) ==> t == r,
        is_first_one(residual(d, n, g.blocks.len() as int), r),
{
    let len = g.blocks.len() as int;
    lemma_entry_dominates(g, d, n);
    assert(has_strict_dominator(d, n));
    lemma_residual_keeps_one(d, n, len);
    let row = residual(d, n, len);
    let r = choose|r: int| 0 <= r < d.len() && #[trigger] row[r] == 1;
    lemma_left_is_closest(g, d, n, r);
    assert forall|t: int| 0 <= t < len && #[trigger] row[t] == 1 implies t == r by {
        if t != r {
            lemma_left_is_closest(g, d, n, t);
            assert(has_bit(d, r, t));
            assert(has_bit(d, t, r));
            lemma_dominator_reachable(g, d, n, r);
            lemma_dominance_antisymmetric(g, d, r, t);
        }
    }
    assert forall|t: int| is_closest_dominator(d, n, t) implies t == r by {
        if t != r {
            assert(has_bit(d, r, t));
            assert(has_bit(d, t, r));
            lemma_dominator_reachable(g, d, n, r);
            lemma_dominance_antisymmetric(g, d, r, t);
        }
    }
    r
}

/// In a list of immediate dominators taken from the dominator sets, the
/// entry for a block that can be reached is its closest strict dominator.
pub proof fn lemma_idom_list_closest<C>(
    g: GraphModel<C>,
    d: Seq<Vec<usize>>,
    idom: Seq<usize>,
    n: int,
)
    requires
        g.wf(),
        is_dominator_sets(g, d),
        is_idom_list(d, idom),
        0 < n < g.blocks.len(),
        reachable(g, n),
    ensures
        is_closest_dominator(d, n, idom[n] as int),
{
    let r = lemma_idom_unique(g, d, n);
    assert(is_first_one(residual(d, n, g.blocks.len() as int), idom[n] as int));
    assert(idom[n] as int == r);
}

} // verus!
