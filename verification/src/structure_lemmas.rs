//! What the folded statements are made of: the statements of the blocks
//! that the walk passes, in the order in which it passes them.

use vstd::prelude::*;
use crate::dominance::{is_path_to, reachable};
use crate::dominators::{has_bit, is_consistent, is_dominator_sets, is_square, within};
use crate::graph::GraphModel;
use crate::structure::{
    branch, chained, has_single_pred, is_header_flags, recovered, stops, structured, with_if,
    with_while, Stop, StructureError,
};
use crate::untyped_ir::{irs_view, Ir, UnTypedIR};

verus! {

/// The plain statements and expressions of `ir` in order: a conditional or
/// a loop gives those of its condition, of its arms or body, and of what
/// follows it.
pub open spec fn leaves(ir: Ir) -> Seq<Ir>
    decreases ir, 0nat,
{
    match ir {
        Ir::If(c, t, f, k) => leaves(*c) + leaves_first(t, t.len()) + leaves_first(f, f.len())
            + leaves_first(k, k.len()),
        Ir::While(c, b, k) => leaves(*c) + leaves_first(b, b.len()) + leaves_first(k, k.len()),
        _ => seq![ir],
    }
}

/// The plain statements and expressions of the first `k` of `l`.
pub open spec fn leaves_first(l: Seq<Ir>, k: nat) -> Seq<Ir>
    decreases l, k,
{
    if k == 0 || k > l.len() {
        Seq::empty()
    } else {
        leaves_first(l, (k - 1) as nat) + leaves(l[k - 1])
    }
}

/// The plain statements and expressions of all of `l`.
pub open spec fn leaves_all(l: Seq<Ir>) -> Seq<Ir> {
    leaves_first(l, l.len())
}

/// The plain statements and expressions of the blocks `blocks` of `g`, one
/// block after another.
pub open spec fn block_leaves(g: GraphModel<UnTypedIR>, blocks: Seq<usize>) -> Seq<Ir>
    decreases blocks.len(),
{
    if blocks.len() == 0 {
        Seq::empty()
    } else {
        block_leaves(g, blocks.drop_last()) + leaves_all(
            irs_view(g.blocks[blocks.last() as int].commands),
        )
    }
}

/// The blocks whose statements the walk from `n` takes up, in order, where
/// the walk succeeds.
pub open spec fn visited(
    g: GraphModel<UnTypedIR>,
    d: Seq<Vec<usize>>,
    lhs: Seq<usize>,
    n: usize,
    stop: Stop,
    fuel: nat,
) -> Seq<usize>
    decreases fuel, 0nat, 0nat,
{
    let succs = g.blocks[n as int].succs;
    if stops(d, stop, n) || fuel == 0 {
        Seq::empty()
    } else if succs.len() == 0 {
        seq![n]
    } else if lhs[n as int] == 1 || succs.len() == 2 {
        let t = branch(g, n, true)->Some_0;
        let f = branch(g, n, false)->Some_0;
        let rest = (fuel - 1) as nat;
        if lhs[n as int] == 1 {
            seq![n] + visited(g, d, lhs, f, Stop::At(n), rest) + visited(g, d, lhs, t, stop, rest)
        } else if has_single_pred(g, f as int) {
            seq![n] + visited(g, d, lhs, t, Stop::Outside(t), rest) + visited(
                g,
                d,
                lhs,
                f,
                Stop::Outside(f),
                rest,
            ) + match structured(g, d, lhs, f, Stop::Outside(f), rest) {
                Ok(other) => match other.next {
                    Some(c) => visited(g, d, lhs, c, stop, rest),
                    None => Seq::empty(),
                },
                Err(_) => Seq::empty(),
            }
        } else {
            seq![n] + visited(g, d, lhs, t, Stop::Outside(t), rest) + visited(g, d, lhs, f, stop, rest)
        }
    } else {
        seq![n] + visited_chain(g, d, lhs, succs, stop, (fuel - 1) as nat)
    }
}

/// The blocks whose statements the walks from each of `succs` take up.
pub open spec fn visited_chain(
    g: GraphModel<UnTypedIR>,
    d: Seq<Vec<usize>>,
    lhs: Seq<usize>,
    succs: Seq<usize>,
    stop: Stop,
    fuel: nat,
) -> Seq<usize>
    decreases fuel, 1nat, succs.len(),
{
    if succs.len() == 0 {
        Seq::empty()
    } else {
        visited_chain(g, d, lhs, succs.drop_last(), stop, fuel) + visited(
            g,
            d,
            lhs,
            succs.last(),
            stop,
            fuel,
        )
    }
}

/// Lists that agree on their first `k` entries have the same leaves there.
pub proof fn lemma_leaves_prefix(a: Seq<Ir>, b: Seq<Ir>, k: nat)
    requires
        k <= a.len(),
        k <= b.len(),
        forall|i: int| 0 <= i < k ==> a[i] == b[i],
    ensures
        leaves_first(a, k) == leaves_first(b, k),
    decreases k,
{
    if k > 0 {
        lemma_leaves_prefix(a, b, (k - 1) as nat);
    }
}

/// The leaves of a list with one more entry.
pub proof fn lemma_leaves_push(l: Seq<Ir>, x: Ir)
    ensures
        leaves_all(l.push(x)) == leaves_all(l) + leaves(x),
{
    lemma_leaves_prefix(l.push(x), l, l.len());
}

/// The leaves of two lists, one after the other.
pub proof fn lemma_leaves_concat(a: Seq<Ir>, b: Seq<Ir>)
    ensures
        leaves_all(a + b) == leaves_all(a) + leaves_all(b),
    decreases b.len(),
{
    if b.len() == 0 {
        assert(a + b =~= a);
        assert(leaves_all(a) + leaves_all(b) =~= leaves_all(a));
    } else {
        let b0 = b.drop_last();
        assert(a + b =~= (a + b0).push(b.last()));
        lemma_leaves_push(a + b0, b.last());
        lemma_leaves_concat(a, b0);
        assert(b =~= b0.push(b.last()));
        lemma_leaves_push(b0, b.last());
        assert(leaves_all(a + b) =~= leaves_all(a) + leaves_all(b));
    }
}

/// The leaves of the blocks of two lists, one after the other.
pub proof fn lemma_block_leaves_concat(g: GraphModel<UnTypedIR>, a: Seq<usize>, b: Seq<usize>)
    ensures
        block_leaves(g, a + b) == block_leaves(g, a) + block_leaves(g, b),
    decreases b.len(),
{
    if b.len() == 0 {
        assert(a + b =~= a);
        assert(block_leaves(g, a) + block_leaves(g, b) =~= block_leaves(g, a));
    } else {
        let b0 = b.drop_last();
        assert((a + b).drop_last() =~= a + b0);
        lemma_block_leaves_concat(g, a, b0);
        assert(block_leaves(g, a + b) =~= block_leaves(g, a) + block_leaves(g, b));
    }
}

/// The leaves of one block.
pub proof fn lemma_block_leaves_one(g: GraphModel<UnTypedIR>, n: usize)
    ensures
        block_leaves(g, seq![n]) == leaves_all(irs_view(g.blocks[n as int].commands)),
{
    let s = seq![n];
    assert(s.drop_last() =~= Seq::<usize>::empty());
    assert(block_leaves(g, s.drop_last()) =~= Seq::<Ir>::empty());
    assert(block_leaves(g, s) =~= leaves_all(irs_view(g.blocks[n as int].commands)));
}

/// The leaves of statements whose last one, the condition, has become a
/// loop.
pub proof fn lemma_with_while_leaves(out: Seq<Ir>, body: Seq<Ir>, cont: Seq<Ir>)
    requires
        out.len() > 0,
    ensures
        leaves_all(with_while(out, body, cont)) == leaves_all(out) + leaves_all(body) + leaves_all(
            cont,
        ),
{
    let node = Ir::While(Box::new(out.last()), body, cont);
    lemma_leaves_push(out.drop_last(), node);
    assert(out =~= out.drop_last().push(out.last()));
    lemma_leaves_push(out.drop_last(), out.last());
    assert(leaves(node) == leaves(out.last()) + leaves_all(body) + leaves_all(cont));
    assert(leaves_all(with_while(out, body, cont)) =~= leaves_all(out) + leaves_all(body)
        + leaves_all(cont));
}

/// The leaves of statements whose last one, the condition, has become a
/// conditional.
pub proof fn lemma_with_if_leaves(out: Seq<Ir>, then: Seq<Ir>, other: Seq<Ir>, cont: Seq<Ir>)
    requires
        out.len() > 0,
    ensures
        leaves_all(with_if(out, then, other, cont)) == leaves_all(out) + leaves_all(then)
            + leaves_all(other) + leaves_all(cont),
{
    let node = Ir::If(Box::new(out.last()), then, other, cont);
    lemma_leaves_push(out.drop_last(), node);
    assert(out =~= out.drop_last().push(out.last()));
    lemma_leaves_push(out.drop_last(), out.last());
    assert(leaves(node) == leaves(out.last()) + leaves_all(then) + leaves_all(other) + leaves_all(
        cont,
    ));
    assert(leaves_all(with_if(out, then, other, cont)) =~= leaves_all(out) + leaves_all(then)
        + leaves_all(other) + leaves_all(cont));
}

/// The folded statements of a walk are made of the statements of the
/// blocks that it passes, in the order in which it passes them: nothing is
/// added but the conditionals and loops themselves, and the statements of
/// a block stand in the result as often as the walk passes the block.
pub proof fn lemma_walk_leaves(
    g: GraphModel<UnTypedIR>,
    d: Seq<Vec<usize>>,
    lhs: Seq<usize>,
    n: usize,
    stop: Stop,
    fuel: nat,
)
    requires
        structured(g, d, lhs, n, stop, fuel) is Ok,
    ensures
        leaves_all(structured(g, d, lhs, n, stop, fuel)->Ok_0.stmts) == block_leaves(
            g,
            visited(g, d, lhs, n, stop, fuel),
        ),
    decreases fuel, 0nat, 0nat,
{
    let out = irs_view(g.blocks[n as int].commands);
    let succs = g.blocks[n as int].succs;
    let w = structured(g, d, lhs, n, stop, fuel)->Ok_0;
    let none = Seq::<usize>::empty();
    assert(block_leaves(g, none) =~= Seq::<Ir>::empty());
    assert(leaves_all(Seq::<Ir>::empty()) =~= Seq::<Ir>::empty());
    if stops(d, stop, n) {
    } else if succs.len() == 0 {
        lemma_block_leaves_one(g, n);
    } else if lhs[n as int] == 1 || succs.len() == 2 {
        let t = branch(g, n, true)->Some_0;
        let f = branch(g, n, false)->Some_0;
        let rest = (fuel - 1) as nat;
        lemma_block_leaves_one(g, n);
        if lhs[n as int] == 1 {
            let body = structured(g, d, lhs, f, Stop::At(n), rest)->Ok_0;
            let cont = structured(g, d, lhs, t, stop, rest)->Ok_0;
            let vb = visited(g, d, lhs, f, Stop::At(n), rest);
            let vc = visited(g, d, lhs, t, stop, rest);
            lemma_walk_leaves(g, d, lhs, f, Stop::At(n), rest);
            lemma_walk_leaves(g, d, lhs, t, stop, rest);
            lemma_with_while_leaves(out, body.stmts, cont.stmts);
            lemma_block_leaves_concat(g, seq![n], vb);
            lemma_block_leaves_concat(g, seq![n] + vb, vc);
        } else {
            let then = structured(g, d, lhs, t, Stop::Outside(t), rest)->Ok_0;
            let vt = visited(g, d, lhs, t, Stop::Outside(t), rest);
            lemma_walk_leaves(g, d, lhs, t, Stop::Outside(t), rest);
            lemma_block_leaves_concat(g, seq![n], vt);
            if has_single_pred(g, f as int) {
                let other = structured(g, d, lhs, f, Stop::Outside(f), rest)->Ok_0;
                let vo = visited(g, d, lhs, f, Stop::Outside(f), rest);
                lemma_walk_leaves(g, d, lhs, f, Stop::Outside(f), rest);
                lemma_block_leaves_concat(g, seq![n] + vt, vo);
                match other.next {
                    Some(c) => {
                        let cont = structured(g, d, lhs, c, stop, rest)->Ok_0;
                        let vc = visited(g, d, lhs, c, stop, rest);
                        lemma_walk_leaves(g, d, lhs, c, stop, rest);
                        lemma_with_if_leaves(out, then.stmts, other.stmts, cont.stmts);
                        lemma_block_leaves_concat(g, seq![n] + vt + vo, vc);
                    },
                    None => {
                        lemma_with_if_leaves(out, then.stmts, other.stmts, Seq::empty());
                        lemma_block_leaves_concat(g, seq![n] + vt + vo, none);
                        assert(w.stmts == with_if(out, then.stmts, other.stmts, Seq::empty()));
                        assert(leaves_all(w.stmts) =~= leaves_all(out) + leaves_all(then.stmts)
                            + leaves_all(other.stmts));
                    },
                }
            } else {
                let cont = structured(g, d, lhs, f, stop, rest)->Ok_0;
                let vc = visited(g, d, lhs, f, stop, rest);
                lemma_walk_leaves(g, d, lhs, f, stop, rest);
                lemma_with_if_leaves(out, then.stmts, Seq::empty(), cont.stmts);
                lemma_block_leaves_concat(g, seq![n] + vt, vc);
                assert(leaves_all(w.stmts) =~= leaves_all(out) + leaves_all(then.stmts) + leaves_all(
                    cont.stmts,
                ));
            }
        }
    } else {
        let rest = (fuel - 1) as nat;
        let c = chained(g, d, lhs, succs, stop, rest)->Ok_0;
        lemma_chain_leaves(g, d, lhs, succs, stop, rest);
        lemma_leaves_concat(out, c.stmts);
        lemma_block_leaves_one(g, n);
        lemma_block_leaves_concat(g, seq![n], visited_chain(g, d, lhs, succs, stop, rest));
    }
}

/// The same for the walks from each of `succs` in turn.
pub proof fn lemma_chain_leaves(
    g: GraphModel<UnTypedIR>,
    d: Seq<Vec<usize>>,
    lhs: Seq<usize>,
    succs: Seq<usize>,
    stop: Stop,
    fuel: nat,
)
    requires
        chained(g, d, lhs, succs, stop, fuel) is Ok,
    ensures
        leaves_all(chained(g, d, lhs, succs, stop, fuel)->Ok_0.stmts) == block_leaves(
            g,
            visited_chain(g, d, lhs, succs, stop, fuel),
        ),
    decreases fuel, 1nat, succs.len(),
{
    if succs.len() == 0 {
        assert(block_leaves(g, Seq::<usize>::empty()) =~= Seq::<Ir>::empty());
        assert(leaves_all(Seq::<Ir>::empty()) =~= Seq::<Ir>::empty());
    } else {
        let before = chained(g, d, lhs, succs.drop_last(), stop, fuel)->Ok_0;
        let w = structured(g, d, lhs, succs.last(), stop, fuel)->Ok_0;
        lemma_chain_leaves(g, d, lhs, succs.drop_last(), stop, fuel);
        lemma_walk_leaves(g, d, lhs, succs.last(), stop, fuel);
        lemma_leaves_concat(before.stmts, w.stmts);
        lemma_block_leaves_concat(
            g,
            visited_chain(g, d, lhs, succs.drop_last(), stop, fuel),
            visited(g, d, lhs, succs.last(), stop, fuel),
        );
    }
}

/// Whether the sets `a` and `b` have the same entries.
pub open spec fn same_sets(a: Seq<Vec<usize>>, b: Seq<Vec<usize>>) -> bool {
    &&& a.len() == b.len()
    &&& forall|i: int| 0 <= i < a.len() ==> (#[trigger] a[i])@ == b[i]@
}

/// A graph has one family of dominator sets.
pub proof fn lemma_dominator_sets_unique<C>(g: GraphModel<C>, a: Seq<Vec<usize>>, b: Seq<Vec<usize>>)
    requires
        is_dominator_sets(g, a),
        is_dominator_sets(g, b),
    ensures
        same_sets(a, b),
{
    let n = g.blocks.len() as int;
    lemma_solution_within(g, a, b);
    lemma_solution_within(g, b, a);
    assert forall|i: int| 0 <= i < a.len() implies (#[trigger] a[i])@ == b[i]@ by {
        assert forall|j: int| 0 <= j < n implies a[i]@[j] == b[i]@[j] by {
            assert(a[i]@[j] == 0 || a[i]@[j] == 1);
            assert(b[i]@[j] == 0 || b[i]@[j] == 1);
            assert(has_bit(a, i, j) ==> has_bit(b, i, j));
            assert(has_bit(b, i, j) ==> has_bit(a, i, j));
        }
        assert(a[i]@ =~= b[i]@);
    }
}

/// A solution of the dominator equations lies within the dominator sets.
pub proof fn lemma_solution_within<C>(g: GraphModel<C>, a: Seq<Vec<usize>>, b: Seq<Vec<usize>>)
    requires
        is_dominator_sets(g, a),
        is_dominator_sets(g, b),
    ensures
        forall|i: int, j: int|
            0 <= i < g.blocks.len() && 0 <= j < g.blocks.len() && #[trigger] has_bit(a, i, j)
                ==> has_bit(b, i, j),
{
    let n = g.blocks.len() as int;
    let x = |i: int, j: int| 0 <= i < n && 0 <= j < n && has_bit(a, i, j);
    assert(is_consistent(g, x)) by {
        assert forall|j: int| #[trigger] x(0, j) implies j == 0 by {
            assert(has_bit(a, 0, j) <==> j == 0);
        }
        assert forall|i: int, j: int, p: int|
            0 < i < g.blocks.len() && #[trigger] x(i, j) && j != i && #[trigger] g.is_pred(
                p,
                i,
            ) implies x(p, j) by {
            assert(has_bit(a, i, j) <==> crate::dominators::meets(g, a, i, j));
            assert(has_bit(a, p, j));
        }
    }
    assert(within(b, x));
    assert forall|i: int, j: int|
        0 <= i < g.blocks.len() && 0 <= j < g.blocks.len() && #[trigger] has_bit(a, i, j) implies has_bit(
        b,
        i,
        j,
    ) by {
        assert(x(i, j));
    }
}

/// The walk depends on the dominator sets by their entries alone.
pub proof fn lemma_walk_same_sets(
    g: GraphModel<UnTypedIR>,
    a: Seq<Vec<usize>>,
    b: Seq<Vec<usize>>,
    lhs: Seq<usize>,
    n: usize,
    stop: Stop,
    fuel: nat,
)
    requires
        same_sets(a, b),
        g.wf(),
        n < g.blocks.len() == a.len(),
    ensures
        structured(g, a, lhs, n, stop, fuel) == structured(g, b, lhs, n, stop, fuel),
    decreases fuel, 0nat, 0nat,
{
    let succs = g.blocks[n as int].succs;
    assert(a[n as int]@ == b[n as int]@);
    assert(stops(a, stop, n) == stops(b, stop, n));
    if stops(a, stop, n) || fuel == 0 || succs.len() == 0 {
    } else if lhs[n as int] == 1 || succs.len() == 2 {
        let rest = (fuel - 1) as nat;
        if branch(g, n, true) is Some && branch(g, n, false) is Some {
            let t = branch(g, n, true)->Some_0;
            let f = branch(g, n, false)->Some_0;
            lemma_branch_in_range(g, n, true);
            lemma_branch_in_range(g, n, false);
            lemma_walk_same_sets(g, a, b, lhs, f, Stop::At(n), rest);
            lemma_walk_same_sets(g, a, b, lhs, t, stop, rest);
            lemma_walk_same_sets(g, a, b, lhs, t, Stop::Outside(t), rest);
            lemma_walk_same_sets(g, a, b, lhs, f, Stop::Outside(f), rest);
            lemma_walk_same_sets(g, a, b, lhs, f, stop, rest);
            match structured(g, a, lhs, f, Stop::Outside(f), rest) {
                Ok(other) => match other.next {
                    Some(c) => {
                        lemma_walk_next_in_range(g, a, lhs, f, Stop::Outside(f), rest);
                        lemma_walk_same_sets(g, a, b, lhs, c, stop, rest);
                    },
                    None => {},
                },
                Err(_) => {},
            }
        }
    } else {
        lemma_chain_same_sets(g, a, b, lhs, succs, stop, (fuel - 1) as nat);
    }
}

/// The same for the walks from each of `succs` in turn.
pub proof fn lemma_chain_same_sets(
    g: GraphModel<UnTypedIR>,
    a: Seq<Vec<usize>>,
    b: Seq<Vec<usize>>,
    lhs: Seq<usize>,
    succs: Seq<usize>,
    stop: Stop,
    fuel: nat,
)
    requires
        same_sets(a, b),
        g.wf(),
        g.blocks.len() == a.len(),
        forall|i: int| 0 <= i < succs.len() ==> #[trigger] succs[i] < g.blocks.len(),
    ensures
        chained(g, a, lhs, succs, stop, fuel) == chained(g, b, lhs, succs, stop, fuel),
    decreases fuel, 1nat, succs.len(),
{
    if succs.len() > 0 {
        assert forall|i: int| 0 <= i < succs.drop_last().len() implies #[trigger] succs.drop_last()[i]
            < g.blocks.len() by {
            assert(succs.drop_last()[i] == succs[i]);
        }
        lemma_chain_same_sets(g, a, b, lhs, succs.drop_last(), stop, fuel);
        assert(succs[succs.len() - 1] < g.blocks.len());
        lemma_walk_same_sets(g, a, b, lhs, succs.last(), stop, fuel);
    }
}

/// The one successor that `branch` picks is a block of the graph.
pub proof fn lemma_branch_in_range<C>(g: GraphModel<C>, n: usize, taken: bool)
    requires
        g.wf(),
        n < g.blocks.len(),
        branch(g, n, taken) is Some,
    ensures
        branch(g, n, taken)->Some_0 < g.blocks.len(),
{
    lemma_branches_in_range(g, n, taken, g.blocks[n as int].succs.len() as int);
}

/// The successors that `branches` collects are blocks of the graph.
pub proof fn lemma_branches_in_range<C>(g: GraphModel<C>, n: usize, taken: bool, k: int)
    requires
        g.wf(),
        n < g.blocks.len(),
        0 <= k <= g.blocks[n as int].succs.len(),
    ensures
        forall|i: int|
            0 <= i < crate::structure::branches(g, n, taken, k).len() ==> (
            #[trigger] crate::structure::branches(g, n, taken, k)[i]) < g.blocks.len(),
    decreases k,
{
    if k > 0 {
        lemma_branches_in_range(g, n, taken, k - 1);
        assert(g.blocks[n as int].succs[k - 1] < g.blocks.len());
        let now = crate::structure::branches(g, n, taken, k);
        let rest = crate::structure::branches(g, n, taken, k - 1);
        assert forall|i: int| 0 <= i < now.len() implies (#[trigger] now[i]) < g.blocks.len() by {
            if i < rest.len() {
                assert(now[i] == rest[i]);
            }
        }
    }
}

/// The block at which a walk stops is a block of the graph.
pub proof fn lemma_walk_next_in_range(
    g: GraphModel<UnTypedIR>,
    d: Seq<Vec<usize>>,
    lhs: Seq<usize>,
    n: usize,
    stop: Stop,
    fuel: nat,
)
    requires
        g.wf(),
        n < g.blocks.len(),
        structured(g, d, lhs, n, stop, fuel) is Ok,
        structured(g, d, lhs, n, stop, fuel)->Ok_0.next is Some,
    ensures
        structured(g, d, lhs, n, stop, fuel)->Ok_0.next->Some_0 < g.blocks.len(),
    decreases fuel, 0nat, 0nat,
{
    let succs = g.blocks[n as int].succs;
    if stops(d, stop, n) || fuel == 0 || succs.len() == 0 {
    } else if lhs[n as int] == 1 || succs.len() == 2 {
        let rest = (fuel - 1) as nat;
        let t = branch(g, n, true)->Some_0;
        let f = branch(g, n, false)->Some_0;
        lemma_branch_in_range(g, n, true);
        lemma_branch_in_range(g, n, false);
        if lhs[n as int] != 1 {
            if has_single_pred(g, f as int) {
                let other = structured(g, d, lhs, f, Stop::Outside(f), rest)->Ok_0;
                lemma_walk_next_in_range(g, d, lhs, f, Stop::Outside(f), rest);
                lemma_walk_next_in_range(g, d, lhs, other.next->Some_0, stop, rest);
            } else {
                lemma_walk_next_in_range(g, d, lhs, f, stop, rest);
            }
        }
    } else {
        lemma_chain_next_in_range(g, d, lhs, succs, stop, (fuel - 1) as nat);
    }
}

/// The same for the walks from each of `succs` in turn.
pub proof fn lemma_chain_next_in_range(
    g: GraphModel<UnTypedIR>,
    d: Seq<Vec<usize>>,
    lhs: Seq<usize>,
    succs: Seq<usize>,
    stop: Stop,
    fuel: nat,
)
    requires
        g.wf(),
        forall|i: int| 0 <= i < succs.len() ==> #[trigger] succs[i] < g.blocks.len(),
        chained(g, d, lhs, succs, stop, fuel) is Ok,
        chained(g, d, lhs, succs, stop, fuel)->Ok_0.next is Some,
    ensures
        chained(g, d, lhs, succs, stop, fuel)->Ok_0.next->Some_0 < g.blocks.len(),
    decreases fuel, 1nat, succs.len(),
{
    if succs.len() > 0 {
        assert(succs[succs.len() - 1] < g.blocks.len());
        lemma_walk_next_in_range(g, d, lhs, succs.last(), stop, fuel);
    }
}

/// Folding a graph has one result.
pub proof fn lemma_recovered_unique(
    g: GraphModel<UnTypedIR>,
    r1: Result<Seq<Ir>, StructureError>,
    r2: Result<Seq<Ir>, StructureError>,
)
    requires
        g.wf(),
        0 < g.blocks.len(),
        recovered(g, r1),
        recovered(g, r2),
    ensures
        r1 == r2,
{
    let (d1, l1) = choose|d: Seq<Vec<usize>>, lhs: Seq<usize>|
        {
            &&& is_dominator_sets(g, d)
            &&& #[trigger] is_header_flags(g, d, lhs)
            &&& r1 == match structured(g, d, lhs, 0, Stop::Never, g.blocks.len()) {
                Ok(w) => Ok::<Seq<Ir>, StructureError>(w.stmts),
                Err(e) => Err::<Seq<Ir>, StructureError>(e),
            }
        };
    let (d2, l2) = choose|d: Seq<Vec<usize>>, lhs: Seq<usize>|
        {
            &&& is_dominator_sets(g, d)
            &&& #[trigger] is_header_flags(g, d, lhs)
            &&& r2 == match structured(g, d, lhs, 0, Stop::Never, g.blocks.len()) {
                Ok(w) => Ok::<Seq<Ir>, StructureError>(w.stmts),
                Err(e) => Err::<Seq<Ir>, StructureError>(e),
            }
        };
    lemma_dominator_sets_unique(g, d1, d2);
    assert(l1 =~= l2) by {
        assert forall|h: int| 0 <= h < l1.len() implies l1[h] == l2[h] by {
            lemma_same_headers(g, d1, d2, h);
        }
    }
    lemma_walk_same_sets(g, d1, d2, l1, 0, Stop::Never, g.blocks.len());
}

/// Loop headers depend on the dominator sets by their entries alone.
pub proof fn lemma_same_headers<C>(g: GraphModel<C>, a: Seq<Vec<usize>>, b: Seq<Vec<usize>>, h: int)
    requires
        same_sets(a, b),
        a.len() == g.blocks.len(),
    ensures
        crate::dominators::is_loop_header(g, a, h) == crate::dominators::is_loop_header(g, b, h),
{
    if crate::dominators::is_loop_header(g, a, h) {
        let u = choose|u: int| #[trigger] g.is_pred(u, h) && has_bit(a, u, h);
        assert(a[u]@ == b[u]@);
        assert(g.is_pred(u, h) && has_bit(b, u, h));
    }
    if crate::dominators::is_loop_header(g, b, h) {
        let u = choose|u: int| #[trigger] g.is_pred(u, h) && has_bit(b, u, h);
        assert(a[u]@ == b[u]@);
        assert(g.is_pred(u, h) && has_bit(a, u, h));
    }
}

/// A successor of a block that can be reached can be reached.
pub proof fn lemma_successor_reachable<C>(g: GraphModel<C>, n: int, s: int)
    requires
        reachable(g, n),
        g.is_pred(n, s),
    ensures
        reachable(g, s),
{
    let p = choose|p: Seq<int>| is_path_to(g, p, n);
    let q = p.push(s);
    assert forall|i: int| 0 < i < q.len() implies g.is_pred(q[i - 1], #[trigger] q[i]) by {
        if i < p.len() {
            assert(g.is_pred(p[i - 1], p[i]));
        }
    }
    assert(is_path_to(g, q, s));
}

/// The successors that `branches` collects are successors of the block.
pub proof fn lemma_branches_are_successors<C>(g: GraphModel<C>, n: usize, taken: bool, k: int)
    requires
        n < g.blocks.len(),
        0 <= k <= g.blocks[n as int].succs.len(),
    ensures
        forall|i: int|
            0 <= i < crate::structure::branches(g, n, taken, k).len() ==> g.is_pred(
                n as int,
                #[trigger] crate::structure::branches(g, n, taken, k)[i] as int,
            ),
    decreases k,
{
    if k > 0 {
        lemma_branches_are_successors(g, n, taken, k - 1);
        let now = crate::structure::branches(g, n, taken, k);
        let rest = crate::structure::branches(g, n, taken, k - 1);
        let s = g.blocks[n as int].succs[k - 1];
        assert(g.is_pred(n as int, s as int));
        assert forall|i: int| 0 <= i < now.len() implies g.is_pred(n as int, #[trigger] now[i] as int) by {
            if i < rest.len() {
                assert(now[i] == rest[i]);
            }
        }
    }
}

/// The one successor that `branch` picks can be reached where the block
/// can.
pub proof fn lemma_branch_reachable<C>(g: GraphModel<C>, n: usize, taken: bool)
    requires
        n < g.blocks.len(),
        reachable(g, n as int),
        branch(g, n, taken) is Some,
    ensures
        reachable(g, branch(g, n, taken)->Some_0 as int),
{
    lemma_branches_are_successors(g, n, taken, g.blocks[n as int].succs.len() as int);
    lemma_successor_reachable(g, n as int, branch(g, n, taken)->Some_0 as int);
}

/// The walks from a list of successors that succeed: those from all but
/// the last succeed, the walk from the last one succeeds, and it says where
/// the whole stops.
pub proof fn lemma_chain_parts(
    g: GraphModel<UnTypedIR>,
    d: Seq<Vec<usize>>,
    lhs: Seq<usize>,
    succs: Seq<usize>,
    stop: Stop,
    fuel: nat,
)
    requires
        succs.len() > 0,
        chained(g, d, lhs, succs, stop, fuel) is Ok,
    ensures
        chained(g, d, lhs, succs.drop_last(), stop, fuel) is Ok,
        structured(g, d, lhs, succs.last(), stop, fuel) is Ok,
        chained(g, d, lhs, succs, stop, fuel)->Ok_0.next == structured(
            g,
            d,
            lhs,
            succs.last(),
            stop,
            fuel,
        )->Ok_0.next,
{
}

/// Whether every block of `blocks` can be reached.
pub open spec fn all_reachable<C>(g: GraphModel<C>, blocks: Seq<usize>) -> bool {
    forall|i: int| 0 <= i < blocks.len() ==> reachable(g, #[trigger] blocks[i] as int)
}

/// Two lists of blocks that can be reached, one after the other.
pub proof fn lemma_all_reachable_concat<C>(g: GraphModel<C>, a: Seq<usize>, b: Seq<usize>)
    requires
        all_reachable(g, a),
        all_reachable(g, b),
    ensures
        all_reachable(g, a + b),
{
    assert forall|i: int| 0 <= i < (a + b).len() implies reachable(g, #[trigger] (a + b)[i] as int) by {
        if i < a.len() {
            assert((a + b)[i] == a[i]);
        } else {
            assert((a + b)[i] == b[i - a.len()]);
        }
    }
}

/// The block at which a walk from a block that can be reached stops can be
/// reached.
pub proof fn lemma_walk_next_reachable(
    g: GraphModel<UnTypedIR>,
    d: Seq<Vec<usize>>,
    lhs: Seq<usize>,
    n: usize,
    stop: Stop,
    fuel: nat,
)
    requires
        g.wf(),
        n < g.blocks.len(),
        reachable(g, n as int),
        structured(g, d, lhs, n, stop, fuel) is Ok,
        structured(g, d, lhs, n, stop, fuel)->Ok_0.next is Some,
    ensures
        reachable(g, structured(g, d, lhs, n, stop, fuel)->Ok_0.next->Some_0 as int),
    decreases fuel, 0nat, 0nat,
{
    let succs = g.blocks[n as int].succs;
    if stops(d, stop, n) || fuel == 0 || succs.len() == 0 {
    } else if lhs[n as int] == 1 || succs.len() == 2 {
        let rest = (fuel - 1) as nat;
        let f = branch(g, n, false)->Some_0;
        lemma_branch_in_range(g, n, false);
        lemma_branch_reachable(g, n, false);
        if lhs[n as int] != 1 {
            if has_single_pred(g, f as int) {
                let other = structured(g, d, lhs, f, Stop::Outside(f), rest)->Ok_0;
                lemma_walk_next_in_range(g, d, lhs, f, Stop::Outside(f), rest);
                lemma_walk_next_reachable(g, d, lhs, f, Stop::Outside(f), rest);
                lemma_walk_next_reachable(g, d, lhs, other.next->Some_0, stop, rest);
            } else {
                lemma_walk_next_reachable(g, d, lhs, f, stop, rest);
            }
        }
    } else {
        let rest = (fuel - 1) as nat;
        let last = succs.last();
        lemma_chain_parts(g, d, lhs, succs, stop, rest);
        assert(succs[succs.len() - 1] < g.blocks.len());
        assert(g.is_pred(n as int, last as int));
        lemma_successor_reachable(g, n as int, last as int);
        lemma_walk_next_reachable(g, d, lhs, last, stop, rest);
    }
}

/// A walk from a block that can be reached passes only blocks that can be
/// reached: no statement of the result comes from a block that is cut off
/// from the entry.
pub proof fn lemma_visited_reachable(
    g: GraphModel<UnTypedIR>,
    d: Seq<Vec<usize>>,
    lhs: Seq<usize>,
    n: usize,
    stop: Stop,
    fuel: nat,
)
    requires
        g.wf(),
        n < g.blocks.len(),
        reachable(g, n as int),
        structured(g, d, lhs, n, stop, fuel) is Ok,
    ensures
        all_reachable(g, visited(g, d, lhs, n, stop, fuel)),
    decreases fuel, 0nat, 0nat,
{
    let succs = g.blocks[n as int].succs;
    let one = seq![n];
    let none = Seq::<usize>::empty();
    assert(all_reachable(g, one));
    assert(all_reachable(g, none));
    if stops(d, stop, n) || fuel == 0 || succs.len() == 0 {
    } else if lhs[n as int] == 1 || succs.len() == 2 {
        let rest = (fuel - 1) as nat;
        let t = branch(g, n, true)->Some_0;
        let f = branch(g, n, false)->Some_0;
        lemma_branch_in_range(g, n, true);
        lemma_branch_in_range(g, n, false);
        lemma_branch_reachable(g, n, true);
        lemma_branch_reachable(g, n, false);
        if lhs[n as int] == 1 {
            let vb = visited(g, d, lhs, f, Stop::At(n), rest);
            let vc = visited(g, d, lhs, t, stop, rest);
            lemma_visited_reachable(g, d, lhs, f, Stop::At(n), rest);
            lemma_visited_reachable(g, d, lhs, t, stop, rest);
            lemma_all_reachable_concat(g, one, vb);
            lemma_all_reachable_concat(g, one + vb, vc);
        } else {
            let vt = visited(g, d, lhs, t, Stop::Outside(t), rest);
            lemma_visited_reachable(g, d, lhs, t, Stop::Outside(t), rest);
            lemma_all_reachable_concat(g, one, vt);
            if has_single_pred(g, f as int) {
                let other = structured(g, d, lhs, f, Stop::Outside(f), rest)->Ok_0;
                let vo = visited(g, d, lhs, f, Stop::Outside(f), rest);
                lemma_visited_reachable(g, d, lhs, f, Stop::Outside(f), rest);
                lemma_all_reachable_concat(g, one + vt, vo);
                if other.next is Some {
                    let c = other.next->Some_0;
                    lemma_walk_next_in_range(g, d, lhs, f, Stop::Outside(f), rest);
                    lemma_walk_next_reachable(g, d, lhs, f, Stop::Outside(f), rest);
                    lemma_visited_reachable(g, d, lhs, c, stop, rest);
                    lemma_all_reachable_concat(g, one + vt + vo, visited(g, d, lhs, c, stop, rest));
                } else {
                    lemma_all_reachable_concat(g, one + vt + vo, none);
                }
            } else {
                lemma_visited_reachable(g, d, lhs, f, stop, rest);
                lemma_all_reachable_concat(g, one + vt, visited(g, d, lhs, f, stop, rest));
            }
        }
    } else {
        let rest = (fuel - 1) as nat;
        assert(succs.take(succs.len() as int) =~= succs);
        lemma_visited_chain_reachable(g, d, lhs, n, succs.len() as int, stop, rest);
        lemma_all_reachable_concat(g, one, visited_chain(g, d, lhs, succs, stop, rest));
    }
}

/// The same for the walks from each of the first `k` successors of `n`.
pub proof fn lemma_visited_chain_reachable(
    g: GraphModel<UnTypedIR>,
    d: Seq<Vec<usize>>,
    lhs: Seq<usize>,
    n: usize,
    k: int,
    stop: Stop,
    fuel: nat,
)
    requires
        g.wf(),
        n < g.blocks.len(),
        reachable(g, n as int),
        0 <= k <= g.blocks[n as int].succs.len(),
        chained(g, d, lhs, g.blocks[n as int].succs.take(k), stop, fuel) is Ok,
    ensures
        all_reachable(g, visited_chain(g, d, lhs, g.blocks[n as int].succs.take(k), stop, fuel)),
    decreases fuel, 1nat, k,
{
    let succs = g.blocks[n as int].succs;
    if k > 0 {
        let part = succs.take(k);
        assert(part.drop_last() =~= succs.take(k - 1));
        assert(part.last() == succs[k - 1]);
        lemma_chain_parts(g, d, lhs, part, stop, fuel);
        let s = succs[k - 1];
        assert(s < g.blocks.len());
        assert(g.is_pred(n as int, s as int));
        lemma_successor_reachable(g, n as int, s as int);
        lemma_visited_chain_reachable(g, d, lhs, n, k - 1, stop, fuel);
        lemma_visited_reachable(g, d, lhs, s, stop, fuel);
        lemma_all_reachable_concat(
            g,
            visited_chain(g, d, lhs, succs.take(k - 1), stop, fuel),
            visited(g, d, lhs, s, stop, fuel),
        );
    }
}

/// The statements that folding a graph gives are the statements of blocks
/// that can be reached from the entry, block after block: nothing in the
/// result comes from elsewhere, and no jump or label is left in it.
pub proof fn lemma_recovered_from_reachable_blocks(g: GraphModel<UnTypedIR>, stmts: Seq<Ir>)
    requires
        g.wf(),
        0 < g.blocks.len(),
        recovered(g, Ok::<Seq<Ir>, StructureError>(stmts)),
    ensures
        exists|blocks: Seq<usize>| #[trigger]
            all_reachable(g, blocks) && leaves_all(stmts) == block_leaves(g, blocks),
{
    let (d, lhs) = choose|d: Seq<Vec<usize>>, lhs: Seq<usize>|
        {
            &&& is_dominator_sets(g, d)
            &&& #[trigger] is_header_flags(g, d, lhs)
            &&& Ok::<Seq<Ir>, StructureError>(stmts) == match structured(
                g,
                d,
                lhs,
                0,
                Stop::Never,
                g.blocks.len(),
            ) {
                Ok(w) => Ok::<Seq<Ir>, StructureError>(w.stmts),
                Err(e) => Err::<Seq<Ir>, StructureError>(e),
            }
        };
    let p = seq![0int];
    assert(is_path_to(g, p, 0));
    lemma_walk_leaves(g, d, lhs, 0, Stop::Never, g.blocks.len());
    lemma_visited_reachable(g, d, lhs, 0, Stop::Never, g.blocks.len());
    let blocks = visited(g, d, lhs, 0, Stop::Never, g.blocks.len());
    assert(all_reachable(g, blocks) && leaves_all(stmts) == block_leaves(g, blocks));
}

} // verus!
